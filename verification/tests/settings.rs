use portraitify::errors::ProcessError;
use portraitify::images::{flatten, load_weights, CropWindow, SourceImg};
use portraitify::settings::{
    get_images, normalized_proximity_importance, rgb_image_from_raw, validate_sidelen, Algorithm,
    CropScale, CropWindows, GenerationSettings, Portrait,
};
use uuid::Uuid;

fn png(width: u32, height: u32, data: Vec<u8>) -> Vec<u8> {
    let img = image::RgbImage::from_raw(width, height, data).unwrap();
    let mut bytes = Vec::new();
    img.write_to(
        &mut std::io::Cursor::new(&mut bytes),
        image::ImageFormat::Png,
    )
    .unwrap();
    bytes
}

fn settings(sidelen: u32) -> GenerationSettings {
    let mut settings = GenerationSettings::default(Uuid::nil(), "test".into());
    settings.sidelen = sidelen;
    settings
}

fn window(x: u32, y: u32, side: u32) -> CropWindow {
    CropWindow { x, y, side }
}

fn gradient(width: u32, height: u32) -> SourceImg {
    let mut data = Vec::new();
    for y in 0..height {
        for x in 0..width {
            data.extend([(x * 10) as u8, (y * 10) as u8, (x * y) as u8]);
        }
    }
    SourceImg { width, height, data }
}

#[test]
fn raw_image_decoder_accepts_rgb_and_rgba() {
    let rgb = rgb_image_from_raw(1, 1, vec![10, 20, 30]).unwrap();
    assert_eq!(rgb.get_pixel(0, 0), [10, 20, 30]);

    let rgba = rgb_image_from_raw(1, 1, vec![40, 50, 60, 7]).unwrap();
    assert_eq!(rgba.get_pixel(0, 0), [40, 50, 60]);
}

#[test]
fn raw_image_decoder_rejects_bad_lengths_and_dimensions() {
    assert!(rgb_image_from_raw(0, 1, Vec::new()).is_err());
    assert!(rgb_image_from_raw(2, 2, vec![0; 5]).is_err());
}

#[test]
fn proximity_weight_is_normalized_by_resolution_squared() {
    assert_eq!(normalized_proximity_importance(13, 128), 13);
    assert_eq!(normalized_proximity_importance(13, 64), 52);
    assert_eq!(normalized_proximity_importance(13, 256), 3);
    assert_eq!(normalized_proximity_importance(0, 64), 0);
}

#[test]
fn importance_is_rounded_and_bounded() {
    assert_eq!(normalized_proximity_importance(-5, 64), 0);
    assert_eq!(normalized_proximity_importance(5, 0), 0);
    assert_eq!(normalized_proximity_importance(1, 256), 1);
    assert_eq!(normalized_proximity_importance(6, 256), 2);
    assert_eq!(normalized_proximity_importance(i64::MAX, 1), i64::MAX);
    assert_eq!(normalized_proximity_importance(i64::MAX, u32::MAX), 8192);
    for side in [32i64, 50, 64, 100, 128, 200, 256] {
        let cells = side * side;
        let scaled = normalized_proximity_importance(1000, side as u32) * cells;
        assert!(2 * (scaled - 1000 * 128 * 128).abs() <= cells);
    }
}

#[test]
fn more_importance_never_weighs_less() {
    for side in [0, 1, 7, 64, 128, 256] {
        let mut previous = 0;
        for value in -3..400 {
            let importance = normalized_proximity_importance(value, side);
            assert!(previous <= importance);
            previous = importance;
        }
    }
}

#[test]
fn stored_pixels_are_read_back() {
    let pixels = gradient(4, 3).pixels();
    let img = rgb_image_from_raw(4, 3, flatten(&pixels)).unwrap();
    assert_eq!(img.pixels(), pixels);
    let rgba: Vec<u8> = pixels.iter().flat_map(|&(r, g, b)| [r, g, b, 9]).collect();
    let img = rgb_image_from_raw(4, 3, rgba).unwrap();
    assert_eq!(img.pixels(), pixels);
}

#[test]
fn large_dimensions_are_refused() {
    assert!(matches!(
        rgb_image_from_raw(u32::MAX, u32::MAX, Vec::new()),
        Err(ProcessError::RgbTooLarge)
    ));
    assert!(matches!(
        rgb_image_from_raw(u32::MAX, 0x5555_5555, Vec::new()),
        Err(ProcessError::RgbaTooLarge)
    ));
    assert!(matches!(
        rgb_image_from_raw(2, 1, vec![0; 7]),
        Err(ProcessError::ByteLength { rgb: 6, rgba: 8, got: 7 })
    ));
}

#[test]
fn resolutions_have_bounds() {
    assert!(validate_sidelen(1).is_ok());
    assert!(validate_sidelen(256).is_ok());
    assert!(validate_sidelen(0).is_err());
    assert!(validate_sidelen(257).is_err());
}

#[test]
fn default_settings_are_modest() {
    let id = Uuid::from_u128(5);
    let settings = GenerationSettings::default(id, "mine".into());
    assert_eq!(settings.id, id);
    assert_eq!(settings.name, "mine");
    assert_eq!(settings.proximity_importance, 13);
    assert_eq!(settings.algorithm, Algorithm::Genetic);
    assert_eq!(settings.sidelen, 64);
    assert!(settings.custom_target.is_none());
    assert_eq!(settings.target_crop_scale, CropScale::identity());
    assert_eq!(f32::from_bits(settings.source_crop_scale.scale), 1.0);
    assert_eq!(f32::from_bits(settings.source_crop_scale.x), 0.0);
    assert_eq!(f32::from_bits(settings.source_crop_scale.y), 0.0);
}

#[test]
fn a_copy_has_an_identifier_of_its_own() {
    let first = GenerationSettings::default(Uuid::from_u128(5), "mine v4".into());
    let copied = first.clone_with_new_id();
    assert_eq!(copied.name, "mine v5");
    assert!(copied.id != first.id);
    assert_eq!(copied.id.get_version_num(), 4);
    assert_eq!(copied.sidelen, first.sidelen);
    let named = first.clone_with_id(Uuid::from_u128(9));
    assert_eq!(named.id, Uuid::from_u128(9));
    assert_eq!(named.name, "mine v5");
    assert_eq!(first.clone().name, "mine v4");
}

#[test]
fn a_window_shows_part_of_a_picture() {
    let img = gradient(5, 4);
    let part = window(2, 1, 3).apply(&img, 3);
    assert_eq!((part.width, part.height), (3, 3));
    for y in 0..3 {
        for x in 0..3 {
            assert_eq!(part.get_pixel(x, y), img.get_pixel(x + 2, y + 1));
        }
    }
    assert!(window(2, 1, 3).is_inside(5, 4));
    assert!(!window(3, 1, 3).is_inside(5, 4));
    assert!(!window(2, 2, 3).is_inside(5, 4));
    assert!(!window(0, 0, 0).is_inside(5, 4));
    assert!(!window(u32::MAX, 0, 1).is_inside(5, 4));
}

#[test]
fn a_window_is_resized_to_the_resolution() {
    let img = gradient(12, 9);
    let fitted = window(1, 1, 8).apply(&img, 3);
    assert_eq!((fitted.width, fitted.height), (3, 3));
    let whole = image::RgbImage::from_raw(12, 9, img.data.clone()).unwrap();
    let part = image::imageops::crop_imm(&whole, 1, 1, 8, 8).to_image();
    let expected =
        image::imageops::resize(&part, 3, 3, image::imageops::FilterType::Lanczos3).into_raw();
    assert_eq!(fitted.data, expected);
}

#[test]
fn pixels_and_bytes_say_the_same() {
    let img = gradient(3, 2);
    let pixels = img.pixels();
    assert_eq!(pixels.len(), 6);
    assert_eq!(pixels[4], (10, 10, 1));
    assert_eq!(flatten(&pixels), img.data);
    assert_eq!(load_weights(img), vec![0, 10, 20, 0, 10, 20]);
}

#[test]
fn pictures_are_prepared_at_the_asked_resolution() {
    let portrait = Portrait {
        target: png(2, 2, vec![1, 2, 3, 4, 5, 6, 7, 8, 9, 10, 11, 12]),
        weights: png(2, 2, vec![100, 0, 0, 101, 0, 0, 102, 0, 0, 103, 0, 0]),
    };
    let windows = CropWindows {
        source: window(1, 0, 2),
        target: window(0, 0, 2),
        weights: window(0, 0, 2),
    };
    let (source, target, weights) =
        get_images(gradient(3, 2), &settings(2), &portrait, &windows).unwrap();
    assert_eq!(source, vec![(10, 0, 0), (20, 0, 0), (10, 10, 1), (20, 10, 2)]);
    assert_eq!(target, vec![(1, 2, 3), (4, 5, 6), (7, 8, 9), (10, 11, 12)]);
    assert_eq!(weights, vec![100, 101, 102, 103]);
    assert!(matches!(
        get_images(gradient(3, 2), &settings(300), &portrait, &windows),
        Err(ProcessError::Resolution(300))
    ));
    assert!(matches!(
        get_images(gradient(2, 2), &settings(2), &portrait, &windows),
        Err(ProcessError::CropOutside)
    ));
}

#[test]
fn a_custom_target_takes_the_place_of_the_portrait() {
    let portrait = Portrait {
        target: png(1, 1, vec![9, 9, 9]),
        weights: Vec::new(),
    };
    let windows = CropWindows {
        source: window(0, 0, 1),
        target: window(0, 0, 1),
        weights: window(0, 0, 1),
    };
    let mut custom = settings(1);
    custom.custom_target = Some((1, 1, vec![5, 6, 7, 8]));
    let target = custom.get_raw_target(&portrait);
    assert_eq!(target.data, vec![5, 6, 7]);
    let (fitted, weights) = custom.get_target(&portrait, &windows).unwrap();
    assert_eq!(fitted.data, vec![5, 6, 7]);
    assert_eq!(weights, vec![255]);

    // One that cannot be read gives way to the portrait, with uniform weights.
    custom.custom_target = Some((1, 1, vec![5]));
    let (fitted, weights) = custom.get_target(&portrait, &windows).unwrap();
    assert_eq!(fitted.data, vec![9, 9, 9]);
    assert_eq!(weights, vec![255]);

    // The weights of the portrait are needed without a custom target.
    let plain = settings(1);
    assert!(matches!(
        plain.get_target(&portrait, &windows),
        Err(ProcessError::Decode(_))
    ));
    let broken = Portrait {
        target: vec![1],
        weights: Vec::new(),
    };
    assert_eq!(plain.get_raw_target(&broken).data, vec![0, 0, 0]);
    let error = plain.get_target(&portrait, &windows).err().unwrap();
    assert!(!error.message().is_empty());
    assert_eq!(
        ProcessError::CropOutside.message(),
        "crop window lies outside the image"
    );
    assert_eq!(plain.raw_target_from(None).data, vec![0, 0, 0]);
    let picture = SourceImg { width: 1, height: 1, data: vec![3, 3, 3] };
    let (fitted, weights) = plain
        .fit_target(&picture, Some(gradient(1, 1)), &windows)
        .unwrap();
    assert_eq!(fitted.data, vec![3, 3, 3]);
    assert_eq!(weights, vec![0]);
}

#[test]
fn the_weights_have_a_size_without_a_custom_target() {
    let portrait = Portrait {
        target: png(1, 1, vec![9, 9, 9]),
        weights: png(3, 2, vec![1; 18]),
    };
    assert_eq!(settings(1).weights_size(&portrait), Some((3, 2)));
    let mut custom = settings(1);
    custom.custom_target = Some((1, 1, vec![5, 6, 7]));
    assert_eq!(custom.weights_size(&portrait), None);
    let broken = Portrait {
        target: png(1, 1, vec![9, 9, 9]),
        weights: vec![1, 2, 3],
    };
    assert_eq!(settings(1).weights_size(&broken), None);
}
