use color_quant::NeuQuant;
use portraitify::gif_recorder::{
    readback_layout, remove_padding, FinishStep, GifError, GifRecorder, GifSaveResult, GifStatus,
    Readback, SaveOutcome, GIF_MAX_FRAMES, GIF_MIN_FRAMES,
};
use std::path::PathBuf;

const PADDED: usize = 1792 * 400;

fn mapped() -> Vec<u8> {
    let mut bytes = vec![77; PADDED];
    for y in 0..400 {
        for x in 0..400 {
            let at = y * 1792 + x * 4;
            bytes[at] = (x / 2) as u8;
            bytes[at + 1] = (y / 2) as u8;
            bytes[at + 2] = 30;
            bytes[at + 3] = 255;
        }
    }
    bytes
}

fn colors() -> Vec<[u8; 4]> {
    (0..2000u32)
        .map(|i| [(i % 200) as u8, (i / 10) as u8, 30, 255])
        .collect()
}

fn palette() -> NeuQuant {
    let bytes: Vec<u8> = colors().concat();
    NeuQuant::new(1, 256, &bytes)
}

fn words(status: &GifStatus) -> &str {
    match status {
        GifStatus::Error(words) => words,
        _ => panic!("an error was expected"),
    }
}

#[test]
fn a_new_recorder_is_blank() {
    let recorder = GifRecorder::new();
    assert_eq!(recorder.id, 0);
    assert!(recorder.not_recording());
    assert!(!recorder.is_recording());
    assert!(recorder.no_inflight());
    assert!(!recorder.should_stop());
    assert!(recorder.encoder.is_none());
    assert!(recorder.palette.is_none());
}

#[test]
fn rows_are_read_back_without_padding() {
    let bytes = mapped();
    let rgba = remove_padding(&bytes);
    assert_eq!(rgba.len(), 640000);
    for (y, row) in rgba.chunks_exact(1600).enumerate() {
        assert_eq!(row, &bytes[y * 1792..y * 1792 + 1600]);
    }
}

#[test]
fn only_pictures_of_the_right_size_are_read_back() {
    let layout = readback_layout(400, 400).unwrap_or_else(|words| panic!("{}", words));
    assert_eq!(layout.bytes_per_row, 1792);
    assert_eq!(layout.rows, 400);
    assert_eq!(layout.buffer_size, 716800);
    match readback_layout(400, 300) {
        Err(words) => assert_eq!(words, "GIF readback size must be 400×400, got 400×300"),
        Ok(_) => panic!("a picture of another size was accepted"),
    }
}

#[test]
fn a_recording_needs_colors() {
    let mut recorder = GifRecorder::new();
    match recorder.init_encoder(&[]) {
        Err(error) => assert_eq!(error.message(), "Cannot record a GIF without colors"),
        Ok(()) => panic!("a recording without colors was started"),
    }
    assert_eq!(recorder.id, 0);
    assert!(recorder.not_recording());
    recorder.id = u32::MAX;
    assert!(recorder.init_encoder(&colors()).is_ok());
    assert_eq!(recorder.id, 0);
    assert!(recorder.is_recording());
    recorder.stop();
    assert_eq!(recorder.id, 1);
    assert!(recorder.not_recording());
    assert!(recorder.encoder.is_none());
}

#[test]
fn a_recording_can_be_played() {
    let mut recorder = GifRecorder::new();
    assert!(recorder.init_encoder(&colors()).is_ok());
    let pending = recorder.try_write_frame(&Readback::Pending);
    assert!(matches!(pending, Ok(false)));
    assert!(matches!(recorder.try_write_frame(&Readback::Mapped(mapped())), Ok(false)));
    for _ in 0..2 {
        recorder.begin_readback();
        assert!(!recorder.no_inflight());
        assert!(matches!(recorder.try_write_frame(&Readback::Pending), Ok(false)));
        assert!(!recorder.no_inflight());
        assert!(matches!(recorder.try_write_frame(&Readback::Mapped(mapped())), Ok(true)));
        assert!(recorder.no_inflight());
    }
    let (file_name, data) = match recorder.finish("cat".into()) {
        FinishStep::Save { file_name, data } => (file_name, data),
        FinishStep::Settled => panic!("there was nothing to save"),
    };
    assert_eq!(file_name, "cat.gif");
    assert!(recorder.is_recording());
    assert_eq!(&data[..13], b"GIF89a\x90\x01\x90\x01\xf7\x00\x00");
    let nq = palette();
    assert_eq!(&data[13..13 + 768], nq.color_map_rgb().as_slice());
    assert_eq!(
        &data[781..800],
        b"\x21\xff\x0bNETSCAPE2.0\x03\x01\x00\x00\x00"
    );
    assert_eq!(data.last(), Some(&0x3b));

    let mut options = gif::DecodeOptions::new();
    options.set_color_output(gif::ColorOutput::Indexed);
    let mut decoder = options.read_info(data.as_slice()).unwrap();
    assert_eq!((decoder.width(), decoder.height()), (400, 400));
    let expected: Vec<u8> = remove_padding(&mapped())
        .chunks_exact(4)
        .map(|pixel| nq.index_of(pixel) as u8)
        .collect();
    let mut frames = 0;
    while let Some(frame) = decoder.read_next_frame().unwrap() {
        assert_eq!(frame.delay, 8);
        assert_eq!(frame.buffer.as_ref(), expected.as_slice());
        frames += 1;
    }
    assert_eq!(frames, 2);

    assert!(!recorder.saved(SaveOutcome::Dismissed));
    assert!(recorder.is_recording());
    assert!(recorder.saved(SaveOutcome::Failed("disk full".into())));
    assert_eq!(words(&recorder.status), "Unable to save GIF: disk full");
    assert!(recorder.saved(SaveOutcome::Written(PathBuf::from("cat.gif"))));
    match &recorder.status {
        GifStatus::Complete(path) => assert_eq!(path, &PathBuf::from("cat.gif")),
        _ => panic!("the recording was not saved"),
    }
}

#[test]
fn a_frame_needs_an_encoder_and_a_palette() {
    let mut recorder = GifRecorder::new();
    recorder.begin_readback();
    match recorder.try_write_frame(&Readback::Failed) {
        Err(error) => assert_eq!(
            error.message(),
            "GPU readback failed while recording the GIF"
        ),
        Ok(_) => panic!("a lost picture was written"),
    }
    assert!(recorder.no_inflight());
    recorder.begin_readback();
    let result = recorder.try_write_frame(&Readback::Mapped(mapped()));
    assert!(matches!(result, Err(GifError::NoEncoder)));
    assert_eq!(GifError::NoEncoder.message(), "No encoder");
    assert!(recorder.init_encoder(&colors()).is_ok());
    recorder.palette = None;
    recorder.begin_readback();
    let result = recorder.try_write_frame(&Readback::Mapped(mapped()));
    assert!(matches!(result, Err(GifError::NoPalette)));
    assert_eq!(GifError::NoPalette.message(), "No GIF palette");
    assert!(matches!(recorder.poll_inflight(&Readback::Failed), Ok(None)));
}

#[test]
fn a_full_recording_stops() {
    let mut recorder = GifRecorder::new();
    assert!(recorder.init_encoder(&colors()).is_ok());
    let mut picture = mapped();
    let mut state: u32 = 5;
    let nq = palette();
    for pixel in picture.chunks_exact_mut(4) {
        state = state.wrapping_mul(1664525).wrapping_add(1013904223);
        pixel.copy_from_slice(&nq.lookup((state >> 24) as usize).unwrap());
    }
    let mut frames = 0;
    while !recorder.full {
        recorder.begin_readback();
        let handled = recorder.try_write_frame(&Readback::Mapped(picture.clone()));
        assert!(matches!(handled, Ok(true)));
        frames += 1;
        assert!(frames < 200);
    }
    assert_eq!(recorder.frame_count, GIF_MIN_FRAMES);
    assert!(recorder.should_stop());
    match recorder.finish("full".into()) {
        FinishStep::Save { data, .. } => assert!(data.len() <= 10 * 1024 * 1024),
        FinishStep::Settled => panic!("there was nothing to save"),
    }
}

#[test]
fn a_recording_is_neither_too_short_nor_too_long() {
    let mut recorder = GifRecorder::new();
    recorder.full = true;
    recorder.frame_count = GIF_MIN_FRAMES - 1;
    assert!(!recorder.should_stop());
    recorder.frame_count = GIF_MIN_FRAMES;
    assert!(recorder.should_stop());
    recorder.full = false;
    assert!(!recorder.should_stop());
    recorder.frame_count = GIF_MAX_FRAMES - 1;
    assert!(!recorder.should_stop());
    recorder.frame_count = GIF_MAX_FRAMES;
    assert!(recorder.should_stop());
}

#[test]
fn only_a_recording_can_be_finished() {
    let mut recorder = GifRecorder::new();
    assert!(matches!(recorder.finish("x".into()), FinishStep::Settled));
    assert_eq!(words(&recorder.status), "GIF encoder was not initialized");

    let report = |status: GifStatus, shown: &str| {
        let mut recorder = GifRecorder::new();
        assert!(recorder.init_encoder(&colors()).is_ok());
        recorder.status = status;
        assert!(matches!(recorder.finish("x".into()), FinishStep::Settled));
        let start = format!("Something weird happened: ({}, Ok([71, 73, 70, 56, ", shown);
        assert!(words(&recorder.status).starts_with(&start));
        assert!(words(&recorder.status).ends_with(", 0, 59]))"));
    };
    report(GifStatus::Idle, "None");
    report(GifStatus::Saving, "Saving");
    report(GifStatus::Cancelled, "Cancelled");
    report(GifStatus::Error("a \"b\"".into()), "Error(\"a \\\"b\\\"\")");
    report(GifStatus::Complete(PathBuf::from("c.gif")), "Complete(\"c.gif\")");
}

#[test]
fn the_first_result_of_the_recording_counts() {
    let mut recorder = GifRecorder::new();
    recorder.id = 5;
    recorder.report_save(5, GifSaveResult::Cancelled);
    recorder.poll_save_result();
    assert!(recorder.not_recording());

    recorder.begin_save();
    recorder.poll_save_result();
    assert!(matches!(recorder.status, GifStatus::Saving));
    recorder.report_save(4, GifSaveResult::Complete);
    recorder.report_save(5, GifSaveResult::Error("no room".into()));
    recorder.report_save(5, GifSaveResult::Cancelled);
    recorder.poll_save_result();
    assert_eq!(words(&recorder.status), "no room");
    assert!(recorder.save_results.is_empty());

    recorder.begin_save();
    recorder.report_save(5, GifSaveResult::Complete);
    recorder.poll_save_result();
    assert_eq!(words(&recorder.status), "unexpected asynchronous save result");

    recorder.begin_save();
    recorder.report_save(5, GifSaveResult::Cancelled);
    recorder.poll_save_result();
    assert!(matches!(recorder.status, GifStatus::Cancelled));
}

#[test]
fn file_names_are_safe() {
    let recorder = GifRecorder::new();
    assert_eq!(
        recorder.get_name("my cat/dog-1_é".into(), false),
        "portraitify_my_cat_dog-1_é"
    );
    assert_eq!(
        recorder.get_name("x".into(), true),
        "portraitify_reverse_x"
    );
    assert_eq!(recorder.get_name("".into(), false), "portraitify_portrait");
    let long: String = "a".repeat(60);
    let expected = format!("portraitify_{}", "a".repeat(40));
    assert_eq!(recorder.get_name(long, false), expected);
}

#[test]
fn file_names_keep_letters_and_digits() {
    let recorder = GifRecorder::new();
    for code in 0..128u32 {
        let c = char::from_u32(code).unwrap();
        let plain = "0123456789-_abcdefghijklmnopqrstuvwxyzABCDEFGHIJKLMNOPQRSTUVWXYZ".contains(c);
        let expected = format!("portraitify_{}", if plain { c } else { '_' });
        assert_eq!(recorder.get_name(c.into(), false), expected);
    }
}
