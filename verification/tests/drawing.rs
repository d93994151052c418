use portraitify::cost::{heuristic, ImgDiffWeights};
use portraitify::drawing::{
    build_neighbour_map, source_index, stroke_reward, DrawingPixel, PixelData,
    DRAWING_CANVAS_SIZE, STROKE_REWARD,
};
use portraitify::drawing_job::{
    backoff_ms, prepare_drawing, Drawing, DrawingError, DrawingSession, DrawingStep,
};
use portraitify::images::CropWindow;
use portraitify::messages::{ProgressMsg, Watch};
use portraitify::preset::UnprocessedPreset;
use portraitify::settings::{CropWindows, GenerationSettings, Portrait};
use std::sync::atomic::{AtomicU32, Ordering};
use std::sync::Arc;
use uuid::Uuid;

const COUNT: usize = DRAWING_CANVAS_SIZE * DRAWING_CANVAS_SIZE;

fn noise(len: usize, mut state: u32) -> Vec<u8> {
    let mut bytes = Vec::new();
    for _ in 0..len {
        state = state.wrapping_mul(1664525).wrapping_add(1013904223);
        bytes.push((state >> 24) as u8);
    }
    bytes
}

fn pixels_of(bytes: &[u8]) -> Vec<(u8, u8, u8)> {
    bytes.chunks_exact(3).map(|p| (p[0], p[1], p[2])).collect()
}

fn matrix() -> ImgDiffWeights {
    ImgDiffWeights {
        source: pixels_of(&noise(COUNT * 3, 1)),
        target: pixels_of(&noise(COUNT * 3, 2)),
        weights: noise(COUNT, 3).iter().map(|&w| w as i64).collect(),
        sidelen: DRAWING_CANVAS_SIZE,
        spatial_weight: 13,
        negated: false,
    }
}

fn watch(own: u32) -> Watch {
    Watch::new(own, Arc::new(AtomicU32::new(own)))
}

#[test]
fn source_index_uses_the_pixels_source_coordinates() {
    let pixel = DrawingPixel::new(7, 3, 0);
    assert_eq!(source_index(pixel, DRAWING_CANVAS_SIZE), Some(391));
    assert_eq!(
        source_index(
            DrawingPixel::new(DRAWING_CANVAS_SIZE as u16, 0, 0),
            DRAWING_CANVAS_SIZE
        ),
        None
    );
}

#[test]
fn neighbour_map_has_no_row_wrapping() {
    let map = build_neighbour_map(3);
    let corner = map[0].iter().flatten().copied().collect::<Vec<_>>();
    assert_eq!(corner, vec![1, 3]);
    let opposite_corner = map[8].iter().flatten().copied().collect::<Vec<_>>();
    assert_eq!(opposite_corner, vec![5, 7]);
}

#[test]
fn stroke_reward_follows_source_pixels_after_reassignment() {
    let count = DRAWING_CANVAS_SIZE * DRAWING_CANVAS_SIZE;
    let mut pixels = (0..count)
        .map(|index| {
            DrawingPixel::new(
                (index % DRAWING_CANVAS_SIZE) as u16,
                (index / DRAWING_CANVAS_SIZE) as u16,
                0,
            )
        })
        .collect::<Vec<_>>();
    pixels.swap(0, 5);
    pixels.swap(1, 6);

    let mut data = PixelData::init_canvas(0);
    data[5].stroke_id = 42;
    data[6].stroke_id = 42;
    let neighbours = build_neighbour_map(DRAWING_CANVAS_SIZE);
    assert_eq!(
        stroke_reward(0, 0, &data, &pixels, 0, &neighbours),
        STROKE_REWARD
    );
}

#[test]
fn a_stroke_is_rewarded_only_next_to_itself() {
    let pixels: Vec<DrawingPixel> = (0..COUNT)
        .map(|i| DrawingPixel::new((i % 128) as u16, (i / 128) as u16, 0))
        .collect();
    let mut data = PixelData::init_canvas(10);
    data[200].stroke_id = 3;
    let neighbours = build_neighbour_map(128);
    let reward = |newpos, oldpos, frame| {
        stroke_reward(newpos, oldpos, &data, &pixels, frame, &neighbours)
    };
    // To the left, to the right, above and below.
    for newpos in [199, 201, 72, 328] {
        assert_eq!(reward(newpos, 200, 10), STROKE_REWARD);
    }
    assert_eq!(reward(200, 200, 10), 0);
    assert_eq!(reward(199, 200, 9), 0);
    assert_eq!(reward(199, 201, 10), 0);
    assert_eq!(reward(199, COUNT, 10), 0);
    assert_eq!(reward(COUNT, 200, 10), 0);
    assert_eq!(stroke_reward(199, 200, &data[..100], &pixels, 10, &neighbours), 0);
}

#[test]
fn neighbours_are_mutual() {
    let map = build_neighbour_map(5);
    assert_eq!(map.len(), 25);
    assert_eq!(map[12], [Some(7), Some(11), Some(13), Some(17)]);
    assert_eq!(map[5], [Some(0), None, Some(6), Some(10)]);
    for a in 0..25 {
        for b in 0..25 {
            let step = (a % 5usize).abs_diff(b % 5) + (a / 5usize).abs_diff(b / 5);
            assert_eq!(map[a].contains(&Some(b)), step == 1);
            assert_eq!(map[a].contains(&Some(b)), map[b].contains(&Some(a)));
        }
    }
    assert!(build_neighbour_map(0).is_empty());
    assert_eq!(build_neighbour_map(1), vec![[None; 4]]);
}

#[test]
fn a_canvas_pixel_costs_what_its_color_costs() {
    let mut pixel = DrawingPixel::new(2, 1, 0);
    let mut colors = vec![(0, 0, 0); COUNT];
    colors[130] = (5, 6, 7);
    let h = pixel.calc_drawing_heuristic((3, 1), (5, 6, 9), 10, &colors, 4);
    assert_eq!(h, heuristic((2, 1), (3, 1), (5, 6, 7), (5, 6, 9), 10, 4));
    assert_eq!(h, 40 + 16);
    pixel.update_heuristic(h);
    assert_eq!(pixel.h, 56);
}

#[test]
fn an_idle_drawing_waits_longer_and_longer() {
    let waits: Vec<u64> = (0..12).map(backoff_ms).collect();
    assert_eq!(waits, vec![1, 2, 4, 8, 16, 32, 64, 128, 256, 500, 500, 500]);
    assert_eq!(backoff_ms(u32::MAX), 500);
}

#[test]
fn a_drawing_has_the_size_of_the_canvas() {
    let colors = vec![(0, 0, 0); COUNT];
    match Drawing::new(matrix(), &colors[1..], 0) {
        Err(error) => assert_eq!(error.message(), "drawing color state has the wrong size"),
        Ok(_) => panic!("a canvas of another size was accepted"),
    }
    let mut drawing = Drawing::new(matrix(), &colors, 0).ok().unwrap();
    assert_eq!(drawing.assignments(), (0..COUNT).collect::<Vec<_>>());
    let data = PixelData::init_canvas(0);
    let mut watch = watch(1);
    let changed = drawing.run_generation(&colors[1..], &data, &mut watch);
    assert!(matches!(changed, Err(DrawingError::ColorsChangedSize)));
    let wrong = drawing.run_generation(&colors, &data[1..], &mut watch);
    assert!(matches!(wrong, Err(DrawingError::PixelsWrongSize)));
    assert_eq!(
        DrawingError::ColorsChangedSize.message(),
        "drawing color state changed to an invalid size"
    );
    assert_eq!(
        DrawingError::PixelsWrongSize.message(),
        "drawing pixel state has the wrong size"
    );
}

#[test]
fn a_superseded_drawing_ends() {
    let colors = vec![(0, 0, 0); COUNT];
    let mut drawing = Drawing::new(matrix(), &colors, 0).ok().unwrap();
    let current = Arc::new(AtomicU32::new(7));
    let mut watch = Watch::new(7, current.clone());
    current.store(8, Ordering::Relaxed);
    let data = PixelData::init_canvas(0);
    match drawing.run_generation(&colors, &data, &mut watch) {
        Ok(DrawingStep::Superseded(event)) => {
            assert_eq!(event.drawing_id, 7);
            assert_eq!(event.msg.typ(), "cancelled");
        }
        _ => panic!("the drawing went on"),
    }
    assert_eq!(drawing.assignments(), (0..COUNT).collect::<Vec<_>>());
}

fn session(own: u32, current: &Arc<AtomicU32>, colors: &[(u8, u8, u8)]) -> DrawingSession {
    DrawingSession::new(matrix(), colors, 3, own, current.clone()).ok().unwrap()
}

#[test]
fn a_session_ends_when_another_drawing_is_found() {
    let colors = pixels_of(&noise(COUNT * 3, 5));
    let data = PixelData::init_canvas(0);
    let current = Arc::new(AtomicU32::new(7));

    let mut looking = session(7, &current, &colors);
    let mut working = session(7, &current, &colors);
    assert!(looking.look().is_none());
    match working.work(&colors, &data) {
        Ok(DrawingStep::Moved(event)) => {
            assert_eq!(event.drawing_id, 7);
            assert_eq!(event.msg.typ(), "update_assignments");
        }
        _ => panic!("the session moved nothing"),
    }
    assert!(working.look().is_none());

    current.store(8, Ordering::Relaxed);
    let event = looking.look().unwrap();
    assert_eq!((event.drawing_id, event.msg.typ()), (7, "cancelled"));
    match working.work(&colors, &data) {
        Ok(DrawingStep::Superseded(event)) => {
            assert_eq!((event.drawing_id, event.msg.typ()), (7, "cancelled"));
        }
        _ => panic!("the session went on"),
    }
}

#[test]
fn a_session_refuses_a_canvas_of_another_size() {
    let colors = vec![(0, 0, 0); COUNT];
    let data = PixelData::init_canvas(0);
    let current = Arc::new(AtomicU32::new(1));
    let begun = DrawingSession::new(matrix(), &colors[1..], 0, 1, current.clone());
    assert!(matches!(begun, Err(DrawingError::ColorsWrongSize)));
    let mut session = session(1, &current, &colors);
    let changed = session.work(&colors[1..], &data[1..]);
    assert!(matches!(changed, Err(DrawingError::ColorsChangedSize)));
    let wrong = session.work(&colors, &data[1..]);
    assert!(matches!(wrong, Err(DrawingError::PixelsWrongSize)));
    assert!(session.look().is_none());
}

#[test]
fn drawings_of_the_same_canvas_repeat() {
    let colors = pixels_of(&noise(COUNT * 3, 5));
    let data = PixelData::init_canvas(0);
    let told = |own: u32| {
        let mut session = session(own, &Arc::new(AtomicU32::new(own)), &colors);
        let mut orders = Vec::new();
        for _ in 0..2 {
            match session.work(&colors, &data) {
                Ok(DrawingStep::Moved(event)) => match event.msg {
                    ProgressMsg::UpdateAssignments(order) => orders.push(order),
                    _ => panic!("assignments were expected"),
                },
                _ => panic!("the session moved nothing"),
            }
        }
        orders
    };
    let (one, other) = (told(3), told(4));
    assert_ne!(one[0], one[1]);
    assert_eq!(one, other);
}

fn reach(age: u32) -> i16 {
    ((32f32 * 0.99f32.powi(age.min(i32::MAX as u32) as i32 / 30)).round() as u32).max(1) as i16
}

struct Rehearsal {
    order: Vec<usize>,
    rng: frand::Rand,
}

impl Rehearsal {
    fn generation(
        &mut self,
        m: &ImgDiffWeights,
        colors: &[(u8, u8, u8)],
        data: &[PixelData],
        frame: u32,
    ) -> usize {
        let neighbours = build_neighbour_map(128);
        let mut made = 0;
        for _ in 0..32768 {
            let a = self.rng.gen_range(0..COUNT as u64) as usize;
            let reach_a = reach(frame.saturating_sub(data[self.order[a]].last_edited));
            let dx = self.rng.gen_range(-reach_a..reach_a + 1);
            let dy = self.rng.gen_range(-reach_a..reach_a + 1);
            let x = ((a % 128) as i16 + dx).clamp(0, 127) as usize;
            let y = ((a / 128) as i16 + dy).clamp(0, 127) as usize;
            let b = y * 128 + x;
            let reach_b = reach(frame.saturating_sub(data[self.order[b]].last_edited)) as usize;
            if x.abs_diff(a % 128) > reach_b || y.abs_diff(a / 128) > reach_b {
                continue;
            }
            let energy = |who: usize, at: usize| {
                let source = self.order[who];
                let place = |i: usize| ((i % 128) as u16, (i / 128) as u16);
                let mut h = heuristic(
                    place(source),
                    place(at),
                    colors[source],
                    m.target[at],
                    m.weights[at],
                    m.spatial_weight,
                );
                let own = data[source];
                if own.stroke_id != 0 && frame >= own.last_edited {
                    let touches = neighbours[at]
                        .iter()
                        .flatten()
                        .any(|&c| data[self.order[c]].stroke_id == own.stroke_id);
                    if touches {
                        h += STROKE_REWARD;
                    }
                }
                h
            };
            if energy(a, a) + energy(b, b) > energy(a, b) + energy(b, a) {
                self.order.swap(a, b);
                made += 1;
            }
        }
        made
    }
}

#[test]
fn generations_move_pixels_to_better_places() {
    let m = matrix();
    let colors = pixels_of(&noise(COUNT * 3, 5));
    let mut data = PixelData::init_canvas(40);
    for i in 3000..3100 {
        data[i] = PixelData { stroke_id: 6, last_edited: 900 };
    }
    let mut drawing = Drawing::new(matrix(), &colors, 40).ok().unwrap();
    let mut rehearsal = Rehearsal {
        order: (0..COUNT).collect(),
        rng: frand::Rand::with_seed(12345),
    };
    let mut watch = watch(2);
    for _ in 0..2 {
        let made = rehearsal.generation(&m, &colors, &data, 900);
        assert!(made > 0);
        match drawing.run_generation(&colors, &data, &mut watch) {
            Ok(DrawingStep::Moved(event)) => {
                assert_eq!(event.drawing_id, 2);
                match event.msg {
                    ProgressMsg::UpdateAssignments(assignments) => {
                        assert_eq!(assignments, rehearsal.order)
                    }
                    _ => panic!("assignments were expected"),
                }
            }
            _ => panic!("the generation moved nothing"),
        }
        let mut sorted = drawing.assignments();
        sorted.sort();
        assert_eq!(sorted, (0..COUNT).collect::<Vec<_>>());
    }
}

#[test]
fn a_finished_drawing_idles() {
    let mut m = matrix();
    m.target = m.source.clone();
    let colors = m.source.clone();
    let mut drawing = Drawing::new(m, &colors, 0).ok().unwrap();
    let data = PixelData::init_canvas(0);
    let mut watch = watch(1);
    for expected in [2, 4, 8] {
        match drawing.run_generation(&colors, &data, &mut watch) {
            Ok(DrawingStep::Idle(wait)) => assert_eq!(wait, expected),
            _ => panic!("the generation was not idle"),
        }
    }
    assert_eq!(drawing.assignments(), (0..COUNT).collect::<Vec<_>>());
}

#[test]
fn a_drawing_ignores_the_resolution_of_its_settings() {
    let png = |side: u32, data: Vec<u8>| {
        let img = image::RgbImage::from_raw(side, side, data).unwrap();
        let mut bytes = Vec::new();
        img.write_to(
            &mut std::io::Cursor::new(&mut bytes),
            image::ImageFormat::Png,
        )
        .unwrap();
        bytes
    };
    let portrait = Portrait {
        target: png(2, vec![9; 12]),
        weights: png(2, vec![8; 12]),
    };
    let whole = |side: u32| CropWindow { x: 0, y: 0, side };
    let windows = CropWindows {
        source: whole(128),
        target: whole(2),
        weights: whole(2),
    };
    let source = UnprocessedPreset {
        name: "canvas".into(),
        width: 128,
        height: 128,
        source_img: noise(COUNT * 4, 6),
    };
    let settings = GenerationSettings::default(Uuid::nil(), "test".into());
    assert_eq!(settings.sidelen, 64);
    let m = prepare_drawing(&source, settings.clone(), &portrait, &windows)
        .ok()
        .unwrap();
    assert_eq!(m.sidelen, 128);
    assert_eq!(m.spatial_weight, 13);
    assert_eq!(m.source[1], {
        let p = &source.source_img[4..7];
        (p[0], p[1], p[2])
    });
    assert_eq!(m.target, vec![(9, 9, 9); COUNT]);
    assert_eq!(m.weights, vec![8; COUNT]);

    let mut larger = settings.clone();
    larger.sidelen = 200;
    let same = prepare_drawing(&source, larger, &portrait, &windows)
        .ok()
        .unwrap();
    assert_eq!((same.sidelen, same.spatial_weight), (128, 13));
    assert_eq!(same.source, m.source);
    assert_eq!(same.target, m.target);
    assert_eq!(same.weights, m.weights);

    let empty = UnprocessedPreset {
        width: 0,
        ..source
    };
    assert!(prepare_drawing(&empty, settings, &portrait, &windows).is_err());
}
