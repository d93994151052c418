use pathfinding::prelude::{kuhn_munkres, Weights};
use portraitify::assignment::{row_best, Matcher};
use portraitify::cost::{are_costs_comparable, heuristic, ImgDiffWeights};
use portraitify::errors::{ProcessError, MAX_OPTIMAL_SIDELEN};
use portraitify::genetic::{
    clamp_coordinate, pixel_assignments, process_genetic, search_quickly, starting_pixels,
    try_swap, Pixel,
};
use portraitify::images::CropWindow;
use portraitify::messages::{
    is_cancelled, Cancellation, Fraction, MessageLog, Outbox, ProgressMsg, ProgressSink, Watch,
};
use portraitify::natural::Natural;
use portraitify::optimal::{match_optimally, process_optimal};
use portraitify::prepare::importance_fits;
use portraitify::preset::{Preset, UnprocessedPreset};
use portraitify::preview::make_new_img;
use portraitify::process::{is_affordable, process};
use portraitify::schedule::{genetic_max_dist, DrawingReach, MAX_GENETIC_GENERATIONS};
use portraitify::settings::{
    normalized_proximity_importance, Algorithm, CropWindows, GenerationSettings, Portrait,
};
use std::sync::atomic::{AtomicBool, AtomicU32, Ordering};
use std::sync::Arc;
use uuid::Uuid;

fn png(width: u32, height: u32, data: Vec<u8>) -> Vec<u8> {
    let img = image::RgbImage::from_raw(width, height, data).unwrap();
    let mut bytes = Vec::new();
    img.write_to(
        &mut std::io::Cursor::new(&mut bytes),
        image::ImageFormat::Png,
    )
    .unwrap();
    bytes
}

fn whole(side: u32) -> CropWindow {
    CropWindow { x: 0, y: 0, side }
}

fn windows(source: u32, target: u32) -> CropWindows {
    CropWindows {
        source: whole(source),
        target: whole(target),
        weights: whole(target),
    }
}

fn noise(len: usize, mut state: u32) -> Vec<u8> {
    let mut bytes = Vec::new();
    for _ in 0..len {
        state = state.wrapping_mul(1664525).wrapping_add(1013904223);
        bytes.push((state >> 24) as u8);
    }
    bytes
}

fn portrait(side: u32) -> Portrait {
    let len = (side * side * 3) as usize;
    Portrait {
        target: png(side, side, noise(len, 7)),
        weights: png(side, side, noise(len, 11)),
    }
}

fn matrix(side: usize, seed: u32, spatial_weight: i64) -> ImgDiffWeights {
    let bytes = noise(side * side * 7, seed);
    let pixel = |k: usize| (bytes[3 * k], bytes[3 * k + 1], bytes[3 * k + 2]);
    let n = side * side;
    ImgDiffWeights {
        source: (0..n).map(pixel).collect(),
        target: (n..2 * n).map(pixel).collect(),
        weights: bytes[6 * n..].iter().map(|&w| w as i64).collect(),
        sidelen: side,
        spatial_weight,
        negated: false,
    }
}

fn total_cost(m: &ImgDiffWeights, assignments: &[usize]) -> i64 {
    assignments
        .iter()
        .enumerate()
        .map(|(row, &col)| -m.at(row, col))
        .sum()
}

fn is_permutation(assignments: &[usize]) -> bool {
    let mut sorted = assignments.to_vec();
    sorted.sort();
    sorted == (0..assignments.len()).collect::<Vec<_>>()
}

fn unset() -> Arc<AtomicBool> {
    Arc::new(AtomicBool::new(false))
}

fn one_pixel() -> UnprocessedPreset {
    UnprocessedPreset {
        name: "input".into(),
        width: 1,
        height: 1,
        source_img: vec![12, 34, 56],
    }
}

fn done(log: &MessageLog) -> &Preset {
    match log.messages.last() {
        Some(ProgressMsg::Done(preset)) => preset,
        _ => panic!("the job did not end with a preset"),
    }
}

fn ends_once(log: &MessageLog) -> bool {
    let on_the_way = |m: &ProgressMsg| matches!(m.typ(), "progress" | "update_preview");
    let (last, before) = log.messages.split_last().unwrap();
    before.iter().all(on_the_way) && matches!(last.typ(), "done" | "cancelled")
}

fn shares(log: &MessageLog) -> Vec<Fraction> {
    let mut shares = Vec::new();
    for message in &log.messages {
        if let ProgressMsg::Progress(share) = message {
            shares.push(*share);
        }
    }
    shares
}

fn never_falls(shares: &[Fraction]) -> bool {
    let value = |s: &Fraction| s.numerator as f64 / s.denominator as f64;
    shares.iter().all(|s| s.denominator > 0 && s.numerator <= s.denominator)
        && shares.windows(2).all(|pair| value(&pair[0]) <= value(&pair[1]))
}

struct Table<'a>(&'a ImgDiffWeights, bool);

impl Weights<i64> for Table<'_> {
    fn rows(&self) -> usize {
        self.0.rows()
    }

    fn columns(&self) -> usize {
        self.0.columns()
    }

    fn at(&self, row: usize, col: usize) -> i64 {
        if self.1 {
            -self.0.at(row, col)
        } else {
            self.0.at(row, col)
        }
    }

    fn neg(&self) -> Self {
        Table(self.0, !self.1)
    }
}

#[test]
fn generated_preview_ignores_invalid_assignment_indices() {
    let image = make_new_img(&[(1, 2, 3)], &[0, 99], 2);
    assert_eq!(&image[0..3], &[1, 2, 3]);
    assert_eq!(&image[3..6], &[0, 0, 0]);
    assert_eq!(image.len(), 12);
}

#[test]
fn genetic_distance_schedule_is_bounded_and_monotonic() {
    let mut previous = genetic_max_dist(256, 0);
    assert_eq!(previous, 256);
    for generation in 1..MAX_GENETIC_GENERATIONS {
        let current = genetic_max_dist(256, generation);
        assert!(current <= previous);
        assert!(current >= 2);
        previous = current;
    }
    assert_eq!(previous, 2);
}

#[test]
fn normalized_spatial_penalty_is_resolution_independent() {
    let low = heuristic(
        (0, 0),
        (8, 0),
        (0, 0, 0),
        (0, 0, 0),
        0,
        normalized_proximity_importance(10, 64),
    );
    let high = heuristic(
        (0, 0),
        (16, 0),
        (0, 0, 0),
        (0, 0, 0),
        0,
        normalized_proximity_importance(10, 128),
    );
    assert_eq!(low, high);
}

#[test]
fn optimal_rejects_impractical_resolution_before_allocating() {
    let mut settings = GenerationSettings::default(Uuid::nil(), "test".into());
    settings.sidelen = MAX_OPTIMAL_SIDELEN + 1;
    settings.algorithm = Algorithm::Optimal;
    let input = UnprocessedPreset {
        name: "input".into(),
        width: 1,
        height: 1,
        source_img: vec![0, 0, 0],
    };
    let mut tx = Outbox::new(MessageLog::new());
    let error = process_optimal(
        input,
        settings,
        &portrait(2),
        &windows(1, 2),
        &mut tx,
        unset(),
    )
    .unwrap_err();
    assert!(error.message().contains("High quality"));
    assert!(tx.into_sink().messages.is_empty());
}

#[test]
fn one_pixel_genetic_job_finishes_within_budget() {
    let mut settings = GenerationSettings::default(Uuid::nil(), "test".into());
    settings.sidelen = 1;
    let input = one_pixel();
    let mut tx = Outbox::new(MessageLog::new());
    process_genetic(
        input,
        settings,
        &portrait(2),
        &windows(1, 2),
        &mut tx,
        unset(),
    )
    .unwrap();
    assert!(tx
        .into_sink()
        .messages
        .iter()
        .any(|message| matches!(message, ProgressMsg::Done(_))));
}

#[test]
fn a_cost_weighs_colors_and_distances() {
    assert_eq!(
        heuristic((1, 2), (4, 6), (10, 20, 30), (13, 16, 42), 5, 2),
        (9 + 16 + 144) * 5 + (25 * 2) * (25 * 2)
    );
    assert_eq!(heuristic((0, 0), (1, 0), (0, 0, 0), (0, 0, 0), 9, -3), 9);
}

#[test]
fn the_matrix_holds_negated_costs() {
    let m = matrix(3, 1, 4);
    assert_eq!(m.rows(), 9);
    assert_eq!(m.columns(), 9);
    let expected = heuristic((2, 1), (1, 2), m.target[5], m.source[7], m.weights[5], 4);
    assert_eq!(m.at(5, 7), -expected);
    assert_eq!(m.neg().at(5, 7), expected);
    assert_eq!(m.neg().neg().at(5, 7), -expected);
}

#[test]
fn the_best_gain_of_a_row_is_its_largest_entry() {
    let m = matrix(3, 5, 2);
    for row in 0..9 {
        let best = (0..9).map(|col| m.at(row, col)).max().unwrap();
        assert_eq!(row_best(&m, row), best);
    }
}

#[test]
fn the_matcher_matches_row_by_row() {
    let m = matrix(2, 3, 1);
    let labels = (0..4).map(|row| row_best(&m, row)).collect();
    let mut matcher = Matcher::new(&m, labels);
    assert_eq!(matcher.columns_or_zero(), vec![0; 4]);
    for root in 0..4 {
        matcher.begin(&m, root);
        let mut end = None;
        while end.is_none() {
            end = matcher.grow(&m, root);
        }
        matcher.augment(&m, root, end.unwrap());
    }
    assert!(is_permutation(&matcher.columns_or_zero()));
}

#[test]
fn the_optimal_assignment_costs_as_little_as_any() {
    for (side, seed, spatial_weight) in [(1, 1, 3), (2, 2, 5), (3, 3, 0), (5, 4, 40), (8, 5, 2)] {
        let m = matrix(side, seed, spatial_weight);
        let mut tx = Outbox::new(MessageLog::new());
        let mut cancel = Cancellation::new(unset());
        let columns = match_optimally(&m, &mut tx, &mut cancel).unwrap();
        assert!(is_permutation(&columns));
        let (gain, _) = kuhn_munkres(&Table(&m, false));
        assert_eq!(total_cost(&m, &columns), -gain);
        assert!(never_falls(&shares(&tx.into_sink())));
    }
}

#[test]
fn an_optimal_job_tells_what_it_does() {
    let mut settings = GenerationSettings::default(Uuid::nil(), "test".into());
    settings.sidelen = 2;
    settings.algorithm = Algorithm::Optimal;
    settings.proximity_importance = 0;
    // The portrait wants the source pixels in reverse order.
    let source = vec![0, 0, 0, 80, 80, 80, 160, 160, 160, 240, 240, 240];
    let target = vec![240, 240, 240, 160, 160, 160, 80, 80, 80, 0, 0, 0];
    let shown = Portrait {
        target: png(2, 2, target.clone()),
        weights: png(2, 2, vec![255; 12]),
    };
    let input = UnprocessedPreset {
        name: "reverse".into(),
        width: 2,
        height: 2,
        source_img: source.clone(),
    };
    let mut tx = Outbox::new(MessageLog::new());
    process_optimal(input, settings, &shown, &windows(2, 2), &mut tx, unset()).unwrap();
    let log = tx.into_sink();
    let kinds: Vec<&str> = log.messages.iter().map(|m| m.typ()).collect();
    let mut expected = vec!["progress"; 5];
    for _ in 0..4 {
        expected.push("progress");
        expected.push("update_preview");
    }
    expected.push("done");
    assert_eq!(kinds, expected);
    assert!(ends_once(&log));
    let told = shares(&log);
    assert_eq!(told[0], Fraction { numerator: 1, denominator: 1000 });
    assert_eq!(told[1], Fraction { numerator: 103, denominator: 4000 });
    assert_eq!(told[4], Fraction { numerator: 400, denominator: 4000 });
    assert_eq!(told[5], Fraction { numerator: 1299, denominator: 4000 });
    assert_eq!(told[8], Fraction { numerator: 3996, denominator: 4000 });
    assert!(never_falls(&told));
    match &log.messages[12] {
        ProgressMsg::UpdatePreview { width, height, data } => {
            assert_eq!((*width, *height), (2, 2));
            assert_eq!(data, &target);
        }
        _ => panic!("a preview was expected"),
    }
    let preset = done(&log);
    assert_eq!(preset.inner.name, "reverse");
    assert_eq!((preset.inner.width, preset.inner.height), (2, 2));
    assert_eq!(preset.inner.source_img, source);
    assert_eq!(preset.assignments, vec![3, 2, 1, 0]);
}

#[test]
fn a_finished_preset_of_acceptable_size_is_valid() {
    let mut settings = GenerationSettings::default(Uuid::nil(), "test".into());
    settings.sidelen = 32;
    let input = UnprocessedPreset {
        name: "sound".into(),
        width: 32,
        height: 32,
        source_img: noise(32 * 32 * 3, 21),
    };
    let mut tx = Outbox::new(MessageLog::new());
    process_genetic(input, settings, &portrait(32), &windows(32, 32), &mut tx, unset()).unwrap();
    let log = tx.into_sink();
    assert!(done(&log).validate().is_ok());
    assert!(never_falls(&shares(&log)));
    assert!(ends_once(&log));
}

#[test]
fn jobs_refuse_what_they_cannot_prepare() {
    let settings = |sidelen: u32| {
        let mut settings = GenerationSettings::default(Uuid::nil(), "test".into());
        settings.sidelen = sidelen;
        settings
    };
    let run = |input: UnprocessedPreset,
               settings: GenerationSettings,
               portrait: &Portrait,
               windows: &CropWindows| {
        let mut tx = Outbox::new(MessageLog::new());
        let result = process(input, settings, portrait, windows, &mut tx, unset());
        let told = tx.into_sink().messages.len();
        (result.map_err(|error| error.message()), told)
    };
    let good = portrait(2);
    let fit = windows(1, 2);

    let (result, told) = run(one_pixel(), settings(0), &good, &fit);
    assert_eq!(
        result.unwrap_err(),
        "resolution must be between 1 and 256, got 0"
    );
    assert_eq!(told, 0);
    let (result, _) = run(one_pixel(), settings(257), &good, &fit);
    assert_eq!(
        result.unwrap_err(),
        "resolution must be between 1 and 256, got 257"
    );

    let mut high = settings(33);
    high.algorithm = Algorithm::Optimal;
    let (result, told) = run(one_pixel(), high, &good, &fit);
    assert_eq!(
        result.unwrap_err(),
        "High quality supports resolutions up to 32px; choose Fast for 33px"
    );
    assert_eq!(told, 0);

    let mut flat = one_pixel();
    flat.height = 0;
    let (result, told) = run(flat, settings(1), &good, &fit);
    assert_eq!(result.unwrap_err(), "image dimensions must be non-zero");
    assert_eq!(told, 1);

    let mut short = one_pixel();
    short.source_img.pop();
    let (result, _) = run(short, settings(1), &good, &fit);
    assert_eq!(
        result.unwrap_err(),
        "invalid image byte length: expected 3 RGB or 4 RGBA bytes, got 2"
    );

    let broken = Portrait {
        target: good.target.clone(),
        weights: vec![1, 2, 3],
    };
    let (result, told) = run(one_pixel(), settings(1), &broken, &fit);
    assert!(result.is_err());
    assert_eq!(told, 1);

    let (result, _) = run(one_pixel(), settings(1), &good, &windows(2, 2));
    assert!(result.is_err());
    let (result, _) = run(one_pixel(), settings(1), &good, &windows(1, 3));
    assert!(result.is_err());
}

#[test]
fn jobs_stop_when_they_are_told_to() {
    for algorithm in [Algorithm::Optimal, Algorithm::Genetic] {
        let mut settings = GenerationSettings::default(Uuid::nil(), "test".into());
        settings.sidelen = 2;
        settings.algorithm = algorithm;
        let mut tx = Outbox::new(MessageLog::new());
        let set = Arc::new(AtomicBool::new(true));
        let result = process(
            one_pixel(),
            settings,
            &portrait(2),
            &windows(1, 2),
            &mut tx,
            set,
        );
        assert!(result.is_ok());
        let log = tx.into_sink();
        let kinds: Vec<&str> = log.messages.iter().map(|m| m.typ()).collect();
        assert_eq!(kinds, vec!["progress", "cancelled"]);
        assert!(ends_once(&log));
    }
}

#[test]
fn a_flag_is_read_each_time() {
    let flag = unset();
    assert!(!is_cancelled(&flag));
    let mut cancel = Cancellation::new(flag.clone());
    assert!(!cancel.poll());
    flag.store(true, Ordering::Relaxed);
    assert!(is_cancelled(&flag));
    assert!(cancel.poll());

    let current = Arc::new(AtomicU32::new(4));
    let mut watch = Watch::new(4, current.clone());
    assert_eq!(watch.drawing_id(), 4);
    assert!(!watch.poll());
    assert!(!watch.is_superseded_by(4));
    assert!(watch.is_superseded_by(5));
    current.store(5, Ordering::Relaxed);
    assert!(watch.poll());
}

#[test]
fn messages_have_names() {
    let preset = Preset {
        inner: one_pixel(),
        assignments: vec![0],
    };
    let share = Fraction { numerator: 1, denominator: 2 };
    let named = [
        (ProgressMsg::Progress(share), "progress"),
        (
            ProgressMsg::UpdatePreview { width: 1, height: 1, data: vec![0, 0, 0] },
            "update_preview",
        ),
        (ProgressMsg::UpdateAssignments(vec![0]), "update_assignments"),
        (ProgressMsg::Done(preset), "done"),
        (ProgressMsg::Error("no".into()), "error"),
        (ProgressMsg::Cancelled, "cancelled"),
    ];
    let mut log = MessageLog::new();
    for (message, name) in named {
        assert_eq!(message.typ(), name);
        log.send(message);
    }
    assert_eq!(log.messages.len(), 6);
}

fn float_max_dist(sidelen: u32, generation: usize) -> u32 {
    let minimum = sidelen.clamp(1, 2) as f32;
    if generation + 1 >= 96 {
        return minimum as u32;
    }
    let t = generation as f32 / 95.0;
    (sidelen as f32 * (minimum / sidelen as f32).powf(t))
        .round()
        .clamp(minimum, sidelen as f32) as u32
}

#[test]
fn the_schedule_rounds_to_the_nearest_distance() {
    assert_eq!(genetic_max_dist(1, 0), 1);
    assert_eq!(genetic_max_dist(1, 95), 1);
    assert_eq!(genetic_max_dist(64, 0), 64);
    assert_eq!(genetic_max_dist(64, 19), 32);
    assert_eq!(genetic_max_dist(64, 38), 16);
    assert_eq!(genetic_max_dist(64, 1000), 2);
    for sidelen in [1, 2, 3, 17, 64, 100, 128, 255, 256] {
        for generation in 0..100 {
            assert_eq!(
                genetic_max_dist(sidelen, generation),
                float_max_dist(sidelen, generation)
            );
        }
    }
}

#[test]
fn strokes_settle_as_they_age() {
    let reach = DrawingReach::new();
    assert_eq!(reach.max_dist(0), 32);
    assert_eq!(reach.max_dist(29), 32);
    assert_eq!(reach.max_dist(u32::MAX), 1);
    let mut previous = 32;
    for age in 0..12000u32 {
        let expected = ((32f32 * 0.99f32.powi(age as i32 / 30)).round() as u32).max(1);
        let current = reach.max_dist(age);
        assert_eq!(current, expected);
        assert!(current <= previous);
        previous = current;
    }
    assert_eq!(previous, 1);
}

#[test]
fn natural_numbers_grow_past_every_word() {
    let mut number = Natural::power(10, 30);
    let other = number.clone();
    assert!(!number.less(&other));
    number.scale(3);
    assert!(other.less(&number));
    assert!(!number.less(&other));
    let mut tripled = Natural::new(3);
    tripled.scale_times(10, 30);
    assert!(!tripled.less(&number));
    assert!(!number.less(&tripled));
    number.scale(0);
    assert!(number.less(&Natural::new(1)));
}

fn swap_search(m: &ImgDiffWeights) -> (Vec<usize>, usize) {
    let side = m.sidelen;
    let n = side * side;
    let mut order: Vec<usize> = (0..n).collect();
    let mut rng = frand::Rand::with_seed(12345);
    let swaps = (32 * n).clamp(1, 262144);
    for generation in 0..96 {
        let reach = float_max_dist(side as u32, generation) as i16;
        let mut made = 0;
        for _ in 0..swaps {
            let a = rng.gen_range(0..n as u32) as usize;
            let dx = rng.gen_range(-reach..reach + 1);
            let dy = rng.gen_range(-reach..reach + 1);
            let x = ((a % side) as i16 + dx).clamp(0, side as i16 - 1) as usize;
            let y = ((a / side) as i16 + dy).clamp(0, side as i16 - 1) as usize;
            let b = y * side + x;
            let now = -m.at(a, order[a]) - m.at(b, order[b]);
            let then = -m.at(a, order[b]) - m.at(b, order[a]);
            if then < now {
                order.swap(a, b);
                made += 1;
            }
        }
        if (reach < 4 && made < 10) || generation == 95 {
            return (order, generation);
        }
    }
    unreachable!()
}

#[test]
fn the_quick_search_swaps_what_saves_most() {
    for (side, seed, spatial_weight) in [(1, 1, 3), (2, 2, 5), (5, 3, 0), (12, 4, 40)] {
        let m = matrix(side, seed, spatial_weight);
        let mut tx = Outbox::new(MessageLog::new());
        let mut cancel = Cancellation::new(unset());
        let order = search_quickly(&m, &mut tx, &mut cancel).unwrap();
        let (expected, generation) = swap_search(&m);
        assert_eq!(order, expected);
        assert!(is_permutation(&order));
        let unmoved: Vec<usize> = (0..side * side).collect();
        assert!(total_cost(&m, &order) <= total_cost(&m, &unmoved));
        let told = shares(&tx.into_sink());
        assert!(never_falls(&told));
        assert_eq!(told.len(), 2 * generation + 1);
    }
}

#[test]
fn a_swap_lowers_the_total_cost() {
    let m = matrix(6, 9, 3);
    let mut pixels = starting_pixels(&m);
    let mut rng = frand::Rand::with_seed(3);
    let mut before = total_cost(&m, &pixel_assignments(&pixels, 6));
    let mut made = 0;
    for _ in 0..500 {
        let swapped = try_swap(&m, &mut pixels, &mut rng, 6);
        let order = pixel_assignments(&pixels, 6);
        let after = total_cost(&m, &order);
        assert_eq!(swapped, after < before);
        assert!(after <= before);
        assert!(is_permutation(&order));
        if swapped {
            made += 1;
        }
        before = after;
    }
    assert!(made > 0);
}

#[test]
fn pixels_know_where_they_come_from() {
    let mut pixel = Pixel::new(3, 1, (9, 8, 7), 0);
    let h = pixel.calc_heuristic((3, 2), (9, 8, 6), 10, 2);
    assert_eq!(h, 10 + 4);
    pixel.update_heuristic(h);
    assert_eq!(pixel.h, 14);
    assert_eq!(pixel_assignments(&[pixel], 5), vec![8]);
    assert_eq!(clamp_coordinate(-3, 4), 0);
    assert_eq!(clamp_coordinate(2, 4), 2);
    assert_eq!(clamp_coordinate(9, 4), 3);
}

#[test]
fn importance_is_bounded_by_what_can_be_added() {
    assert!(importance_fits(13, 128));
    assert!(importance_fits(i64::MAX, 1));
    assert!(!importance_fits(i64::MAX, 2));
    assert!(importance_fits(66000, 128));
    assert!(!importance_fits(67000, 128));
}

#[test]
fn costs_have_to_fit_only_where_they_are_computed() {
    let asked = |side: u32, importance: i64, algorithm: Algorithm| {
        let mut settings = GenerationSettings::default(Uuid::nil(), "test".into());
        settings.sidelen = side;
        settings.proximity_importance = importance;
        settings.algorithm = algorithm;
        settings
    };
    let fits = |settings: &GenerationSettings, windows: &CropWindows| {
        is_affordable(&one_pixel(), settings, &portrait(2), windows)
    };
    let inside = windows(1, 2);
    assert!(fits(&asked(64, 13, Algorithm::Genetic), &inside));
    assert!(!fits(&asked(64, 1_000_000, Algorithm::Genetic), &inside));
    assert!(fits(&asked(64, 1_000_000, Algorithm::Optimal), &inside));
    assert!(!fits(&asked(32, 1_000_000, Algorithm::Optimal), &inside));
    assert!(fits(&asked(300, 1_000_000, Algorithm::Genetic), &inside));
    assert!(fits(&asked(64, 1_000_000, Algorithm::Genetic), &windows(2, 2)));
    let mut custom = asked(64, 1_000_000, Algorithm::Genetic);
    custom.custom_target = Some((1, 1, vec![1, 2, 3]));
    assert!(fits(&custom, &inside));
    assert!(!fits(&custom, &windows(1, 1)));
    custom.custom_target = Some((1, 1, vec![1]));
    assert!(!fits(&custom, &inside));

    let mut tx = Outbox::new(MessageLog::new());
    let error = process(
        one_pixel(),
        asked(64, 1_000_000, Algorithm::Optimal),
        &portrait(2),
        &inside,
        &mut tx,
        unset(),
    )
    .unwrap_err();
    assert!(error.message().contains("High quality"));
    assert!(tx.into_sink().messages.is_empty());
}

#[test]
fn exact_jobs_repeat() {
    let log = |input: Vec<u8>, custom: Vec<u8>, name: &str| {
        let mut settings = GenerationSettings::default(Uuid::nil(), name.into());
        settings.sidelen = 5;
        settings.algorithm = Algorithm::Optimal;
        settings.custom_target = Some((5, 5, custom));
        let input = UnprocessedPreset {
            name: "again".into(),
            width: 5,
            height: 5,
            source_img: input,
        };
        let mut tx = Outbox::new(MessageLog::new());
        let none = Portrait {
            target: Vec::new(),
            weights: Vec::new(),
        };
        process(input, settings, &none, &windows(5, 5), &mut tx, unset()).unwrap();
        tx.into_sink()
    };
    // With one color, every assignment costs the same in colors.
    for (input, custom) in [
        (noise(75, 3), noise(75, 4)),
        (vec![7; 75], vec![9; 75]),
        (noise(75, 5), vec![9; 75]),
    ] {
        let one = log(input.clone(), custom.clone(), "one");
        let other = log(input, custom, "other");
        assert_eq!(one.messages.len(), other.messages.len());
        assert_eq!(shares(&one), shares(&other));
        assert_eq!(previews(&one), previews(&other));
        assert_eq!(done(&one).assignments, done(&other).assignments);
        assert!(is_permutation(&done(&one).assignments));
    }
}

#[test]
fn the_exact_matching_takes_the_first_of_equal_columns() {
    let mut m = matrix(2, 1, 0);
    m.source = vec![(5, 5, 5); 4];
    m.target = vec![(5, 5, 5); 4];
    let mut tx = Outbox::new(MessageLog::new());
    let mut cancel = Cancellation::new(unset());
    let columns = match_optimally(&m, &mut tx, &mut cancel).unwrap();
    // All margins are equal, so that each row takes the first free column.
    assert_eq!(columns, vec![0, 1, 2, 3]);
}

#[test]
fn draws_follow_from_the_seed() {
    let folded = |a: u64| a ^ (a >> 32);
    let mixed = |a: u64| folded(a).wrapping_mul(4997996261773036203);
    for seed in [0, 1, 12345, u64::MAX] {
        let mut state = folded(mixed(mixed(seed)));
        let mut rng = frand::Rand::with_seed(seed);
        for k in 1..200u32 {
            state = state.wrapping_add(12964901029718341801);
            let bits = state.wrapping_mul(18162115696561729952 ^ state) >> 32;
            assert_eq!(rng.gen_range(k..3 * k), k + (bits % (2 * k as u64)) as u32);
            state = state.wrapping_add(12964901029718341801);
            let bits = folded(state.wrapping_mul(149988720821803190 ^ state));
            assert_eq!(rng.gen_range(7..7 + k as u64), 7 + bits % k as u64);
            state = state.wrapping_add(12964901029718341801);
            let bits = state.wrapping_mul(18162115696561729952 ^ state) >> 32;
            let far = k as i16;
            let step = (bits % 65536 % (2 * k as u64 + 1)) as i16;
            assert_eq!(rng.gen_range(-far..far + 1), step - far);
        }
    }
}

#[test]
fn matrices_are_well_formed_or_not() {
    assert!(matrix(4, 1, 3).is_well_formed());
    assert!(matrix(1, 1, i64::MAX).is_well_formed());
    assert!(matrix(1, 1, i64::MIN).is_well_formed());
    assert!(!matrix(2, 1, i64::MAX).is_well_formed());
    assert!(!matrix(2, 1, i64::MIN).is_well_formed());
    assert!(matrix(2, 1, -1000).is_well_formed());
    assert!(are_costs_comparable(128, 66000));
    assert!(!are_costs_comparable(128, 67000));
    assert!(!are_costs_comparable(128, -67000));
    let broken = |change: &dyn Fn(&mut ImgDiffWeights)| {
        let mut m = matrix(4, 1, 3);
        change(&mut m);
        !m.is_well_formed()
    };
    assert!(broken(&|m| m.sidelen = 3));
    assert!(broken(&|m| m.sidelen = 0));
    assert!(broken(&|m| m.sidelen = 257));
    assert!(broken(&|m| m.source.truncate(15)));
    assert!(broken(&|m| m.target.push((0, 0, 0))));
    assert!(broken(&|m| m.weights.truncate(15)));
    assert!(broken(&|m| m.weights[15] = 256));
    assert!(broken(&|m| m.weights[0] = -1));
}

fn genetic_log(input: Vec<u8>, side: u32) -> MessageLog {
    let mut settings = GenerationSettings::default(Uuid::nil(), "test".into());
    settings.sidelen = side;
    let input = UnprocessedPreset {
        name: "again".into(),
        width: side,
        height: side,
        source_img: input,
    };
    let mut tx = Outbox::new(MessageLog::new());
    let windows = windows(side, side);
    process_genetic(input, settings, &portrait(side), &windows, &mut tx, unset()).unwrap();
    tx.into_sink()
}

fn previews(log: &MessageLog) -> Vec<Vec<u8>> {
    let pictures = log.messages.iter().filter_map(|m| match m {
        ProgressMsg::UpdatePreview { data, .. } => Some(data.clone()),
        _ => None,
    });
    pictures.collect()
}

#[test]
fn previews_show_every_pixel() {
    let input = noise(12 * 12 * 3, 31);
    let sorted = |data: &[u8]| {
        let mut pixels: Vec<Vec<u8>> = data.chunks_exact(3).map(|p| p.to_vec()).collect();
        pixels.sort();
        pixels
    };
    let shown = previews(&genetic_log(input.clone(), 12));
    assert!(!shown.is_empty());
    for picture in shown {
        assert_eq!(sorted(&picture), sorted(&input));
    }
}

#[test]
fn equal_pictures_stay_as_they_are() {
    let input = noise(12 * 12 * 3, 7);
    let log = genetic_log(input.clone(), 12);
    assert_eq!(done(&log).assignments, (0..144).collect::<Vec<_>>());
    for picture in previews(&log) {
        assert_eq!(picture, input);
    }
}

#[test]
fn quick_jobs_repeat() {
    let input = noise(12 * 12 * 3, 33);
    let (one, other) = (genetic_log(input.clone(), 12), genetic_log(input, 12));
    assert_eq!(one.messages.len(), other.messages.len());
    assert_eq!(shares(&one), shares(&other));
    assert_eq!(previews(&one), previews(&other));
    assert_eq!(done(&one).assignments, done(&other).assignments);
    assert_eq!(done(&one).inner.name, done(&other).inner.name);
}

#[test]
fn more_importance_moves_pixels_no_further() {
    let distance = |spatial_weight: i64| {
        let m = matrix(6, 14, spatial_weight);
        let mut tx = Outbox::new(MessageLog::new());
        let mut cancel = Cancellation::new(unset());
        let order = match_optimally(&m, &mut tx, &mut cancel).unwrap();
        let squared = |row: usize, col: usize| {
            let (x, y) = ((row % 6).abs_diff(col % 6), (row / 6).abs_diff(col / 6));
            ((x * x + y * y) * (x * x + y * y)) as i64
        };
        let moved = order.iter().enumerate().map(|(row, &col)| squared(row, col));
        moved.sum::<i64>()
    };
    let moved: Vec<i64> = [0, 1, 10, 100, 1000, 10000].map(distance).to_vec();
    assert!(moved.windows(2).all(|pair| pair[0] >= pair[1]));
    assert!(moved[0] > 0);
    assert_eq!(moved[5], 0);
}

#[test]
fn errors_are_told_in_words() {
    assert_eq!(
        ProcessError::DimensionsTooLarge.message(),
        "image dimensions are too large"
    );
    assert_eq!(ProcessError::RgbTooLarge.message(), "RGB image is too large");
    assert_eq!(ProcessError::RgbaTooLarge.message(), "RGBA image is too large");
}
