use portraitify::naming::{name_of_copy, parse_u32};
use portraitify::preset::{
    Preset, UnprocessedPreset, MAX_PRESET_NAME_CHARS, MAX_PRESET_SIDE, MIN_PRESET_SIDE,
};
use portraitify::storage::presets_for_storage;
use portraitify::text::{decimal_text, trimmed_len};

fn valid_preset() -> Preset {
    let side = MIN_PRESET_SIDE;
    let pixels = (side * side) as usize;
    Preset {
        inner: UnprocessedPreset {
            name: "test".to_owned(),
            width: side,
            height: side,
            source_img: vec![0; pixels * 3],
        },
        assignments: (0..pixels).collect(),
    }
}

fn sized_preset(name: &str, side: u32) -> Preset {
    let pixels = (side * side) as usize;
    Preset {
        inner: UnprocessedPreset {
            name: name.to_owned(),
            width: side,
            height: side,
            source_img: vec![200; pixels * 3],
        },
        assignments: (0..pixels).rev().collect(),
    }
}

fn names(presets: &[Preset]) -> Vec<&str> {
    presets.iter().map(|p| p.inner.name.as_str()).collect()
}

#[test]
fn validates_well_formed_preset() {
    assert!(valid_preset().validate().is_ok());
}

#[test]
fn rejects_duplicate_assignment() {
    let mut preset = valid_preset();
    preset.assignments[1] = 0;
    assert!(preset.validate().is_err());
}

#[test]
fn rejects_wrong_rgb_length() {
    let mut preset = valid_preset();
    preset.inner.source_img.pop();
    assert!(preset.validate().is_err());
}

#[test]
fn faults_are_told_in_words() {
    let fault = |change: fn(&mut Preset)| {
        let mut preset = valid_preset();
        change(&mut preset);
        preset.validate().unwrap_err()
    };
    assert_eq!(fault(|p| p.inner.name = " \t\u{3000}".into()), "preset name is empty");
    assert_eq!(
        fault(|p| p.inner.name = "é".repeat(MAX_PRESET_NAME_CHARS + 1)),
        "preset name is longer than 64 characters"
    );
    assert_eq!(fault(|p| p.inner.width = 0), "preset dimensions cannot be zero");
    assert_eq!(
        fault(|p| p.inner.height = MAX_PRESET_SIDE + 1),
        "preset dimensions cannot exceed 512 pixels"
    );
    assert_eq!(
        fault(|p| {
            p.inner.source_img.pop();
        }),
        "preset RGB data has 3071 bytes; expected 3072"
    );
    assert_eq!(
        fault(|p| {
            p.inner.width = 64;
            p.inner.height = 16;
        }),
        "processed preset image must be square"
    );
    assert_eq!(
        fault(|p| {
            p.inner.width = 31;
            p.inner.height = 31;
            p.inner.source_img.truncate(31 * 31 * 3);
        }),
        "processed preset side cannot be below 32 pixels"
    );
    assert_eq!(
        fault(|p| {
            p.assignments.pop();
        }),
        "preset has 1023 assignments; expected 1024"
    );
    assert_eq!(
        fault(|p| p.assignments[5] = 1024),
        "preset assignment 1024 is outside 0..1024"
    );
    assert_eq!(
        fault(|p| p.assignments[5] = 2),
        "preset assignment 2 occurs more than once"
    );
}

#[test]
fn white_space_around_a_name_does_not_count() {
    let mut preset = valid_preset();
    preset.inner.name = format!("  {} \n", "n".repeat(MAX_PRESET_NAME_CHARS));
    assert!(preset.validate().is_ok());
    assert!(preset.inner.validate().is_ok());
    assert_eq!(trimmed_len(" a b "), 3);
    assert_eq!(trimmed_len("\u{2003}"), 0);
}

#[test]
fn an_estimate_counts_digits_and_separators() {
    let preset = Preset {
        inner: UnprocessedPreset {
            name: "é".to_owned(),
            width: 1,
            height: 1,
            source_img: vec![0, 10, 255],
        },
        assignments: vec![7, 12345],
    };
    assert_eq!(preset.estimated_storage_bytes(), (2 + 3 + 4) + (2 + 6) + 2 + 256);
}

#[test]
fn storage_keeps_what_fits_and_is_sound() {
    let (stored, omitted) = presets_for_storage(&[]);
    assert!(stored.is_empty());
    assert_eq!(omitted, 0);

    let mut broken = sized_preset("broken", 32);
    broken.assignments[0] = 0;
    let presets = [sized_preset("a", 32), broken, sized_preset("c", 32)];
    let (stored, omitted) = presets_for_storage(&presets);
    assert_eq!(names(&stored), vec!["a", "c"]);
    assert_eq!(omitted, 1);
    let (again, omitted) = presets_for_storage(&stored);
    assert_eq!(names(&again), vec!["a", "c"]);
    assert_eq!(omitted, 0);
}

#[test]
fn storage_prefers_the_first_and_the_newest() {
    // Each takes more than 600,000 of the 2,097,152 bytes.
    let presets = [
        sized_preset("first", 192),
        sized_preset("old", 192),
        sized_preset("newer", 192),
        sized_preset("newest", 192),
    ];
    let size = presets[0].estimated_storage_bytes();
    assert!(600_000 < size && size < 699_000);
    let (stored, omitted) = presets_for_storage(&presets);
    assert_eq!(names(&stored), vec!["first", "newer", "newest"]);
    assert_eq!(omitted, 1);

    // A first preset that does not fit is left out, and the rest goes on.
    let presets = [sized_preset("huge", 400), sized_preset("small", 32)];
    assert!(presets[0].estimated_storage_bytes() > 2 * 1024 * 1024);
    let (stored, omitted) = presets_for_storage(&presets);
    assert_eq!(names(&stored), vec!["small"]);
    assert_eq!(omitted, 1);
}

#[test]
fn copies_count_up() {
    assert_eq!(name_of_copy("cat"), "cat v2");
    assert_eq!(name_of_copy("cat v2"), "cat v3");
    assert_eq!(name_of_copy("cat v9"), "cat v10");
    assert_eq!(name_of_copy("cat v1 v7"), "cat v1 v8");
    assert_eq!(name_of_copy("cat vx"), "cat vx v2");
    assert_eq!(name_of_copy("cat v"), "cat v v2");
    assert_eq!(name_of_copy("cat v+4"), "cat v5");
    assert_eq!(name_of_copy("cat v007"), "cat v8");
    assert_eq!(name_of_copy("cat v-1"), "cat v-1 v2");
    assert_eq!(name_of_copy("cat v4294967296"), "cat v4294967296 v2");
    assert_eq!(name_of_copy(""), " v2");
    assert_eq!(name_of_copy("é v2"), "é v3");
}

#[test]
fn numbers_are_read_as_the_standard_library_reads_them() {
    for words in ["0", "12", "+5", "", "+", "-3", "4294967295", "4294967296", "1a", "٣"] {
        let chars: Vec<char> = words.chars().collect();
        assert_eq!(parse_u32(&chars, 0), words.parse::<u32>().ok());
    }
    let chars: Vec<char> = "v12".chars().collect();
    assert_eq!(parse_u32(&chars, 1), Some(12));
    assert_eq!(decimal_text(0), "0");
    assert_eq!(decimal_text(90210), "90210");
}

#[test]
fn white_space_is_what_unicode_calls_so() {
    let mut white = vec![0x20, 0x85, 0xa0, 0x1680, 0x2028, 0x2029, 0x202f, 0x205f, 0x3000];
    white.extend(0x9..=0xd);
    white.extend(0x2000..=0x200a);
    assert_eq!(white.len(), 25);
    for c in (0..=0x10ffffu32).filter_map(char::from_u32) {
        let len = if white.contains(&(c as u32)) { 1 } else { 3 };
        assert_eq!(trimmed_len(&format!("{c}x{c}")), len);
    }
}
