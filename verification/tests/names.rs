use band_diff::names::{is_band_file, is_listed, BAND_FILE_PATTERN};

#[test]
fn band_files_have_two_characters_between_stem_and_extension() {
    assert!(is_band_file("hyperdrive_band01.bin"));
    assert!(is_band_file("hyperdrive_band24.bin"));
    assert!(is_band_file("hyperdrive_bandxx.bin"));
    assert!(is_band_file("hyperdrive_band.-.bin"));
}

#[test]
fn band_files_may_have_any_two_characters() {
    assert!(is_band_file("hyperdrive_band\u{e9}\u{4e2d}.bin"));
}

#[test]
fn other_names_are_not_band_files() {
    assert!(!is_band_file(""));
    assert!(!is_band_file("hyperdrive_band1.bin"));
    assert!(!is_band_file("hyperdrive_band001.bin"));
    assert!(!is_band_file("hyperdrive_band01.dat"));
    assert!(!is_band_file("hyperdrive_band01_bin"));
    assert!(!is_band_file("Hyperdrive_band01.bin"));
    assert!(!is_band_file("hyperdrive-band01.bin"));
    assert!(!is_band_file("hyperdrive_banD01.bin"));
    assert!(!is_band_file("xhyperdrive_band01.bi"));
    assert!(!is_band_file("hyperdrive_band01.bin "));
    assert!(!is_band_file("baseline/hyperdrive_band01.bin"));
}

#[test]
fn the_pattern_has_the_shape_of_a_band_file_name() {
    assert_eq!(BAND_FILE_PATTERN, "hyperdrive_band??.bin");
    assert!(is_band_file(BAND_FILE_PATTERN));
}

#[test]
fn is_listed_finds_names_that_are_equal() {
    let listing = vec![
        "hyperdrive_band01.bin".to_string(),
        "hyperdrive_band02.bin".to_string(),
    ];
    assert!(is_listed(&listing, &"hyperdrive_band01.bin".to_string()));
    assert!(is_listed(&listing, &"hyperdrive_band02.bin".to_string()));
    assert!(!is_listed(&listing, &"hyperdrive_band03.bin".to_string()));
    assert!(!is_listed(&listing, &"hyperdrive_band0".to_string()));
    assert!(!is_listed(&Vec::new(), &"hyperdrive_band01.bin".to_string()));
}
