use recolor::midi::pitch::{key_to_name, name_to_key};

#[test]
fn test_key_to_name() {
    assert_eq!(key_to_name(60), "C4");
    assert_eq!(key_to_name(69), "A4");
    assert_eq!(key_to_name(0), "C-1");
    assert_eq!(key_to_name(127), "G9");
}

#[test]
fn test_name_to_key() {
    assert_eq!(name_to_key("C4"), Some(60));
    assert_eq!(name_to_key("A4"), Some(69));
    assert_eq!(name_to_key("C-1"), Some(0));
    assert_eq!(name_to_key("G9"), Some(127));
    assert_eq!(name_to_key("C#4"), Some(61));
    assert_eq!(name_to_key("Db4"), Some(61));
}

#[test]
fn key_names_of_every_pitch_class() {
    let names = ["C4", "C#4", "D4", "D#4", "E4", "F4", "F#4", "G4", "G#4", "A4", "A#4", "B4"];
    for (i, n) in names.iter().enumerate() {
        assert_eq!(key_to_name(60 + i as u8), *n);
    }
    assert_eq!(key_to_name(11), "B-1");
    assert_eq!(key_to_name(12), "C0");
    assert_eq!(key_to_name(255), "D#20");
}

#[test]
fn names_round_trip_over_the_midi_range() {
    for key in 0u8..=127 {
        assert_eq!(name_to_key(&key_to_name(key)), Some(key));
    }
}

#[test]
fn round_trip_fails_above_the_midi_range() {
    assert_eq!(key_to_name(128), "G#9");
    assert_eq!(name_to_key("G#9"), Some(0));
}

#[test]
fn names_with_flats_and_whitespace() {
    assert_eq!(name_to_key("  Eb3\t"), Some(51));
    assert_eq!(name_to_key("Bb-1"), Some(10));
    assert_eq!(name_to_key("Gb5"), Some(78));
    assert_eq!(name_to_key("Ab0"), Some(20));
    assert_eq!(name_to_key("A#2"), Some(46));
}

#[test]
fn octave_as_i8_parses_it() {
    assert_eq!(name_to_key("C+4"), Some(60));
    assert_eq!(name_to_key("C04"), Some(60));
    assert_eq!(name_to_key("C-01"), Some(0));
    assert_eq!(name_to_key("C-0"), Some(12));
}

#[test]
fn names_that_denote_no_key() {
    assert_eq!(name_to_key(""), None);
    assert_eq!(name_to_key("C"), None);
    assert_eq!(name_to_key("   C  "), None);
    assert_eq!(name_to_key("#4"), None);
    assert_eq!(name_to_key("b4"), None);
    assert_eq!(name_to_key("c4"), None);
    assert_eq!(name_to_key("H4"), None);
    assert_eq!(name_to_key("B#4"), None);
    assert_eq!(name_to_key("Cb4"), None);
    assert_eq!(name_to_key("E#4"), None);
    assert_eq!(name_to_key("C10"), None);
    assert_eq!(name_to_key("C-2"), None);
    assert_eq!(name_to_key("C#"), None);
    assert_eq!(name_to_key("C4x"), None);
    assert_eq!(name_to_key("C+-4"), None);
    assert_eq!(name_to_key("C-"), None);
    assert_eq!(name_to_key("C999"), None);
}

#[test]
fn octave_nine_wraps_above_g() {
    assert_eq!(name_to_key("B9"), Some(3));
}
