use recolor::arranger::timeline::PlacedClip;
use recolor::midi::parser::MidiParseError;
use recolor::project::Project;
use recolor::sample::model::SampleClip;

fn one_note_file() -> Vec<u8> {
    let mut b = Vec::new();
    b.extend_from_slice(b"MThd");
    b.extend_from_slice(&[0, 0, 0, 6, 0, 0, 0, 1, 0x00, 0x60]);
    let t: Vec<u8> = vec![
        0x00, 0xFF, 0x51, 0x03, 0x0F, 0x42, 0x40, // tempo 1000000 (60 BPM)
        0x00, 0x90, 0x45, 0x50,
        0x60, 0x80, 0x45, 0x00,
        0x00, 0xFF, 0x2F, 0x00,
    ];
    b.extend_from_slice(b"MTrk");
    b.extend_from_slice(&(t.len() as u32).to_be_bytes());
    b.extend_from_slice(&t);
    b
}

fn no_note_file() -> Vec<u8> {
    let mut b = Vec::new();
    b.extend_from_slice(b"MThd");
    b.extend_from_slice(&[0, 0, 0, 6, 0, 0, 0, 1, 0x00, 0x60]);
    let t: Vec<u8> = vec![0x00, 0xFF, 0x2F, 0x00];
    b.extend_from_slice(b"MTrk");
    b.extend_from_slice(&(t.len() as u32).to_be_bytes());
    b.extend_from_slice(&t);
    b
}

#[test]
fn a_new_project_is_empty() {
    let p = Project::new();
    assert_eq!(p.name, "未命名项目");
    assert_eq!(p.tempo, 500000);
    assert!(!p.is_loaded());
    assert!(p.notes().is_empty());
    assert!(p.samples().is_empty());
    assert_eq!(p.total_duration(), 0);
    assert_eq!(p.note_count(), 0);
    assert_eq!(p.track_count(), 0);
}

#[test]
fn loading_midi_takes_its_notes_and_tempo_and_clears_the_arrangement() {
    let mut p = Project::new();
    p.arrangement.place_clip(0, PlacedClip { sample_id: 0, note_index: 0, start_time: 0, pitch_shift: 0 });
    p.load_midi("one.mid".to_string(), &one_note_file()).unwrap();
    assert!(p.is_loaded());
    assert_eq!(p.tempo, 1_000_000);
    assert_eq!(p.note_count(), 1);
    assert_eq!(p.track_count(), 1);
    assert_eq!(p.notes()[0].pitch, "A4");
    assert_eq!(p.total_duration(), 96 * 1_000_000);
    assert!(p.arrangement.tracks.is_empty());
    assert_eq!(p.midi.as_ref().unwrap().file_name, "one.mid");
}

#[test]
fn a_failed_load_changes_nothing() {
    let mut p = Project::new();
    p.load_midi("one.mid".to_string(), &one_note_file()).unwrap();
    assert!(matches!(p.load_midi("bad".to_string(), b"MThd"), Err(MidiParseError::ParseError(_))));
    assert!(matches!(p.load_midi("empty".to_string(), &no_note_file()), Err(MidiParseError::NoTracks)));
    assert_eq!(p.midi.as_ref().unwrap().file_name, "one.mid");
    assert_eq!(p.tempo, 1_000_000);
}

#[test]
fn samples_are_added_to_the_library() {
    let mut p = Project::new();
    let c = SampleClip {
        id: 5,
        path: "a.wav".to_string(),
        name: "a".to_string(),
        pitch: 60,
        duration_us: 0,
        sample_rate: 48000,
        format: "WAV".to_string(),
        tags: vec![],
    };
    assert_eq!(p.add_sample(c.clone()), 0);
    assert_eq!(p.add_sample(c), 1);
    assert_eq!(p.samples().len(), 2);
    assert_eq!(p.samples()[1].id, 1);
}

#[test]
fn loading_a_saved_project_is_not_available() {
    let mut p = Project::new();
    assert_eq!(p.load_json("{}"), Err("载入功能尚未实现".to_string()));
    assert!(!p.is_loaded());
}
