use recolor::arranger::match_engine::match_with_preference;
use recolor::arranger::timeline::{auto_match, Arrangement, PlacedClip};
use recolor::midi::model::{MidiData, MidiNote};
use recolor::sample::model::{SampleClip, SampleLibrary};

fn clip(sample_id: usize, note_index: usize, start_time: u128, pitch_shift: i8) -> PlacedClip {
    PlacedClip { sample_id, note_index, start_time, pitch_shift }
}

fn key(c: Option<&PlacedClip>) -> Option<(usize, usize, u128, i8)> {
    c.map(|c| (c.sample_id, c.note_index, c.start_time, c.pitch_shift))
}

fn note(key: u8, start: u128) -> MidiNote {
    MidiNote { key, pitch: String::new(), start, length: 1, velocity: 100, channel: 0, track_index: 0 }
}

fn sample(id: usize, pitch: u8) -> SampleClip {
    SampleClip {
        id,
        path: format!("s{}.wav", id),
        name: format!("s{}", id),
        pitch,
        duration_us: 100_000,
        sample_rate: 44100,
        format: "WAV".to_string(),
        tags: vec![],
    }
}

#[test]
fn a_placed_clip_reads_back() {
    let mut a = Arrangement::new();
    assert!(a.get_clip_for_note(0, 0).is_none());
    a.place_clip(3, clip(7, 2, 99, -1));
    assert_eq!(key(a.get_clip_for_note(3, 2)), Some((7, 2, 99, -1)));
    assert!(a.get_clip_for_note(3, 1).is_none());
    assert!(a.get_clip_for_note(2, 2).is_none());
    assert_eq!(a.tracks.len(), 1);
}

#[test]
fn placing_on_a_note_replaces_its_clip() {
    let mut a = Arrangement::new();
    a.place_clip(0, clip(1, 5, 0, 0));
    a.place_clip(0, clip(2, 6, 0, 0));
    a.place_clip(0, clip(3, 5, 10, 2));
    assert_eq!(key(a.get_clip_for_note(0, 5)), Some((3, 5, 10, 2)));
    assert_eq!(key(a.get_clip_for_note(0, 6)), Some((2, 6, 0, 0)));
    assert_eq!(a.tracks.len(), 1);
    assert_eq!(a.tracks[0].clips.len(), 2);
}

#[test]
fn removing_a_clip_leaves_the_others() {
    let mut a = Arrangement::new();
    a.place_clip(0, clip(1, 5, 0, 0));
    a.place_clip(1, clip(2, 5, 0, 0));
    a.remove_clip(0, 5);
    assert!(a.get_clip_for_note(0, 5).is_none());
    assert_eq!(key(a.get_clip_for_note(1, 5)), Some((2, 5, 0, 0)));
    a.remove_clip(9, 9);
    assert_eq!(a.tracks.len(), 2);
    a.clear();
    assert!(a.get_clip_for_note(1, 5).is_none());
    assert!(a.tracks.is_empty());
}

#[test]
fn each_note_gets_the_nearest_clip() {
    let notes = vec![note(60, 0), note(64, 10), note(90, 20)];
    let samples = vec![sample(0, 62), sample(1, 59), sample(2, 61), sample(3, 65)];
    let p = auto_match(&notes, &samples, 2);
    let got: Vec<_> = p.iter().map(|c| (c.sample_id, c.note_index, c.start_time, c.pitch_shift)).collect();
    // 60: 59 and 61 are both one away, the first listed (id 1) wins; 64: 65 is nearest; 90: none
    assert_eq!(got, vec![(1, 0, 0, 1), (3, 1, 10, -1)]);
}

#[test]
fn exact_matching_only_takes_equal_pitches() {
    let midi = MidiData {
        file_name: "f".to_string(),
        tracks: vec![],
        notes: vec![note(60, 0), note(62, 5)],
        tempo: 500000,
        ticks_per_beat: 480,
    };
    let mut lib = SampleLibrary::new();
    lib.add_clip(sample(0, 61));
    lib.add_clip(sample(0, 62));
    let exact = match_with_preference(&midi, &lib, true);
    assert_eq!(exact.len(), 1);
    assert_eq!((exact[0].sample_id, exact[0].note_index, exact[0].pitch_shift), (1, 1, 0));
    let near = match_with_preference(&midi, &lib, false);
    assert_eq!(near.len(), 2);
    assert_eq!((near[0].sample_id, near[0].pitch_shift), (0, -1));
}

#[test]
fn pitch_shift_is_taken_as_signed_bytes() {
    let p = auto_match(&[note(200, 0)], &[sample(4, 100)], 255);
    // 200 as i8 is -56 and 100 as i8 is 100: -156 wraps to 100
    assert_eq!(p[0].pitch_shift, 100);
    let q = auto_match(&[note(130, 0)], &[sample(4, 129)], 1);
    assert_eq!(q[0].pitch_shift, 1);
}

#[test]
fn nothing_matches_without_samples() {
    assert!(auto_match(&[note(60, 0)], &[], 12).is_empty());
}
