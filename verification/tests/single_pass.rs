use recolor::midi::model::{MidiNote, MidiTrack};
use recolor::midi::parser::MidiParseError;
use recolor::midi::single_pass::{interpret_smf, parse_midi_file};
use recolor::midi::smf::{EventKind, SmfFile, TrackEvent};

fn ev(delta: u32, kind: EventKind) -> TrackEvent {
    TrackEvent { delta, kind }
}

fn file(ticks: Option<u16>, tracks: Vec<Vec<TrackEvent>>) -> SmfFile {
    SmfFile { metrical_ticks: ticks, tracks }
}

fn note(n: &MidiNote) -> (u8, &str, u128, u128, u8, u8, usize) {
    (n.key, n.pitch.as_str(), n.start, n.length, n.velocity, n.channel, n.track_index)
}

fn track(t: &MidiTrack) -> (&str, usize, u8) {
    (t.name.as_str(), t.note_count, t.channel)
}

/// A one-track file at 480 ticks per beat: tempo 600000, then C4 for a beat.
fn one_track_bytes() -> Vec<u8> {
    let mut b = Vec::new();
    b.extend_from_slice(b"MThd");
    b.extend_from_slice(&[0, 0, 0, 6, 0, 0, 0, 1, 0x01, 0xE0]);
    let t: Vec<u8> = vec![
        0x00, 0xFF, 0x51, 0x03, 0x09, 0x27, 0xC0, // tempo 600000
        0x00, 0x90, 0x3C, 0x64, // note on C4
        0x83, 0x60, 0x80, 0x3C, 0x40, // 480 ticks later, note off
        0x00, 0xFF, 0x2F, 0x00,
    ];
    b.extend_from_slice(b"MTrk");
    b.extend_from_slice(&(t.len() as u32).to_be_bytes());
    b.extend_from_slice(&t);
    b
}

#[test]
fn reads_a_file_from_its_bytes_in_one_pass() {
    let d = parse_midi_file("one.mid".to_string(), &one_track_bytes()).unwrap();
    assert_eq!(d.file_name, "one.mid");
    assert_eq!(d.ticks_per_beat, 480);
    assert_eq!(d.tempo, 600000);
    assert_eq!(d.tracks.len(), 1);
    assert_eq!(track(&d.tracks[0]), ("Track 1", 1, 0));
    assert_eq!(note(&d.notes[0]), (60, "C4", 0, 288_000_000, 100, 0, 0));
}

#[test]
fn bytes_that_are_no_midi_file_are_refused_in_one_pass() {
    let r = parse_midi_file("x.mid".to_string(), b"not a midi file");
    assert!(matches!(r, Err(MidiParseError::ParseError(_))));
}

#[test]
fn a_file_without_complete_notes_has_no_tracks_in_one_pass() {
    let f = file(Some(96), vec![vec![ev(0, EventKind::NoteOn(0, 60, 90)), ev(5, EventKind::NoteOff(1, 60))]]);
    assert!(matches!(interpret_smf("a".to_string(), &f), Err(MidiParseError::NoTracks)));
}

#[test]
fn the_tempo_last_read_times_both_ends_of_a_note() {
    // The tempo changes in the middle of the note: both ends use the new one.
    let t0 = vec![
        ev(0, EventKind::Tempo(500000)),
        ev(0, EventKind::NoteOn(0, 60, 70)),
        ev(100, EventKind::Tempo(250000)),
        ev(100, EventKind::NoteOff(0, 60)),
    ];
    let d = interpret_smf("t".to_string(), &file(Some(100), vec![t0])).unwrap();
    assert_eq!(d.tempo, 250000);
    assert_eq!(note(&d.notes[0]), (60, "C4", 0, 50_000_000, 70, 0, 0));
}

#[test]
fn the_running_tempo_carries_over_to_later_tracks() {
    // Track 1 sets 400000 at its end; track 2's note, earlier in time,
    // is timed by it all the same.
    let t0 = vec![ev(1000, EventKind::Tempo(400000))];
    let t1 = vec![ev(10, EventKind::NoteOn(2, 62, 30)), ev(10, EventKind::NoteOff(2, 62))];
    let d = interpret_smf("c".to_string(), &file(Some(100), vec![t0, t1])).unwrap();
    assert_eq!(d.tempo, 400000);
    assert_eq!(track(&d.tracks[0]), ("Track 2", 1, 2));
    assert_eq!(note(&d.notes[0]), (62, "D4", 4_000_000, 4_000_000, 30, 2, 1));
}

#[test]
fn no_note_is_lengthened_in_one_pass() {
    let t0 = vec![ev(5, EventKind::NoteOn(0, 64, 1)), ev(0, EventKind::NoteOn(0, 64, 0))];
    let d = interpret_smf("z".to_string(), &file(None, vec![t0])).unwrap();
    assert_eq!(d.ticks_per_beat, 480);
    assert_eq!(d.tempo, 500000);
    assert_eq!(note(&d.notes[0]), (64, "E4", 2_500_000, 0, 1, 0, 0));
}

#[test]
fn notes_come_in_order_of_start_in_one_pass() {
    let t0 = vec![ev(50, EventKind::NoteOn(0, 60, 10)), ev(10, EventKind::NoteOff(0, 60))];
    let t1 = vec![
        ev(0, EventKind::NoteOn(1, 48, 20)),
        ev(0, EventKind::NoteOn(1, 50, 21)),
        ev(5, EventKind::NoteOff(1, 50)),
        ev(0, EventKind::NoteOff(1, 48)),
    ];
    let d = interpret_smf("o".to_string(), &file(Some(10), vec![t0, t1])).unwrap();
    assert_eq!(d.notes.len(), 3);
    // the two notes of track 2 start together and keep the order they ended in
    assert_eq!(note(&d.notes[0]), (50, "D3", 0, 2_500_000, 21, 1, 1));
    assert_eq!(note(&d.notes[1]), (48, "C3", 0, 2_500_000, 20, 1, 1));
    assert_eq!(note(&d.notes[2]), (60, "C4", 25_000_000, 5_000_000, 10, 0, 0));
    assert!(d.notes.windows(2).all(|w| w[0].start <= w[1].start));
}

#[test]
fn both_readings_find_the_same_tracks() {
    let tracks = || {
        vec![
            vec![ev(0, EventKind::Tempo(300000)), ev(40, EventKind::Tempo(700000))],
            vec![ev(10, EventKind::NoteOn(0, 60, 5)), ev(60, EventKind::NoteOff(0, 60))],
            vec![ev(0, EventKind::OtherChannel(9))],
            vec![ev(3, EventKind::NoteOn(4, 72, 9)), ev(1, EventKind::NoteOn(4, 72, 0))],
        ]
    };
    let a = interpret_smf("s".to_string(), &file(Some(48), tracks())).unwrap();
    let b = recolor::midi::parser::interpret_smf("s".to_string(), &file(Some(48), tracks())).unwrap();
    let ta: Vec<_> = a.tracks.iter().map(track).collect();
    let tb: Vec<_> = b.tracks.iter().map(track).collect();
    assert_eq!(ta, tb);
    assert_eq!(ta, vec![("Track 2", 1, 0), ("Track 4", 1, 4)]);
    assert_eq!(a.notes.len(), b.notes.len());
    assert_eq!(a.ticks_per_beat, b.ticks_per_beat);
    // the tempo differs: the last one read, against the earliest one
    assert_eq!(a.tempo, 700000);
    assert_eq!(b.tempo, 300000);
}
