use recolor::midi::model::{MidiData, MidiNote, MidiTrack};
use recolor::midi::parser::{interpret_smf, parse_midi_file, MidiParseError};
use recolor::midi::smf::{read_smf, EventKind, SmfFile, TrackEvent};

fn ev(delta: u32, kind: EventKind) -> TrackEvent {
    TrackEvent { delta, kind }
}

fn file(ticks: Option<u16>, tracks: Vec<Vec<TrackEvent>>) -> SmfFile {
    SmfFile { metrical_ticks: ticks, tracks }
}

/// A two-track file: a tempo track named "Lead" with one C4 note of one beat,
/// and a second track with an E4 note.
fn two_track_bytes() -> Vec<u8> {
    let mut b = Vec::new();
    b.extend_from_slice(b"MThd");
    b.extend_from_slice(&[0, 0, 0, 6, 0, 1, 0, 2, 0x01, 0xE0]);
    let t1: Vec<u8> = vec![
        0x00, 0xFF, 0x51, 0x03, 0x07, 0xA1, 0x20, // tempo 500000
        0x00, 0xFF, 0x03, 0x04, b'L', b'e', b'a', b'd', // track name
        0x00, 0x90, 0x3C, 0x64, // note on C4
        0x83, 0x60, 0x80, 0x3C, 0x40, // 480 ticks later, note off
        0x00, 0xFF, 0x2F, 0x00,
    ];
    b.extend_from_slice(b"MTrk");
    b.extend_from_slice(&(t1.len() as u32).to_be_bytes());
    b.extend_from_slice(&t1);
    let t2: Vec<u8> = vec![
        0x81, 0x70, 0x91, 0x40, 0x50, // 240 ticks: note on E4, channel 1
        0x81, 0x70, 0x40, 0x00, // running status: velocity 0 ends it
        0x00, 0xFF, 0x2F, 0x00,
    ];
    b.extend_from_slice(b"MTrk");
    b.extend_from_slice(&(t2.len() as u32).to_be_bytes());
    b.extend_from_slice(&t2);
    b
}

fn note(n: &MidiNote) -> (u8, &str, u128, u128, u8, u8, usize) {
    (n.key, n.pitch.as_str(), n.start, n.length, n.velocity, n.channel, n.track_index)
}

fn track(t: &MidiTrack) -> (&str, usize, u8) {
    (t.name.as_str(), t.note_count, t.channel)
}

#[test]
fn parses_a_file_from_its_bytes() {
    let d: MidiData = parse_midi_file("song.mid".to_string(), &two_track_bytes()).unwrap();
    assert_eq!(d.file_name, "song.mid");
    assert_eq!(d.ticks_per_beat, 480);
    assert_eq!(d.tempo, 500000);
    assert_eq!(d.tracks.len(), 2);
    assert_eq!(track(&d.tracks[0]), ("Lead", 1, 0));
    assert_eq!(track(&d.tracks[1]), ("Track 2", 1, 1));
    assert_eq!(d.notes.len(), 2);
    // one beat at 120 BPM is half a second: 480 ticks * 500000
    assert_eq!(note(&d.notes[0]), (60, "C4", 0, 240_000_000, 100, 0, 0));
    assert_eq!(note(&d.notes[1]), (64, "E4", 120_000_000, 120_000_000, 80, 1, 1));
}

#[test]
fn reading_bytes_keeps_every_event() {
    let f = read_smf(&two_track_bytes()).unwrap();
    assert_eq!(f.metrical_ticks, Some(480));
    assert_eq!(f.tracks.len(), 2);
    assert_eq!(f.tracks[0].len(), 5);
    assert!(matches!(f.tracks[0][0].kind, EventKind::Tempo(500000)));
    assert!(matches!(&f.tracks[0][1].kind, EventKind::TrackName(n) if n.as_slice() == b"Lead"));
    assert!(matches!(f.tracks[0][2].kind, EventKind::NoteOn(0, 60, 100)));
    assert_eq!(f.tracks[0][3].delta, 480);
    assert!(matches!(f.tracks[0][3].kind, EventKind::NoteOff(0, 60)));
    assert!(matches!(f.tracks[0][4].kind, EventKind::Other));
    assert!(matches!(f.tracks[1][1].kind, EventKind::NoteOn(1, 64, 0)));
}

#[test]
fn bytes_that_are_no_midi_file_are_refused() {
    let r = parse_midi_file("x.mid".to_string(), b"hello, world");
    assert!(matches!(r, Err(MidiParseError::ParseError(_))));
    assert!(read_smf(&[]).is_err());
}

#[test]
fn a_file_without_notes_has_no_tracks() {
    let f = file(Some(96), vec![vec![ev(0, EventKind::Tempo(400000)), ev(10, EventKind::NoteOn(0, 60, 90))]]);
    assert!(matches!(interpret_smf("a".to_string(), &f), Err(MidiParseError::NoTracks)));
    let empty = file(Some(96), vec![]);
    assert!(matches!(interpret_smf("b".to_string(), &empty), Err(MidiParseError::NoTracks)));
}

#[test]
fn notes_are_sorted_by_start_and_timed_by_the_tempo_map() {
    // tempo 500000 from tick 0, 250000 from tick 100
    let t0 = vec![ev(0, EventKind::Tempo(500000)), ev(100, EventKind::Tempo(250000))];
    let t1 = vec![
        ev(150, EventKind::NoteOn(2, 70, 10)),
        ev(50, EventKind::NoteOff(2, 70)),
    ];
    let t2 = vec![
        ev(10, EventKind::NoteOn(3, 50, 20)),
        ev(40, EventKind::NoteOff(3, 50)),
    ];
    let d = interpret_smf("m".to_string(), &file(Some(100), vec![t0, t1, t2])).unwrap();
    assert_eq!(d.tempo, 500000);
    assert_eq!(d.tracks.len(), 2);
    assert_eq!(track(&d.tracks[0]), ("Track 2", 1, 2));
    assert_eq!(track(&d.tracks[1]), ("Track 3", 1, 3));
    // track 3's note starts at tick 10 (time 5_000_000), before track 2's (tick 150 at 250000)
    assert_eq!(note(&d.notes[0]), (50, "D3", 5_000_000, 20_000_000, 20, 3, 2));
    assert_eq!(note(&d.notes[1]), (70, "A#4", 37_500_000, 12_500_000, 10, 2, 1));
}

#[test]
fn a_time_that_goes_back_under_a_faster_tempo_gives_the_least_length() {
    // The note spans a tempo change that halves microseconds per beat, so its
    // end time (tick * tempo there) lies before its start time.
    let t0 = vec![ev(0, EventKind::Tempo(1_000_000)), ev(90, EventKind::Tempo(100_000))];
    let t1 = vec![ev(80, EventKind::NoteOn(0, 60, 1)), ev(20, EventKind::NoteOff(0, 60))];
    let d = interpret_smf("m".to_string(), &file(Some(10), vec![t0, t1])).unwrap();
    assert_eq!(d.notes[0].start, 80_000_000);
    assert_eq!(d.notes[0].length, 100_000);
}

#[test]
fn tempo_of_a_file_is_its_earliest_tempo_event() {
    let t0 = vec![ev(50, EventKind::Tempo(300000))];
    let t1 = vec![ev(20, EventKind::Tempo(600000)), ev(0, EventKind::NoteOn(0, 60, 1)), ev(1, EventKind::NoteOff(0, 60))];
    let d = interpret_smf("m".to_string(), &file(Some(1), vec![t0, t1])).unwrap();
    assert_eq!(d.tempo, 600000);
    let none = interpret_smf("m".to_string(), &file(Some(1), vec![vec![ev(0, EventKind::NoteOn(0, 1, 1)), ev(0, EventKind::NoteOff(0, 1))]])).unwrap();
    assert_eq!(none.tempo, 500000);
}

#[test]
fn of_two_tempo_events_at_one_tick_the_later_listed_counts() {
    let t0 = vec![ev(0, EventKind::Tempo(200000)), ev(0, EventKind::Tempo(400000))];
    let t1 = vec![ev(5, EventKind::NoteOn(0, 60, 1)), ev(5, EventKind::NoteOff(0, 60))];
    let d = interpret_smf("m".to_string(), &file(Some(1), vec![t0, t1])).unwrap();
    assert_eq!(d.tempo, 200000);
    assert_eq!(d.notes[0].start, 5 * 400000);
    assert_eq!(d.notes[0].length, 5 * 400000);
}

#[test]
fn a_note_shorter_than_ten_milliseconds_lasts_ten() {
    let t = vec![ev(0, EventKind::NoteOn(0, 60, 64)), ev(0, EventKind::NoteOff(0, 60))];
    let d = interpret_smf("m".to_string(), &file(Some(480), vec![t])).unwrap();
    assert_eq!(d.notes[0].length, 480 * 10_000);
}

#[test]
fn a_timecode_file_counts_480_ticks_per_beat() {
    let t = vec![ev(0, EventKind::NoteOn(0, 60, 64)), ev(960, EventKind::NoteOff(0, 60))];
    let d = interpret_smf("m".to_string(), &file(None, vec![t])).unwrap();
    assert_eq!(d.ticks_per_beat, 480);
    assert_eq!(d.notes[0].length, 960 * 500_000);
}

#[test]
fn a_second_note_on_replaces_the_pending_one() {
    let t = vec![
        ev(0, EventKind::NoteOn(0, 60, 10)),
        ev(10, EventKind::NoteOn(0, 60, 20)),
        ev(10, EventKind::NoteOff(0, 60)),
        ev(10, EventKind::NoteOff(0, 60)),
    ];
    let d = interpret_smf("m".to_string(), &file(Some(1), vec![t])).unwrap();
    assert_eq!(d.notes.len(), 1);
    assert_eq!(note(&d.notes[0]), (60, "C4", 10 * 500000, 10 * 500000, 20, 0, 0));
}

#[test]
fn notes_end_only_on_their_own_channel_and_key() {
    let t = vec![
        ev(0, EventKind::NoteOn(0, 60, 10)),
        ev(1, EventKind::NoteOff(1, 60)),
        ev(1, EventKind::NoteOff(0, 61)),
        ev(1, EventKind::OtherChannel(9)),
        ev(1, EventKind::NoteOn(0, 60, 0)),
    ];
    let d = interpret_smf("m".to_string(), &file(Some(1), vec![t])).unwrap();
    assert_eq!(d.notes.len(), 1);
    assert_eq!(d.notes[0].length, 4 * 500000);
    // the track's channel is that of its last channel message
    assert_eq!(track(&d.tracks[0]), ("Track 1", 1, 0));
}

#[test]
fn a_track_name_that_is_no_utf8_is_ignored() {
    let t = vec![
        ev(0, EventKind::TrackName(vec![b'O', b'k'])),
        ev(0, EventKind::TrackName(vec![0xFF, 0xFE])),
        ev(0, EventKind::NoteOn(0, 60, 1)),
        ev(0, EventKind::NoteOff(0, 60)),
    ];
    let d = interpret_smf("m".to_string(), &file(Some(1), vec![t])).unwrap();
    assert_eq!(d.tracks[0].name, "Ok");
    let t = vec![ev(0, EventKind::TrackName("琴".as_bytes().to_vec())), ev(0, EventKind::NoteOn(0, 60, 1)), ev(0, EventKind::NoteOff(0, 60))];
    let d = interpret_smf("m".to_string(), &file(Some(1), vec![t])).unwrap();
    assert_eq!(d.tracks[0].name, "琴");
}

#[test]
fn notes_starting_together_keep_their_order() {
    let t = vec![
        ev(0, EventKind::NoteOn(0, 60, 1)),
        ev(0, EventKind::NoteOn(0, 62, 1)),
        ev(5, EventKind::NoteOff(0, 62)),
        ev(5, EventKind::NoteOff(0, 60)),
    ];
    let d = interpret_smf("m".to_string(), &file(Some(1), vec![t])).unwrap();
    assert_eq!(d.notes[0].key, 62);
    assert_eq!(d.notes[1].key, 60);
}

#[test]
fn duration_tracks_and_range_of_a_file() {
    let d = parse_midi_file("song.mid".to_string(), &two_track_bytes()).unwrap();
    assert_eq!(d.total_duration(), 240_000_000);
    assert_eq!(d.pitch_range(), (60, 64));
    let t1: Vec<u8> = d.notes_for_track(1).iter().map(|n| n.key).collect();
    assert_eq!(t1, vec![64]);
    assert!(d.notes_for_track(7).is_empty());
    let empty = MidiData {
        file_name: String::new(),
        tracks: vec![],
        notes: vec![],
        tempo: 500000,
        ticks_per_beat: 480,
    };
    assert_eq!(empty.total_duration(), 0);
    assert_eq!(empty.pitch_range(), (0, 127));
}

#[test]
fn a_duration_beyond_the_time_range_is_capped() {
    let n = |start: u128, length: u128| MidiNote {
        key: 60,
        pitch: "C4".to_string(),
        start,
        length,
        velocity: 1,
        channel: 0,
        track_index: 0,
    };
    let d = MidiData {
        file_name: "big".to_string(),
        tracks: vec![],
        notes: vec![n(10, 5), n(u128::MAX - 1, 5), n(3, 4)],
        tempo: 500000,
        ticks_per_beat: 480,
    };
    assert_eq!(d.total_duration(), u128::MAX);
    let small = MidiData { notes: vec![n(10, 5), n(3, 40)], ..d };
    assert_eq!(small.total_duration(), 43);
}
