//! Turning the events of a MIDI file into tracks and timed notes.

use vstd::prelude::*;
use vstd::utf8::{valid_utf8, decode_utf8};
use crate::text::{decimal, push_char, push_decimal, utf8_to_string};
use crate::midi::pitch::{key_name, key_to_name};
use crate::midi::smf::{EventKind, EventModel, EventSpec, SmfFile, SmfModel, TrackEvent,
    event_in_range, read_smf, smf_decode};
use crate::midi::model::{DataModel, MidiData, MidiNote, MidiTrack, NoteModel, TrackModel,
    notes_view, tracks_view};

verus! {

/// Why a MIDI file gives no notes to arrange.
#[derive(Debug)]
pub enum MidiParseError {
    /// `midly` could not parse the bytes.
    ParseError(midly::Error),
    /// No track holds a complete note.
    NoTracks,
    /// No complete note was found.
    NoNotes,
}

// ---------------------------------------------------------------------------
// Tempo map

/// The tick at which event `n - 1` of a track fires: the sum of the first `n`
/// delta times.
pub open spec fn ticks_through(events: Seq<EventSpec>, n: int) -> int
    decreases n,
{
    if n <= 0 { 0 } else { ticks_through(events, n - 1) + events[n - 1].delta }
}

/// The tempo events among the first `n` events of a track, as (tick, tempo).
pub open spec fn track_tempos(events: Seq<EventSpec>, n: int) -> Seq<(int, u32)>
    decreases n,
{
    if n <= 0 {
        Seq::empty()
    } else {
        let prev = track_tempos(events, n - 1);
        match events[n - 1].kind {
            EventModel::Tempo(u) => prev.push((ticks_through(events, n), u)),
            _ => prev,
        }
    }
}

/// The tempo events of the first `n` tracks, track after track.
pub open spec fn tempos_upto(m: SmfModel, n: int) -> Seq<(int, u32)>
    decreases n,
{
    if n <= 0 {
        Seq::empty()
    } else {
        tempos_upto(m, n - 1) + track_tempos(m.tracks[n - 1], m.tracks[n - 1].len() as int)
    }
}

/// All tempo events of a file, in the order of its tracks.
pub open spec fn tempo_map(m: SmfModel) -> Seq<(int, u32)> {
    tempos_upto(m, m.tracks.len() as int)
}

/// The tempo event in force at `tick`: of the events at or before `tick`,
/// one at the latest tick, and of several there the last one listed.
pub open spec fn active_tempo(ts: Seq<(int, u32)>, tick: int) -> Option<(int, u32)>
    decreases ts.len(),
{
    if ts.len() == 0 {
        None
    } else {
        let prev = active_tempo(ts.drop_last(), tick);
        let e = ts.last();
        if e.0 <= tick && (prev is None || prev.unwrap().0 <= e.0) { Some(e) } else { prev }
    }
}

/// The tempo (microseconds per beat) at `tick`; 120 BPM before any tempo event.
pub open spec fn tempo_at(ts: Seq<(int, u32)>, tick: int) -> u32 {
    match active_tempo(ts, tick) {
        Some(e) => e.1,
        None => 500000,
    }
}

/// The earliest tempo event: at the least tick, and of several there the
/// first one listed.
pub open spec fn first_tempo(ts: Seq<(int, u32)>) -> Option<(int, u32)>
    decreases ts.len(),
{
    if ts.len() == 0 {
        None
    } else {
        let prev = first_tempo(ts.drop_last());
        if prev is None || ts.last().0 < prev.unwrap().0 { Some(ts.last()) } else { prev }
    }
}

/// The tempo of a file: that of its earliest tempo event, or 120 BPM.
pub open spec fn file_tempo(m: SmfModel) -> u32 {
    match first_tempo(tempo_map(m)) {
        Some(e) => e.1,
        None => 500000,
    }
}

/// Ticks per beat: those of a metrical header, 480 for a timecode header.
pub open spec fn ticks_per_beat_of(m: SmfModel) -> u16 {
    match m.metrical_ticks {
        Some(t) => t,
        None => 480,
    }
}

// ---------------------------------------------------------------------------
// Notes of a track

/// A note found in a track, timed in ticks.
pub struct RawNote {
    pub key: u8,
    pub velocity: u8,
    pub channel: u8,
    pub track_index: int,
    pub start_tick: int,
    pub end_tick: int,
    /// How many events of its track had been read when it ended.
    pub read: int,
}

/// What reading a track has found so far: the events read, the current tick, the notes started
/// and not yet ended (by key and channel: start tick and velocity), the
/// track's name if one was given, the channel of the last channel message,
/// and the notes completed, in the order they ended.
pub struct TrackRun {
    pub read: int,
    pub tick: int,
    pub pending: Map<(u8, u8), (int, u8)>,
    pub name: Option<Seq<char>>,
    pub channel: u8,
    pub notes: Seq<RawNote>,
}

/// Ends the note pending on `key` and `channel`, if any, at `tick`.
pub open spec fn end_note(r: TrackRun, key: u8, channel: u8, track: int) -> TrackRun {
    if r.pending.contains_key((key, channel)) {
        let p = r.pending[(key, channel)];
        TrackRun {
            pending: r.pending.remove((key, channel)),
            notes: r.notes.push(RawNote {
                key,
                velocity: p.1,
                channel,
                track_index: track,
                start_tick: p.0,
                end_tick: r.tick,
                read: r.read,
            }),
            ..r
        }
    } else {
        r
    }
}

/// Reads one event of track `track`. A note-on with velocity 0 ends a note
/// like a note-off; a second note-on on the same key and channel replaces the
/// pending one; a track name counts only where its bytes are valid UTF-8.
pub open spec fn step(r0: TrackRun, e: EventSpec, track: int) -> TrackRun {
    let r = TrackRun { read: r0.read + 1, tick: r0.tick + e.delta, ..r0 };
    match e.kind {
        EventModel::TrackName(b) =>
            if valid_utf8(b) { TrackRun { name: Some(decode_utf8(b)), ..r } } else { r },
        EventModel::NoteOn(c, k, v) =>
            if v > 0 {
                TrackRun { channel: c, pending: r.pending.insert((k, c), (r.tick, v)), ..r }
            } else {
                end_note(TrackRun { channel: c, ..r }, k, c, track)
            },
        EventModel::NoteOff(c, k) => end_note(TrackRun { channel: c, ..r }, k, c, track),
        EventModel::OtherChannel(c) => TrackRun { channel: c, ..r },
        _ => r,
    }
}

/// What reading the events of track `track` finds.
pub open spec fn run_track(events: Seq<EventSpec>, track: int) -> TrackRun
    decreases events.len(),
{
    if events.len() == 0 {
        TrackRun { read: 0, tick: 0, pending: Map::empty(), name: None, channel: 0, notes: Seq::empty() }
    } else {
        step(run_track(events.drop_last(), track), events.last(), track)
    }
}

/// Reading a track reads each of its events once, and each note it finds
/// belongs to the track and ends at one of its events.
pub proof fn lemma_run_track_notes(events: Seq<EventSpec>, track: int)
    ensures
        run_track(events, track).read == events.len(),
        forall|j: int| 0 <= j < run_track(events, track).notes.len() ==>
            1 <= (#[trigger] run_track(events, track).notes[j]).read <= events.len()
            && run_track(events, track).notes[j].track_index == track
            && run_track(events, track).notes[j].start_tick <= run_track(events, track).notes[j].end_tick,
        forall|kc: (u8, u8)| #[trigger] run_track(events, track).pending.contains_key(kc)
            ==> run_track(events, track).pending[kc].0 <= run_track(events, track).tick,
    decreases events.len(),
{
    if events.len() > 0 {
        lemma_run_track_notes(events.drop_last(), track);
    }
}

/// "Track n" for the track at index `n - 1`.
pub open spec fn default_track_name(track: int) -> Seq<char> {
    seq!['T', 'r', 'a', 'c', 'k', ' '] + decimal((track + 1) as nat)
}

/// The summary of track `track`: its name, how many notes it holds and the
/// channel of its last channel message.
pub open spec fn track_summary(events: Seq<EventSpec>, track: int) -> TrackModel {
    let r = run_track(events, track);
    TrackModel {
        name: match r.name {
            Some(n) => n,
            None => default_track_name(track),
        },
        note_count: r.notes.len() as int,
        channel: r.channel,
    }
}

/// The summaries of the tracks among the first `n` that hold a note.
pub open spec fn tracks_upto(m: SmfModel, n: int) -> Seq<TrackModel>
    decreases n,
{
    if n <= 0 {
        Seq::empty()
    } else if run_track(m.tracks[n - 1], n - 1).notes.len() > 0 {
        tracks_upto(m, n - 1).push(track_summary(m.tracks[n - 1], n - 1))
    } else {
        tracks_upto(m, n - 1)
    }
}

/// The notes of the first `n` tracks, track after track.
pub open spec fn raw_notes_upto(m: SmfModel, n: int) -> Seq<RawNote>
    decreases n,
{
    if n <= 0 {
        Seq::empty()
    } else {
        raw_notes_upto(m, n - 1) + run_track(m.tracks[n - 1], n - 1).notes
    }
}

// ---------------------------------------------------------------------------
// Timing and order of the notes

/// The time of `tick`: the tick scaled by the tempo in force there.
pub open spec fn time_of(ts: Seq<(int, u32)>, tick: int) -> int {
    tick * tempo_at(ts, tick)
}

/// A note with its times: it lasts from the time of its start tick to the
/// time of its end tick, and at least 10 milliseconds.
pub open spec fn timed_note(n: RawNote, ts: Seq<(int, u32)>, ticks_per_beat: int) -> NoteModel {
    let s = time_of(ts, n.start_tick);
    let e = time_of(ts, n.end_tick);
    let least = ticks_per_beat * 10000;
    NoteModel {
        key: n.key,
        pitch: key_name(n.key),
        start: s,
        length: if e - s >= least { e - s } else { least },
        velocity: n.velocity,
        channel: n.channel,
        track_index: n.track_index,
    }
}

/// `x` placed into `s` after every note that starts no later than it.
pub open spec fn insert_by_start(s: Seq<NoteModel>, x: NoteModel) -> Seq<NoteModel>
    decreases s.len(),
{
    if s.len() == 0 {
        seq![x]
    } else if s.last().start <= x.start {
        s.push(x)
    } else {
        insert_by_start(s.drop_last(), x).push(s.last())
    }
}

/// `s` in order of start times; notes that start together keep their order.
pub open spec fn sort_by_start(s: Seq<NoteModel>) -> Seq<NoteModel>
    decreases s.len(),
{
    if s.len() == 0 {
        s
    } else {
        insert_by_start(sort_by_start(s.drop_last()), s.last())
    }
}

/// The notes of a file with their times, in order of start times.
pub open spec fn file_notes(m: SmfModel) -> Seq<NoteModel> {
    let ts = tempo_map(m);
    let tpb = ticks_per_beat_of(m) as int;
    sort_by_start(raw_notes_upto(m, m.tracks.len() as int).map_values(|n: RawNote| timed_note(n, ts, tpb)))
}

/// The tracks of a file that hold a note.
pub open spec fn file_tracks(m: SmfModel) -> Seq<TrackModel> {
    tracks_upto(m, m.tracks.len() as int)
}

/// What a file named `file_name` gives when its tracks hold notes.
pub open spec fn file_data(file_name: Seq<char>, m: SmfModel) -> DataModel {
    DataModel {
        file_name,
        tracks: file_tracks(m),
        notes: file_notes(m),
        tempo: file_tempo(m),
        ticks_per_beat: ticks_per_beat_of(m),
    }
}

/// What interpreting a file gives: its data, or the error for it.
pub open spec fn interpretation_matches(file_name: Seq<char>, m: SmfModel, res: Result<MidiData, MidiParseError>) -> bool {
    match res {
        Ok(d) => file_tracks(m).len() > 0
            && raw_notes_upto(m, m.tracks.len() as int).len() > 0
            && d@ == file_data(file_name, m),
        Err(MidiParseError::NoTracks) => file_tracks(m).len() == 0,
        Err(MidiParseError::NoNotes) => file_tracks(m).len() > 0
            && raw_notes_upto(m, m.tracks.len() as int).len() == 0,
        Err(MidiParseError::ParseError(_)) => false,
    }
}


// ---------------------------------------------------------------------------
// Reading the tempo map

/// Ticks reachable in a file: `2^92`, above `usize::MAX` events of the largest
/// 28-bit delta time.
pub open spec fn tick_limit() -> int {
    0x1000_0000_0000_0000_0000_0000
}

/// A list of (tick, tempo) pairs, with the ticks as integers.
pub open spec fn tempo_pairs(ts: Seq<(u128, u32)>) -> Seq<(int, u32)> {
    ts.map_values(|p: (u128, u32)| (p.0 as int, p.1))
}

proof fn lemma_ticks_bound(events: Seq<EventSpec>, n: int)
    requires
        0 <= n <= events.len(),
        forall|j: int| 0 <= j < n ==> event_in_range(#[trigger] events[j]),
    ensures
        0 <= ticks_through(events, n) <= n * 0x0fff_ffff,
    decreases n,
{
    if n > 0 {
        lemma_ticks_bound(events, n - 1);
        assert(event_in_range(events[n - 1]));
    }
}

/// The tempo events of a file, in the order of its tracks.
fn collect_tempos(f: &SmfFile) -> (ts: Vec<(u128, u32)>)
    requires
        f@.well_formed(),
    ensures
        tempo_pairs(ts@) == tempo_map(f@),
        forall|j: int| 0 <= j < ts@.len() ==> (#[trigger] ts@[j]).0 <= tick_limit() && ts@[j].1 < 0x100_0000,
{
    let ghost m = f@;
    let mut ts: Vec<(u128, u32)> = Vec::new();
    let n = f.tracks.len();
    let mut t: usize = 0;
    while t < n
        invariant
            m == f@,
            m.well_formed(),
            n == m.tracks.len(),
            t <= n,
            tempo_pairs(ts@) == tempos_upto(m, t as int),
            forall|j: int| 0 <= j < ts@.len() ==> (#[trigger] ts@[j]).0 <= tick_limit() && ts@[j].1 < 0x100_0000,
        decreases n - t,
    {
        let events = &f.tracks[t];
        let ghost ev = m.tracks[t as int];
        assert(ev == events@.map_values(|e: TrackEvent| e@));
        let len = events.len();
        let mut tick: u128 = 0;
        let mut i: usize = 0;
        while i < len
            invariant
                m == f@,
                m.well_formed(),
                n == m.tracks.len(),
                t < n,
                ev == m.tracks[t as int],
                ev == events@.map_values(|e: TrackEvent| e@),
                len == ev.len(),
                i <= len,
                tick == ticks_through(ev, i as int),
                tempo_pairs(ts@) == tempos_upto(m, t as int) + track_tempos(ev, i as int),
                forall|j: int| 0 <= j < ts@.len() ==> (#[trigger] ts@[j]).0 <= tick_limit() && ts@[j].1 < 0x100_0000,
            decreases len - i,
        {
            let e = &events[i];
            assert(ev[i as int] == e@);
            assert(event_in_range(m.tracks[t as int][i as int]));
            proof {
                lemma_ticks_bound(ev, i + 1);
                assert((i + 1) * 0x0fff_ffff <= tick_limit()) by (nonlinear_arith)
                    requires i < 0x1_0000_0000_0000_0000;
            }
            tick = tick + e.delta as u128;
            let ghost before = ts@;
            match &e.kind {
                EventKind::Tempo(u) => {
                    ts.push((tick, *u));
                    assert(tempo_pairs(ts@) == tempo_pairs(before).push((tick as int, *u)));
                },
                _ => {},
            }
            i = i + 1;
        }
        proof {
            assert(tempos_upto(m, t + 1) == tempos_upto(m, t as int) + track_tempos(ev, len as int));
        }
        t = t + 1;
    }
    ts
}

/// The tempo (microseconds per beat) in force at `tick`.
fn tempo_at_tick(ts: &Vec<(u128, u32)>, tick: u128) -> (u: u32)
    ensures
        u == tempo_at(tempo_pairs(ts@), tick as int),
        (forall|j: int| 0 <= j < ts@.len() ==> (#[trigger] ts@[j]).1 < 0x100_0000) ==> u < 0x100_0000,
{
    let mut best: Option<(u128, u32)> = None;
    let mut j: usize = 0;
    while j < ts.len()
        invariant
            j <= ts@.len(),
            match best {
                Some(b) => active_tempo(tempo_pairs(ts@.subrange(0, j as int)), tick as int) == Some((b.0 as int, b.1))
                    && exists|k: int| 0 <= k < j && ts@[k] == b,
                None => active_tempo(tempo_pairs(ts@.subrange(0, j as int)), tick as int) is None,
            },
        decreases ts@.len() - j,
    {
        let e = ts[j];
        proof {
            assert(tempo_pairs(ts@.subrange(0, j + 1)).drop_last() == tempo_pairs(ts@.subrange(0, j as int)));
            assert(tempo_pairs(ts@.subrange(0, j + 1)).last() == (e.0 as int, e.1));
        }
        let take = match best {
            Some(b) => e.0 <= tick && b.0 <= e.0,
            None => e.0 <= tick,
        };
        if take {
            best = Some(e);
        }
        j = j + 1;
    }
    assert(ts@.subrange(0, ts@.len() as int) == ts@);
    match best {
        Some(b) => b.1,
        None => 500000,
    }
}

/// The tempo of the earliest tempo event, or 120 BPM.
fn first_tempo_of(ts: &Vec<(u128, u32)>) -> (u: u32)
    ensures
        u == match first_tempo(tempo_pairs(ts@)) {
            Some(e) => e.1,
            None => 500000u32,
        },
{
    let mut best: Option<(u128, u32)> = None;
    let mut j: usize = 0;
    while j < ts.len()
        invariant
            j <= ts@.len(),
            match best {
                Some(b) => first_tempo(tempo_pairs(ts@.subrange(0, j as int))) == Some((b.0 as int, b.1)),
                None => first_tempo(tempo_pairs(ts@.subrange(0, j as int))) is None,
            },
        decreases ts@.len() - j,
    {
        let e = ts[j];
        proof {
            assert(tempo_pairs(ts@.subrange(0, j + 1)).drop_last() == tempo_pairs(ts@.subrange(0, j as int)));
            assert(tempo_pairs(ts@.subrange(0, j + 1)).last() == (e.0 as int, e.1));
        }
        let take = match best {
            Some(b) => e.0 < b.0,
            None => true,
        };
        if take {
            best = Some(e);
        }
        j = j + 1;
    }
    assert(ts@.subrange(0, ts@.len() as int) == ts@);
    match best {
        Some(b) => b.1,
        None => 500000,
    }
}


// ---------------------------------------------------------------------------
// Reading the notes of a track

/// A note found in a track, timed in ticks.
pub struct NoteSpan {
    pub key: u8,
    pub velocity: u8,
    pub channel: u8,
    pub track_index: usize,
    pub start_tick: u128,
    pub end_tick: u128,
    /// How many events of its track had been read when it ended.
    pub read: usize,
}

impl View for NoteSpan {
    type V = RawNote;

    open spec fn view(&self) -> RawNote {
        RawNote {
            key: self.key,
            velocity: self.velocity,
            channel: self.channel,
            track_index: self.track_index as int,
            start_tick: self.start_tick as int,
            end_tick: self.end_tick as int,
            read: self.read as int,
        }
    }
}

pub(crate) open spec fn spans_view(s: Seq<NoteSpan>) -> Seq<RawNote> {
    s.map_values(|n: NoteSpan| n@)
}

pub(crate) open spec fn spans_bounded(s: Seq<NoteSpan>) -> bool {
    forall|j: int| 0 <= j < s.len() ==> (#[trigger] s[j]).start_tick <= s[j].end_tick
        && s[j].end_tick <= tick_limit()
}

/// The slot of a (key, channel) pair in a table of pending notes.
spec fn slot_of(k: u8, c: u8) -> int {
    k as int * 16 + c as int
}

spec fn slot_matches(x: Option<(u128, u8)>, p: Map<(u8, u8), (int, u8)>, k: u8, c: u8) -> bool {
    match x {
        Some(v) => p.contains_key((k, c)) && p[(k, c)] == (v.0 as int, v.1),
        None => !p.contains_key((k, c)),
    }
}

/// A table of 128 keys by 16 channels holds the pending notes `p`.
spec fn table_matches(tb: Seq<Option<(u128, u8)>>, p: Map<(u8, u8), (int, u8)>) -> bool {
    &&& tb.len() == 2048
    &&& forall|k: u8, c: u8| k < 128 && c < 16 ==> #[trigger] slot_matches(tb[slot_of(k, c)], p, k, c)
    &&& forall|kc: (u8, u8)| #[trigger] p.contains_key(kc) ==> kc.0 < 128 && kc.1 < 16
}

/// The events of a track, as values.
pub(crate) open spec fn events_view(events: Seq<TrackEvent>) -> Seq<EventSpec> {
    events.map_values(|e: TrackEvent| e@)
}

proof fn lemma_spans_push(s: Seq<NoteSpan>, x: NoteSpan)
    ensures
        spans_view(s.push(x)) == spans_view(s).push(x@),
{
    assert(spans_view(s.push(x)) =~= spans_view(s).push(x@));
}

/// Builds "Track n" for the track at index `track`.
fn default_name(track: usize) -> (s: String)
    requires
        track < usize::MAX,
    ensures
        s@ == default_track_name(track as int),
{
    let mut s = String::new();
    push_char(&mut s, 'T');
    push_char(&mut s, 'r');
    push_char(&mut s, 'a');
    push_char(&mut s, 'c');
    push_char(&mut s, 'k');
    push_char(&mut s, ' ');
    push_decimal(&mut s, track + 1);
    s
}

/// Reads the events of track `track`, appends the notes it completes to
/// `spans`, and sums the track up if it holds a note.
pub(crate) fn read_track(events: &Vec<TrackEvent>, track: usize, spans: &mut Vec<NoteSpan>) -> (summary: Option<MidiTrack>)
    requires
        track < usize::MAX,
        forall|j: int| 0 <= j < events@.len() ==> event_in_range(#[trigger] events@[j]@),
        spans_bounded(old(spans)@),
    ensures
        spans_view(final(spans)@) == spans_view(old(spans)@) + run_track(events_view(events@), track as int).notes,
        spans_bounded(final(spans)@),
        match summary {
            Some(s) => run_track(events_view(events@), track as int).notes.len() > 0
                && s@ == track_summary(events_view(events@), track as int),
            None => run_track(events_view(events@), track as int).notes.len() == 0,
        },
{
    let ghost ev = events_view(events@);
    let ghost spans0 = spans@;
    let mut table: Vec<Option<(u128, u8)>> = Vec::new();
    let mut z: usize = 0;
    while z < 2048
        invariant
            z <= 2048,
            table@.len() == z,
            forall|j: int| 0 <= j < z ==> (#[trigger] table@[j]) is None,
        decreases 2048 - z,
    {
        table.push(None);
        z = z + 1;
    }
    assert(table_matches(table@, Map::<(u8, u8), (int, u8)>::empty()));
    let mut tick: u128 = 0;
    let mut name: Option<String> = None;
    let mut channel: u8 = 0;
    let mut count: usize = 0;
    let len = events.len();
    let mut i: usize = 0;
    assert(ev.subrange(0, 0) == Seq::<EventSpec>::empty());
    while i < len
        invariant
            ev == events_view(events@),
            len == events@.len(),
            ev.len() == len,
            track < usize::MAX,
            forall|j: int| 0 <= j < events@.len() ==> event_in_range(#[trigger] events@[j]@),
            i <= len,
            tick == run_track(ev.subrange(0, i as int), track as int).tick,
            run_track(ev.subrange(0, i as int), track as int).read == i,
            run_track(ev.subrange(0, i as int), track as int).tick <= i * 0x0fff_ffff,
            table_matches(table@, run_track(ev.subrange(0, i as int), track as int).pending),
            forall|kc: (u8, u8)| #[trigger] run_track(ev.subrange(0, i as int), track as int).pending.contains_key(kc)
                ==> run_track(ev.subrange(0, i as int), track as int).pending[kc].0 <= run_track(ev.subrange(0, i as int), track as int).tick,
            match name {
                Some(s) => run_track(ev.subrange(0, i as int), track as int).name == Some(s@),
                None => run_track(ev.subrange(0, i as int), track as int).name is None,
            },
            channel == run_track(ev.subrange(0, i as int), track as int).channel,
            count == run_track(ev.subrange(0, i as int), track as int).notes.len(),
            spans_view(spans@) == spans_view(spans0) + run_track(ev.subrange(0, i as int), track as int).notes,
            spans_bounded(spans@),
            spans@.len() == spans0.len() + count,
        decreases len - i,
    {
        let ghost r0 = run_track(ev.subrange(0, i as int), track as int);
        let e = &events[i];
        proof {
            assert(ev[i as int] == e@);
            assert(event_in_range(events@[i as int]@));
            assert(ev.subrange(0, i + 1).drop_last() == ev.subrange(0, i as int));
            assert(ev.subrange(0, i + 1).last() == e@);
            assert((i + 1) * 0x0fff_ffff <= tick_limit()) by (nonlinear_arith)
                requires i < 0x1_0000_0000_0000_0000;
        }
        tick = tick + e.delta as u128;
        let ghost r1 = TrackRun { tick: r0.tick + e.delta, ..r0 };
        let ghost spans_before = spans@;
        match &e.kind {
            EventKind::TrackName(b) => {
                match utf8_to_string(b) {
                    Some(s) => { name = Some(s); },
                    None => {},
                }
            },
            EventKind::Tempo(_) => {},
            EventKind::NoteOn(c, k, v) => {
                channel = *c;
                let slot = (*k as usize) * 16 + (*c as usize);
                assert(slot == slot_of(*k, *c));
                if *v > 0 {
                    let ghost tb0 = table@;
                    table.set(slot, Some((tick, *v)));
                    proof {
                        let p2 = r1.pending.insert((*k, *c), (r1.tick, *v));
                        assert forall|k2: u8, c2: u8| k2 < 128 && c2 < 16 implies
                            #[trigger] slot_matches(table@[slot_of(k2, c2)], p2, k2, c2) by {
                            if k2 != *k || c2 != *c {
                                assert(slot_of(k2, c2) != slot as int);
                                assert(slot_matches(tb0[slot_of(k2, c2)], r1.pending, k2, c2));
                            }
                        }
                    }
                } else {
                    match table[slot] {
                        Some(p) => {
                            let ghost tb0 = table@;
                            proof {
                                assert(slot_matches(tb0[slot_of(*k, *c)], r1.pending, *k, *c));
                            }
                            let ns = NoteSpan {
                                key: *k,
                                velocity: p.1,
                                channel: *c,
                                track_index: track,
                                start_tick: p.0,
                                end_tick: tick,
                                read: i + 1,
                            };
                            spans.push(ns);
                            assert(spans.len() as int == spans@.len());
                            table.set(slot, None);
                            count = count + 1;
                            proof {
                                lemma_spans_push(spans_before, ns);
                                let p2 = r1.pending.remove((*k, *c));
                                assert forall|k2: u8, c2: u8| k2 < 128 && c2 < 16 implies
                                    #[trigger] slot_matches(table@[slot_of(k2, c2)], p2, k2, c2) by {
                                    if k2 != *k || c2 != *c {
                                        assert(slot_of(k2, c2) != slot as int);
                                        assert(slot_matches(tb0[slot_of(k2, c2)], r1.pending, k2, c2));
                                    }
                                }
                            }
                        },
                        None => {
                            assert(slot_matches(table@[slot_of(*k, *c)], r1.pending, *k, *c));
                        },
                    }
                }
            },
            EventKind::NoteOff(c, k) => {
                channel = *c;
                let slot = (*k as usize) * 16 + (*c as usize);
                assert(slot == slot_of(*k, *c));
                match table[slot] {
                    Some(p) => {
                        let ghost tb0 = table@;
                        proof {
                            assert(slot_matches(tb0[slot_of(*k, *c)], r1.pending, *k, *c));
                        }
                        let ns = NoteSpan {
                            key: *k,
                            velocity: p.1,
                            channel: *c,
                            track_index: track,
                            start_tick: p.0,
                            end_tick: tick,
                            read: i + 1,
                        };
                        spans.push(ns);
                        assert(spans.len() as int == spans@.len());
                        table.set(slot, None);
                        count = count + 1;
                        proof {
                            lemma_spans_push(spans_before, ns);
                            let p2 = r1.pending.remove((*k, *c));
                            assert forall|k2: u8, c2: u8| k2 < 128 && c2 < 16 implies
                                #[trigger] slot_matches(table@[slot_of(k2, c2)], p2, k2, c2) by {
                                if k2 != *k || c2 != *c {
                                    assert(slot_of(k2, c2) != slot as int);
                                    assert(slot_matches(tb0[slot_of(k2, c2)], r1.pending, k2, c2));
                                }
                            }
                        }
                    },
                    None => {
                        assert(slot_matches(table@[slot_of(*k, *c)], r1.pending, *k, *c));
                    },
                }
            },
            EventKind::OtherChannel(c) => {
                channel = *c;
            },
            EventKind::Other => {},
        }
        proof {
            let r2 = step(r0, e@, track as int);
            assert(run_track(ev.subrange(0, i + 1), track as int) == r2);
            assert(table_matches(table@, r2.pending));
            assert(count == r2.notes.len());
        }
        i = i + 1;
    }
    assert(ev.subrange(0, len as int) == ev);
    if count > 0 {
        let n = match name {
            Some(s) => s,
            None => default_name(track),
        };
        Some(MidiTrack { name: n, note_count: count, channel })
    } else {
        None
    }
}


// ---------------------------------------------------------------------------
// Timing and ordering the notes

proof fn lemma_insert_at(s: Seq<NoteModel>, x: NoteModel, p: int)
    requires
        0 <= p <= s.len(),
        p == 0 || s[p - 1].start <= x.start,
        forall|j: int| p <= j < s.len() ==> (#[trigger] s[j]).start > x.start,
    ensures
        insert_by_start(s, x) == s.subrange(0, p).push(x) + s.subrange(p, s.len() as int),
    decreases s.len(),
{
    if s.len() == 0 {
        assert(s.subrange(0, p).push(x) + s.subrange(p, s.len() as int) =~= seq![x]);
    } else if s.last().start <= x.start {
        assert(p == s.len());
        assert(s.subrange(0, p).push(x) + s.subrange(p, s.len() as int) =~= s.push(x));
    } else {
        let d = s.drop_last();
        assert(p < s.len());
        assert forall|j: int| p <= j < d.len() implies (#[trigger] d[j]).start > x.start by {
            assert(d[j] == s[j]);
        }
        if p > 0 {
            assert(d[p - 1] == s[p - 1]);
        }
        lemma_insert_at(d, x, p);
        assert(d.subrange(0, p).push(x) + d.subrange(p, d.len() as int) + seq![s.last()]
            =~= s.subrange(0, p).push(x) + s.subrange(p, s.len() as int));
    }
}

/// Places `x` into `v` after every note that starts no later than it.
pub(crate) fn insert_note(v: &mut Vec<MidiNote>, x: MidiNote)
    ensures
        notes_view(final(v)@) == insert_by_start(notes_view(old(v)@), x@),
{
    let ghost s = notes_view(v@);
    let mut p = v.len();
    while p > 0 && v[p - 1].start > x.start
        invariant
            p <= v@.len(),
            s == notes_view(v@),
            forall|j: int| p <= j < v@.len() ==> (#[trigger] v@[j]).start > x.start,
        decreases p,
    {
        p = p - 1;
    }
    proof {
        assert forall|j: int| p <= j < s.len() implies (#[trigger] s[j]).start > x@.start by {
            assert(s[j] == v@[j]@);
        }
        if p > 0 {
            assert(s[p - 1] == v@[p - 1]@);
        }
        lemma_insert_at(s, x@, p as int);
    }
    let ghost before = v@;
    v.insert(p, x);
    assert(notes_view(v@) =~= s.subrange(0, p as int).push(x@) + s.subrange(p as int, s.len() as int)) by {
        assert(v@ == before.insert(p as int, x));
    }
}

/// A note with its start time and length.
fn time_note(n: &NoteSpan, ts: &Vec<(u128, u32)>, tpb: u16) -> (note: MidiNote)
    requires
        forall|j: int| 0 <= j < ts@.len() ==> (#[trigger] ts@[j]).0 <= tick_limit() && ts@[j].1 < 0x100_0000,
        n.start_tick <= tick_limit(),
        n.end_tick <= tick_limit(),
    ensures
        note@ == timed_note(n@, tempo_pairs(ts@), tpb as int),
{
    let us = tempo_at_tick(ts, n.start_tick);
    let ue = tempo_at_tick(ts, n.end_tick);
    let a = n.start_tick;
    let b = n.end_tick;
    assert(a * us < 0x1_0000_0000_0000_0000_0000_0000_0000_0000) by (nonlinear_arith)
        requires a <= 0x1000_0000_0000_0000_0000_0000, us < 0x100_0000;
    assert(b * ue < 0x1_0000_0000_0000_0000_0000_0000_0000_0000) by (nonlinear_arith)
        requires b <= 0x1000_0000_0000_0000_0000_0000, ue < 0x100_0000;
    let s = a * (us as u128);
    let e = b * (ue as u128);
    let least = (tpb as u128) * 10000;
    let length = if e >= s && e - s >= least { e - s } else { least };
    MidiNote {
        key: n.key,
        pitch: key_to_name(n.key),
        start: s,
        length,
        velocity: n.velocity,
        channel: n.channel,
        track_index: n.track_index,
    }
}

/// Turns the events of a file named `file_name` into its tracks and timed
/// notes: `NoTracks` where no track completes a note.
pub fn interpret_smf(file_name: String, f: &SmfFile) -> (res: Result<MidiData, MidiParseError>)
    requires
        f@.well_formed(),
    ensures
        interpretation_matches(file_name@, f@, res),
{
    let ghost m = f@;
    let tpb: u16 = match f.metrical_ticks {
        Some(t) => t,
        None => 480,
    };
    let ts = collect_tempos(f);
    let mut spans: Vec<NoteSpan> = Vec::new();
    let mut tracks: Vec<MidiTrack> = Vec::new();
    let n = f.tracks.len();
    let mut t: usize = 0;
    while t < n
        invariant
            m == f@,
            m.well_formed(),
            n == m.tracks.len(),
            t <= n,
            spans_view(spans@) == raw_notes_upto(m, t as int),
            tracks_view(tracks@) == tracks_upto(m, t as int),
            spans_bounded(spans@),
        decreases n - t,
    {
        let events = &f.tracks[t];
        proof {
            assert(events_view(events@) == m.tracks[t as int]);
            assert forall|j: int| 0 <= j < events@.len() implies event_in_range(#[trigger] events@[j]@) by {
                assert(events@[j]@ == m.tracks[t as int][j]);
            }
        }
        let ghost before = tracks@;
        match read_track(events, t, &mut spans) {
            Some(tr) => {
                tracks.push(tr);
                assert(tracks_view(tracks@) =~= tracks_view(before).push(tr@));
            },
            None => {},
        }
        t = t + 1;
    }
    if tracks.len() == 0 {
        return Err(MidiParseError::NoTracks);
    }
    if spans.len() == 0 {
        return Err(MidiParseError::NoNotes);
    }
    let ghost timed = raw_notes_upto(m, n as int).map_values(|r: RawNote| timed_note(r, tempo_pairs(ts@), tpb as int));
    let mut notes: Vec<MidiNote> = Vec::new();
    let mut j: usize = 0;
    while j < spans.len()
        invariant
            j <= spans@.len(),
            spans_view(spans@) == raw_notes_upto(m, n as int),
            spans_bounded(spans@),
            timed == raw_notes_upto(m, n as int).map_values(|r: RawNote| timed_note(r, tempo_pairs(ts@), tpb as int)),
            forall|k: int| 0 <= k < ts@.len() ==> (#[trigger] ts@[k]).0 <= tick_limit() && ts@[k].1 < 0x100_0000,
            notes_view(notes@) == sort_by_start(timed.subrange(0, j as int)),
        decreases spans@.len() - j,
    {
        let note = time_note(&spans[j], &ts, tpb);
        proof {
            assert(spans_view(spans@)[j as int] == spans@[j as int]@);
            assert(timed[j as int] == note@);
            assert(timed.subrange(0, j + 1).drop_last() == timed.subrange(0, j as int));
            assert(timed.subrange(0, j + 1).last() == note@);
        }
        insert_note(&mut notes, note);
        j = j + 1;
    }
    assert(timed.subrange(0, spans@.len() as int) == timed);
    let tempo = first_tempo_of(&ts);
    Ok(MidiData { file_name, tracks, notes, tempo, ticks_per_beat: tpb })
}

/// Reads a MIDI file named `file_name` from its bytes: its tracks that hold
/// notes, its notes in order of start time, its tempo and its time unit.
pub fn parse_midi_file(file_name: String, data: &[u8]) -> (res: Result<MidiData, MidiParseError>)
    ensures
        match smf_decode(data@) {
            None => res matches Err(MidiParseError::ParseError(_)),
            Some(m) => m.well_formed() && interpretation_matches(file_name@, m, res),
        },
{
    match read_smf(data) {
        Ok(f) => interpret_smf(file_name, &f),
        Err(e) => Err(MidiParseError::ParseError(e)),
    }
}


/// A track is listed only when it holds a note, so a file with a listed track
/// has notes: reading never ends in `NoNotes`.
pub proof fn law_tracks_have_notes(m: SmfModel, n: int)
    ensures
        tracks_upto(m, n).len() > 0 ==> raw_notes_upto(m, n).len() > 0,
        tracks_upto(m, n).len() <= raw_notes_upto(m, n).len(),
    decreases n,
{
    if n > 0 {
        law_tracks_have_notes(m, n - 1);
    }
}


/// Start times never decrease along `s`.
pub open spec fn sorted_by_start(s: Seq<NoteModel>) -> bool {
    forall|i: int, j: int| 0 <= i < j < s.len() ==> (#[trigger] s[i]).start <= (#[trigger] s[j]).start
}

proof fn lemma_insert_multiset(s: Seq<NoteModel>, x: NoteModel)
    ensures
        insert_by_start(s, x).to_multiset() == s.to_multiset().insert(x),
    decreases s.len(),
{
    broadcast use vstd::seq_lib::group_to_multiset_ensures;
    if s.len() == 0 {
        assert(seq![x] == Seq::<NoteModel>::empty().push(x));
    } else if s.last().start <= x.start {
    } else {
        let d = s.drop_last();
        lemma_insert_multiset(d, x);
        assert(s == d.push(s.last()));
        assert(insert_by_start(s, x).to_multiset() =~= s.to_multiset().insert(x));
    }
}

proof fn lemma_insert_sorted(s: Seq<NoteModel>, x: NoteModel)
    requires
        sorted_by_start(s),
    ensures
        sorted_by_start(insert_by_start(s, x)),
    decreases s.len(),
{
    broadcast use vstd::seq_lib::group_to_multiset_ensures;
    if s.len() == 0 {
    } else if s.last().start <= x.start {
        let r = s.push(x);
        assert forall|i: int, j: int| 0 <= i < j < r.len() implies (#[trigger] r[i]).start <= (#[trigger] r[j]).start by {
            if j == r.len() - 1 {
                assert(r[i] == s[i]);
                if i < s.len() - 1 {
                    assert(s[i].start <= s[s.len() - 1].start);
                }
            } else {
                assert(r[i] == s[i] && r[j] == s[j]);
            }
        }
    } else {
        let d = s.drop_last();
        let last = s.last();
        assert(sorted_by_start(d)) by {
            assert forall|i: int, j: int| 0 <= i < j < d.len() implies (#[trigger] d[i]).start <= (#[trigger] d[j]).start by {
                assert(d[i] == s[i] && d[j] == s[j]);
            }
        }
        lemma_insert_sorted(d, x);
        lemma_insert_multiset(d, x);
        let q = insert_by_start(d, x);
        let r = q.push(last);
        assert forall|i: int, j: int| 0 <= i < j < r.len() implies (#[trigger] r[i]).start <= (#[trigger] r[j]).start by {
            if j == r.len() - 1 {
                assert(r[i] == q[i]);
                assert(q.contains(q[i]));
                assert(q.to_multiset().count(q[i]) > 0);
                if q[i] != x {
                    assert(d.to_multiset().count(q[i]) > 0);
                    assert(d.contains(q[i]));
                    let k = choose|k: int| 0 <= k < d.len() && d[k] == q[i];
                    assert(d[k] == s[k]);
                    assert(s[k].start <= s[s.len() - 1].start);
                }
            } else {
                assert(r[i] == q[i] && r[j] == q[j]);
            }
        }
    }
}

/// Sorting by start time gives the notes in order of start time, each
/// note as often as before.
pub proof fn law_sorted_notes(s: Seq<NoteModel>)
    ensures
        sorted_by_start(sort_by_start(s)),
        sort_by_start(s).to_multiset() == s.to_multiset(),
    decreases s.len(),
{
    broadcast use vstd::seq_lib::group_to_multiset_ensures;
    if s.len() > 0 {
        let d = s.drop_last();
        law_sorted_notes(d);
        lemma_insert_sorted(sort_by_start(d), s.last());
        lemma_insert_multiset(sort_by_start(d), s.last());
        assert(s == d.push(s.last()));
    }
}

/// The notes that reading a file gives come in order of start time, are
/// exactly its notes, and each lasts at least 10 milliseconds
/// (`ticks_per_beat * 10000` time units).
pub proof fn law_file_notes(m: SmfModel)
    ensures
        sorted_by_start(file_notes(m)),
        file_notes(m).len() == raw_notes_upto(m, m.tracks.len() as int).len(),
        forall|i: int| 0 <= i < file_notes(m).len()
            ==> (#[trigger] file_notes(m)[i]).length >= ticks_per_beat_of(m) as int * 10000,
        forall|i: int| 0 <= i < file_notes(m).len() ==> exists|k: int|
            0 <= k < raw_notes_upto(m, m.tracks.len() as int).len()
            && #[trigger] file_notes(m)[i] == timed_note(raw_notes_upto(m, m.tracks.len() as int)[k],
                tempo_map(m), ticks_per_beat_of(m) as int),
{
    broadcast use vstd::seq_lib::group_to_multiset_ensures;
    let ts = tempo_map(m);
    let tpb = ticks_per_beat_of(m) as int;
    let timed = raw_notes_upto(m, m.tracks.len() as int).map_values(|n: RawNote| timed_note(n, ts, tpb));
    law_sorted_notes(timed);
    let f = file_notes(m);
    assert(f == sort_by_start(timed));
    assert(f.len() == f.to_multiset().len());
    assert(timed.len() == timed.to_multiset().len());
    assert forall|i: int| 0 <= i < f.len() implies (#[trigger] f[i]).length >= tpb * 10000
        && exists|k: int| 0 <= k < raw_notes_upto(m, m.tracks.len() as int).len()
            && f[i] == timed_note(raw_notes_upto(m, m.tracks.len() as int)[k], ts, tpb) by {
        assert(f.contains(f[i]));
        assert(f.to_multiset().count(f[i]) > 0);
        assert(timed.to_multiset().count(f[i]) > 0);
        assert(timed.contains(f[i]));
        let k = choose|k: int| 0 <= k < timed.len() && timed[k] == f[i];
        assert(timed[k] == timed_note(raw_notes_upto(m, m.tracks.len() as int)[k], ts, tpb));
    }
}


/// The tempo in force at a tick is that of an event at or before the tick,
/// at the latest such tick, and of several events there the last listed:
/// as if the events were sorted by tick (keeping their order at equal ticks)
/// and the last one at or before the tick were taken. Before any tempo event,
/// none is in force.
pub proof fn law_active_tempo(ts: Seq<(int, u32)>, tick: int)
    ensures
        active_tempo(ts, tick) matches Some(e) ==> exists|j: int| 0 <= j < ts.len() && ts[j] == e && e.0 <= tick
            && forall|k: int| 0 <= k < ts.len() && (#[trigger] ts[k]).0 <= tick
                ==> ts[k].0 < e.0 || (ts[k].0 == e.0 && k <= j),
        active_tempo(ts, tick) is None ==> forall|k: int| 0 <= k < ts.len() ==> (#[trigger] ts[k]).0 > tick,
    decreases ts.len(),
{
    if ts.len() > 0 {
        let d = ts.drop_last();
        law_active_tempo(d, tick);
        let last = ts.last();
        assert(ts[ts.len() - 1] == last);
        assert forall|k: int| 0 <= k < d.len() implies #[trigger] d[k] == ts[k] by {}
        match active_tempo(ts, tick) {
            Some(e) => {
                if e == last && last.0 <= tick && (active_tempo(d, tick) is None || active_tempo(d, tick).unwrap().0 <= last.0) {
                    let j = ts.len() - 1;
                    assert forall|k: int| 0 <= k < ts.len() && (#[trigger] ts[k]).0 <= tick
                        implies ts[k].0 < e.0 || (ts[k].0 == e.0 && k <= j) by {
                        if k < d.len() {
                            assert(d[k] == ts[k]);
                        }
                    }
                } else {
                    let j = choose|j: int| 0 <= j < d.len() && d[j] == e && e.0 <= tick
                        && forall|k: int| 0 <= k < d.len() && (#[trigger] d[k]).0 <= tick
                            ==> d[k].0 < e.0 || (d[k].0 == e.0 && k <= j);
                    assert(ts[j] == e);
                    assert forall|k: int| 0 <= k < ts.len() && (#[trigger] ts[k]).0 <= tick
                        implies ts[k].0 < e.0 || (ts[k].0 == e.0 && k <= j) by {
                        if k < d.len() {
                            assert(d[k] == ts[k]);
                        }
                    }
                }
            },
            None => {
                assert forall|k: int| 0 <= k < ts.len() implies (#[trigger] ts[k]).0 > tick by {
                    if k < d.len() {
                        assert(d[k] == ts[k]);
                    }
                }
            },
        }
    }
}

/// `e` is the tempo and absolute tick of some tempo event of `m`.
pub open spec fn from_tempo_event(m: SmfModel, e: (int, u32)) -> bool {
    exists|t: int, i: int| #[trigger] tempo_event_at(m, t, i, e)
}

/// The sum of the delta times of the first `n` events of a track: the
/// absolute tick of event `n - 1`.
pub open spec fn delta_sum(events: Seq<EventSpec>, n: int) -> int {
    events.take(n).map_values(|e: EventSpec| e.delta as int).fold_left(0int, |a: int, b: int| a + b)
}

/// The tempo that an event sets, if it is a tempo event.
pub open spec fn tempo_set(k: EventModel) -> Option<u32> {
    match k {
        EventModel::Tempo(u) => Some(u),
        _ => None,
    }
}

/// Event `i` of track `t` of `m` sets the tempo `e.1`, and `e.0` is its
/// absolute tick.
pub open spec fn tempo_event_at(m: SmfModel, t: int, i: int, e: (int, u32)) -> bool {
    &&& 0 <= t < m.tracks.len()
    &&& 0 <= i < m.tracks[t].len()
    &&& m.tracks[t][i].kind == EventModel::Tempo(e.1)
    &&& e.0 == delta_sum(m.tracks[t], i + 1)
}

/// The tick reached after `n` events is the sum of their delta times.
pub proof fn law_ticks_are_sums_of_deltas(events: Seq<EventSpec>, n: int)
    requires
        0 <= n <= events.len(),
    ensures
        ticks_through(events, n) == delta_sum(events, n),
    decreases n,
{
    if n > 0 {
        law_ticks_are_sums_of_deltas(events, n - 1);
        let f = |e: EventSpec| e.delta as int;
        let s = events.take(n).map_values(f);
        assert(s.drop_last() =~= events.take(n - 1).map_values(f));
        assert(s.last() == events[n - 1].delta as int);
    }
}

proof fn lemma_track_tempos_at_ticks(events: Seq<EventSpec>, n: int)
    requires
        0 <= n <= events.len(),
    ensures
        forall|j: int| 0 <= j < track_tempos(events, n).len() ==> exists|i: int| 0 <= i < n
            && events[i].kind == EventModel::Tempo((#[trigger] track_tempos(events, n)[j]).1)
            && track_tempos(events, n)[j].0 == ticks_through(events, i + 1),
        forall|i: int| 0 <= i < n && tempo_set((#[trigger] events[i]).kind) is Some
            ==> exists|j: int| 0 <= j < track_tempos(events, n).len()
                && track_tempos(events, n)[j] == (ticks_through(events, i + 1), tempo_set(events[i].kind).unwrap()),
    decreases n,
{
    if n > 0 {
        lemma_track_tempos_at_ticks(events, n - 1);
        let prev = track_tempos(events, n - 1);
        let cur = track_tempos(events, n);
        match events[n - 1].kind {
            EventModel::Tempo(u) => {
                assert(cur == prev.push((ticks_through(events, n), u)));
                assert forall|j: int| 0 <= j < cur.len() implies exists|i: int| 0 <= i < n
                    && events[i].kind == EventModel::Tempo((#[trigger] cur[j]).1)
                    && cur[j].0 == ticks_through(events, i + 1) by {
                    if j < prev.len() {
                        assert(cur[j] == prev[j]);
                    } else {
                        assert(cur[j] == (ticks_through(events, n), u));
                    }
                }
                assert forall|i: int| 0 <= i < n && tempo_set((#[trigger] events[i]).kind) is Some
                    implies exists|j: int| 0 <= j < cur.len()
                        && cur[j] == (ticks_through(events, i + 1), tempo_set(events[i].kind).unwrap()) by {
                    if i < n - 1 {
                        let j = choose|j: int| 0 <= j < prev.len()
                            && prev[j] == (ticks_through(events, i + 1), tempo_set(events[i].kind).unwrap());
                        assert(cur[j] == prev[j]);
                    } else {
                        assert(cur[prev.len() as int] == (ticks_through(events, n), u));
                    }
                }
            },
            _ => {
                assert(cur == prev);
            },
        }
    }
}

proof fn lemma_tempos_upto_sources(m: SmfModel, n: int)
    requires
        0 <= n <= m.tracks.len(),
    ensures
        forall|j: int| 0 <= j < tempos_upto(m, n).len() ==> from_tempo_event(m, #[trigger] tempos_upto(m, n)[j]),
    decreases n,
{
    if n > 0 {
        lemma_tempos_upto_sources(m, n - 1);
        let ev = m.tracks[n - 1];
        let prev = tempos_upto(m, n - 1);
        let tt = track_tempos(ev, ev.len() as int);
        let cur = tempos_upto(m, n);
        assert(cur == prev + tt);
        lemma_track_tempos_at_ticks(ev, ev.len() as int);
        assert forall|j: int| 0 <= j < cur.len() implies from_tempo_event(m, #[trigger] cur[j]) by {
            if j < prev.len() {
                assert(cur[j] == prev[j]);
            } else {
                let e = tt[j - prev.len()];
                assert(cur[j] == e);
                let i = choose|i: int| 0 <= i < ev.len()
                    && ev[i].kind == EventModel::Tempo(e.1) && e.0 == ticks_through(ev, i + 1);
                law_ticks_are_sums_of_deltas(ev, i + 1);
                assert(tempo_event_at(m, n - 1, i, cur[j]));
            }
        }
    }
}

proof fn lemma_tempos_upto_complete(m: SmfModel, n: int)
    requires
        0 <= n <= m.tracks.len(),
    ensures
        forall|t: int, i: int| 0 <= t < n && 0 <= i < m.tracks[t].len()
            && tempo_set((#[trigger] m.tracks[t][i]).kind) is Some
            ==> exists|j: int| 0 <= j < tempos_upto(m, n).len()
                && tempos_upto(m, n)[j] == (delta_sum(m.tracks[t], i + 1), tempo_set(m.tracks[t][i].kind).unwrap()),
    decreases n,
{
    if n > 0 {
        lemma_tempos_upto_complete(m, n - 1);
        let ev = m.tracks[n - 1];
        let prev = tempos_upto(m, n - 1);
        let tt = track_tempos(ev, ev.len() as int);
        let cur = tempos_upto(m, n);
        assert(cur == prev + tt);
        lemma_track_tempos_at_ticks(ev, ev.len() as int);
        assert forall|t: int, i: int| 0 <= t < n && 0 <= i < m.tracks[t].len()
            && tempo_set((#[trigger] m.tracks[t][i]).kind) is Some
            implies exists|j: int| 0 <= j < cur.len()
                && cur[j] == (delta_sum(m.tracks[t], i + 1), tempo_set(m.tracks[t][i].kind).unwrap()) by {
            let u = tempo_set(m.tracks[t][i].kind).unwrap();
            if t < n - 1 {
                let j = choose|j: int| 0 <= j < prev.len() && prev[j] == (delta_sum(m.tracks[t], i + 1), u);
                assert(cur[j] == prev[j]);
            } else {
                assert(ev[i] == m.tracks[t][i]);
                let j = choose|j: int| 0 <= j < tt.len() && tt[j] == (ticks_through(ev, i + 1), u);
                law_ticks_are_sums_of_deltas(ev, i + 1);
                assert(cur[prev.len() + j] == tt[j]);
            }
        }
    }
}

/// Every entry of a file's tempo map is a tempo event of the file, placed at
/// the event's absolute tick (the sum of the delta times of its track up to
/// and including it) with the event's tempo; and every tempo event of the
/// file has such an entry.
pub proof fn law_tempo_map_at_absolute_ticks(m: SmfModel)
    ensures
        forall|j: int| 0 <= j < tempo_map(m).len() ==> from_tempo_event(m, #[trigger] tempo_map(m)[j]),
        forall|t: int, i: int| 0 <= t < m.tracks.len() && 0 <= i < m.tracks[t].len()
            && tempo_set((#[trigger] m.tracks[t][i]).kind) is Some
            ==> exists|j: int| 0 <= j < tempo_map(m).len()
                && tempo_map(m)[j] == (delta_sum(m.tracks[t], i + 1), tempo_set(m.tracks[t][i].kind).unwrap()),
{
    let ts = tempo_map(m);
    lemma_tempos_upto_sources(m, m.tracks.len() as int);
    lemma_tempos_upto_complete(m, m.tracks.len() as int);
    assert(ts == tempos_upto(m, m.tracks.len() as int));
}

} // verus!
