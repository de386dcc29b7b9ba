//! Reading a MIDI file in one pass: tracks in order, each note timed by the
//! tempo last read when the note ends.
//!
//! The tracks and notes found are those of [`crate::midi::parser`]; only the
//! timing differs. There the tempo map of the whole file times each tick;
//! here a single running tempo, carried from track to track, times both ends
//! of a note, no note is lengthened, and the file's tempo is the last one
//! read.

use vstd::prelude::*;
use crate::midi::pitch::{key_name, key_to_name};
use crate::midi::smf::{EventKind, EventSpec, SmfFile, SmfModel, TrackEvent,
    event_in_range, read_smf, smf_decode};
use crate::midi::model::{DataModel, MidiData, MidiNote, MidiTrack, NoteModel, notes_view, tracks_view};
use crate::midi::parser::{MidiParseError, NoteSpan, RawNote, events_view, file_data, file_tracks,
    law_file_notes, tempo_set,
    insert_note, lemma_run_track_notes, raw_notes_upto, read_track, run_track,
    sort_by_start, sorted_by_start, spans_bounded, spans_view, tempo_map, tempos_upto,
    tick_limit, ticks_per_beat_of, track_tempos, tracks_upto, law_sorted_notes};

verus! {

/// The tempo of the last event of `ts`, or `u` where there is none.
pub open spec fn tempo_then(u: u32, ts: Seq<(int, u32)>) -> u32 {
    if ts.len() == 0 { u } else { ts.last().1 }
}

/// The tempo of the last event of `ts`, or 120 BPM where there is none.
pub open spec fn last_tempo(ts: Seq<(int, u32)>) -> u32 {
    tempo_then(500000, ts)
}

proof fn lemma_last_tempo_concat(a: Seq<(int, u32)>, b: Seq<(int, u32)>)
    ensures
        last_tempo(a + b) == tempo_then(last_tempo(a), b),
{
    if b.len() == 0 {
        assert(a + b =~= a);
    } else {
        assert((a + b).last() == b.last());
    }
}

/// The running tempo once the tracks before track `t` and the first `k`
/// events of track `t` have been read.
pub open spec fn running_tempo(m: SmfModel, t: int, k: int) -> u32 {
    last_tempo(tempos_upto(m, t) + track_tempos(m.tracks[t], k))
}

/// A note timed by the running tempo `u` at its end: both of its ticks are
/// scaled by `u`.
pub open spec fn running_note(m: SmfModel, n: RawNote) -> NoteModel {
    let u = running_tempo(m, n.track_index, n.read);
    NoteModel {
        key: n.key,
        pitch: key_name(n.key),
        start: n.start_tick * u,
        length: (n.end_tick - n.start_tick) * u,
        velocity: n.velocity,
        channel: n.channel,
        track_index: n.track_index,
    }
}

/// The notes of a file timed in one pass, in order of start times.
pub open spec fn running_notes(m: SmfModel) -> Seq<NoteModel> {
    sort_by_start(raw_notes_upto(m, m.tracks.len() as int).map_values(|n: RawNote| running_note(m, n)))
}

/// What a file named `file_name` gives, read in one pass, when its tracks
/// hold notes.
pub open spec fn running_data(file_name: Seq<char>, m: SmfModel) -> DataModel {
    DataModel {
        file_name,
        tracks: file_tracks(m),
        notes: running_notes(m),
        tempo: last_tempo(tempo_map(m)),
        ticks_per_beat: ticks_per_beat_of(m),
    }
}

/// What reading a file in one pass gives: its data, or the error for it.
pub open spec fn running_matches(file_name: Seq<char>, m: SmfModel, res: Result<MidiData, MidiParseError>) -> bool {
    match res {
        Ok(d) => file_tracks(m).len() > 0
            && raw_notes_upto(m, m.tracks.len() as int).len() > 0
            && d@ == running_data(file_name, m),
        Err(MidiParseError::NoTracks) => file_tracks(m).len() == 0,
        Err(MidiParseError::NoNotes) => file_tracks(m).len() > 0
            && raw_notes_upto(m, m.tracks.len() as int).len() == 0,
        Err(MidiParseError::ParseError(_)) => false,
    }
}

/// The running tempo after each prefix of a track: entry `k` is the tempo
/// once its first `k` events are read, starting from `tempo`.
fn tempo_after_events(events: &Vec<TrackEvent>, tempo: u32) -> (after: Vec<u32>)
    requires
        tempo < 0x100_0000,
        forall|j: int| 0 <= j < events@.len() ==> event_in_range(#[trigger] events@[j]@),
    ensures
        after@.len() == events@.len() + 1,
        forall|k: int| 0 <= k <= events@.len() ==>
            (#[trigger] after@[k]) == tempo_then(tempo, track_tempos(events_view(events@), k)),
        forall|k: int| 0 <= k <= events@.len() ==> (#[trigger] after@[k]) < 0x100_0000,
{
    let ghost ev = events_view(events@);
    let mut after: Vec<u32> = Vec::new();
    let mut cur = tempo;
    after.push(cur);
    let mut i: usize = 0;
    while i < events.len()
        invariant
            ev == events_view(events@),
            forall|j: int| 0 <= j < events@.len() ==> event_in_range(#[trigger] events@[j]@),
            i <= events@.len(),
            after@.len() == i + 1,
            cur == tempo_then(tempo, track_tempos(ev, i as int)),
            cur < 0x100_0000,
            forall|k: int| 0 <= k <= i ==>
                (#[trigger] after@[k]) == tempo_then(tempo, track_tempos(ev, k)),
            forall|k: int| 0 <= k <= i ==> (#[trigger] after@[k]) < 0x100_0000,
        decreases events@.len() - i,
    {
        let e = &events[i];
        proof {
            assert(ev[i as int] == e@);
            assert(event_in_range(events@[i as int]@));
        }
        match &e.kind {
            EventKind::Tempo(u) => {
                cur = *u;
            },
            _ => {
                assert(track_tempos(ev, i + 1) == track_tempos(ev, i as int));
            },
        }
        after.push(cur);
        i = i + 1;
    }
    after
}

/// Times the note `n` by the running tempo `u`.
fn running_time(n: &NoteSpan, u: u32) -> (note: MidiNote)
    requires
        u < 0x100_0000,
        n.start_tick <= n.end_tick <= tick_limit(),
    ensures
        note@ == (NoteModel {
            key: n.key,
            pitch: key_name(n.key),
            start: n.start_tick * u,
            length: (n.end_tick - n.start_tick) * u,
            velocity: n.velocity,
            channel: n.channel,
            track_index: n.track_index as int,
        }),
{
    let a = n.start_tick;
    let d = n.end_tick - n.start_tick;
    assert(a * u < 0x1_0000_0000_0000_0000_0000_0000_0000_0000) by (nonlinear_arith)
        requires a <= 0x1000_0000_0000_0000_0000_0000, u < 0x100_0000;
    assert(d * u < 0x1_0000_0000_0000_0000_0000_0000_0000_0000) by (nonlinear_arith)
        requires d <= 0x1000_0000_0000_0000_0000_0000, u < 0x100_0000;
    MidiNote {
        key: n.key,
        pitch: key_to_name(n.key),
        start: a * (u as u128),
        length: d * (u as u128),
        velocity: n.velocity,
        channel: n.channel,
        track_index: n.track_index,
    }
}

/// Turns the events of a file named `file_name` into its tracks and notes,
/// reading it in one pass: `NoTracks` where no track completes a note.
pub fn interpret_smf(file_name: String, f: &SmfFile) -> (res: Result<MidiData, MidiParseError>)
    requires
        f@.well_formed(),
    ensures
        running_matches(file_name@, f@, res),
{
    let ghost m = f@;
    let tpb: u16 = match f.metrical_ticks {
        Some(t) => t,
        None => 480,
    };
    let mut tempo: u32 = 500000;
    let mut spans: Vec<NoteSpan> = Vec::new();
    let mut tracks: Vec<MidiTrack> = Vec::new();
    let mut notes: Vec<MidiNote> = Vec::new();
    let n = f.tracks.len();
    let mut t: usize = 0;
    while t < n
        invariant
            m == f@,
            m.well_formed(),
            n == m.tracks.len(),
            t <= n,
            spans_view(spans@) == raw_notes_upto(m, t as int),
            tracks_view(tracks@) == tracks_upto(m, t as int),
            spans_bounded(spans@),
            tempo == last_tempo(tempos_upto(m, t as int)),
            tempo < 0x100_0000,
            notes_view(notes@) == sort_by_start(raw_notes_upto(m, t as int).map_values(|r: RawNote| running_note(m, r))),
        decreases n - t,
    {
        let events = &f.tracks[t];
        let ghost ev = m.tracks[t as int];
        proof {
            assert(events_view(events@) == ev);
            assert forall|j: int| 0 <= j < events@.len() implies event_in_range(#[trigger] events@[j]@) by {
                assert(events@[j]@ == ev[j]);
            }
        }
        let start = spans.len();
        let ghost before = tracks@;
        let ghost spans0 = spans@;
        match read_track(events, t, &mut spans) {
            Some(tr) => {
                tracks.push(tr);
                assert(tracks_view(tracks@) =~= tracks_view(before).push(tr@));
            },
            None => {},
        }
        let after = tempo_after_events(events, tempo);
        let ghost found = run_track(ev, t as int).notes;
        let ghost timed = spans_view(spans@).map_values(|r: RawNote| running_note(m, r));
        proof {
            lemma_run_track_notes(ev, t as int);
            assert(spans_view(spans@) == raw_notes_upto(m, t as int) + found);
            assert(spans_view(spans@).len() == spans@.len());
            assert(timed.subrange(0, start as int)
                =~= raw_notes_upto(m, t as int).map_values(|r: RawNote| running_note(m, r)));
        }
        let mut j: usize = start;
        while j < spans.len()
            invariant
                m == f@,
                ev == m.tracks[t as int],
                t < n,
                n == m.tracks.len(),
                events_view(events@) == ev,
                start <= j <= spans@.len(),
                spans_view(spans@) == raw_notes_upto(m, t as int) + found,
                spans_view(spans@).len() == spans@.len(),
                raw_notes_upto(m, t as int).len() == start,
                found == run_track(ev, t as int).notes,
                forall|q: int| 0 <= q < found.len() ==>
                    1 <= (#[trigger] found[q]).read <= ev.len() && found[q].track_index == t,
                spans_bounded(spans@),
                after@.len() == ev.len() + 1,
                forall|k: int| 0 <= k <= ev.len() ==>
                    (#[trigger] after@[k]) == tempo_then(tempo, track_tempos(ev, k)),
                forall|k: int| 0 <= k <= ev.len() ==> (#[trigger] after@[k]) < 0x100_0000,
                tempo == last_tempo(tempos_upto(m, t as int)),
                timed == spans_view(spans@).map_values(|r: RawNote| running_note(m, r)),
                notes_view(notes@) == sort_by_start(timed.subrange(0, j as int)),
            decreases spans@.len() - j,
        {
            let sp = &spans[j];
            proof {
                assert(spans_view(spans@)[j as int] == sp@);
                assert(found[j - start] == sp@);
                lemma_last_tempo_concat(tempos_upto(m, t as int), track_tempos(ev, sp.read as int));
            }
            let u = after[sp.read];
            let note = running_time(sp, u);
            proof {
                assert(timed[j as int] == note@);
                assert(timed.subrange(0, j + 1).drop_last() == timed.subrange(0, j as int));
                assert(timed.subrange(0, j + 1).last() == note@);
            }
            insert_note(&mut notes, note);
            j = j + 1;
        }
        proof {
            assert(timed.subrange(0, spans@.len() as int) == timed);
            assert(tempos_upto(m, t + 1) == tempos_upto(m, t as int) + track_tempos(ev, ev.len() as int));
            lemma_last_tempo_concat(tempos_upto(m, t as int), track_tempos(ev, ev.len() as int));
            assert(spans_view(spans@) == raw_notes_upto(m, t + 1));
        }
        tempo = after[events.len()];
        t = t + 1;
    }
    if tracks.len() == 0 {
        return Err(MidiParseError::NoTracks);
    }
    if spans.len() == 0 {
        return Err(MidiParseError::NoNotes);
    }
    Ok(MidiData { file_name, tracks, notes, tempo, ticks_per_beat: tpb })
}

/// Reads a MIDI file named `file_name` from its bytes in one pass: its
/// tracks that hold notes, its notes in order of start time, each timed by
/// the tempo last read when it ends, the last tempo of the file and its
/// time unit.
pub fn parse_midi_file(file_name: String, data: &[u8]) -> (res: Result<MidiData, MidiParseError>)
    ensures
        match smf_decode(data@) {
            None => res matches Err(MidiParseError::ParseError(_)),
            Some(m) => m.well_formed() && running_matches(file_name@, m, res),
        },
{
    match read_smf(data) {
        Ok(f) => interpret_smf(file_name, &f),
        Err(e) => Err(MidiParseError::ParseError(e)),
    }
}

/// Notes found in a track end no earlier than they start.
proof fn lemma_raw_notes_ordered(m: SmfModel, n: int)
    ensures
        forall|j: int| 0 <= j < raw_notes_upto(m, n).len() ==>
            (#[trigger] raw_notes_upto(m, n)[j]).start_tick <= raw_notes_upto(m, n)[j].end_tick,
    decreases n,
{
    if n > 0 {
        lemma_raw_notes_ordered(m, n - 1);
        lemma_run_track_notes(m.tracks[n - 1], n - 1);
        let a = raw_notes_upto(m, n - 1);
        let b = run_track(m.tracks[n - 1], n - 1).notes;
        assert forall|j: int| 0 <= j < (a + b).len() implies
            (#[trigger] (a + b)[j]).start_tick <= (a + b)[j].end_tick by {
            if j >= a.len() {
                assert((a + b)[j] == b[j - a.len()]);
            }
        }
    }
}

/// The notes that reading a file in one pass gives come in order of start
/// time, are exactly its notes, and none lasts less than nothing.
pub proof fn law_running_notes(m: SmfModel)
    ensures
        sorted_by_start(running_notes(m)),
        running_notes(m).len() == raw_notes_upto(m, m.tracks.len() as int).len(),
        forall|i: int| 0 <= i < running_notes(m).len() ==> (#[trigger] running_notes(m)[i]).length >= 0,
        forall|i: int| 0 <= i < running_notes(m).len() ==> exists|k: int|
            0 <= k < raw_notes_upto(m, m.tracks.len() as int).len()
            && #[trigger] running_notes(m)[i] == running_note(m, raw_notes_upto(m, m.tracks.len() as int)[k]),
{
    broadcast use vstd::seq_lib::group_to_multiset_ensures;
    let raw = raw_notes_upto(m, m.tracks.len() as int);
    let timed = raw.map_values(|n: RawNote| running_note(m, n));
    law_sorted_notes(timed);
    lemma_raw_notes_ordered(m, m.tracks.len() as int);
    let f = running_notes(m);
    assert(f == sort_by_start(timed));
    assert(f.len() == f.to_multiset().len());
    assert(timed.len() == timed.to_multiset().len());
    assert forall|i: int| 0 <= i < f.len() implies (#[trigger] f[i]).length >= 0
        && exists|k: int| 0 <= k < raw.len() && f[i] == running_note(m, raw[k]) by {
        assert(f.contains(f[i]));
        assert(f.to_multiset().count(f[i]) > 0);
        assert(timed.to_multiset().count(f[i]) > 0);
        assert(timed.contains(f[i]));
        let k = choose|k: int| 0 <= k < timed.len() && timed[k] == f[i];
        assert(timed[k] == running_note(m, raw[k]));
        let u = running_tempo(m, raw[k].track_index, raw[k].read);
        assert((raw[k].end_tick - raw[k].start_tick) * u >= 0) by (nonlinear_arith)
            requires raw[k].end_tick - raw[k].start_tick >= 0, u >= 0;
    }
}

/// Reading a file in one pass and reading it with its tempo map find the
/// same tracks, the same number of notes and the same time unit.
pub proof fn law_same_tracks_either_way(file_name: Seq<char>, m: SmfModel)
    ensures
        running_data(file_name, m).tracks == file_data(file_name, m).tracks,
        running_data(file_name, m).notes.len() == file_data(file_name, m).notes.len(),
        running_data(file_name, m).ticks_per_beat == file_data(file_name, m).ticks_per_beat,
{
    law_running_notes(m);
    law_file_notes(m);
}

/// Event `i1` of track `t1` has been read once the tracks before track
/// `track` and the first `k` events of track `track` are read.
pub open spec fn read_before(m: SmfModel, track: int, k: int, t1: int, i1: int) -> bool {
    ||| 0 <= t1 < track && t1 < m.tracks.len() && 0 <= i1 < m.tracks[t1].len()
    ||| t1 == track && 0 <= i1 < k
}

proof fn lemma_track_last_tempo(ev: Seq<EventSpec>, k: int, i0: int)
    requires
        0 <= i0 < k <= ev.len(),
        tempo_set(ev[i0].kind) is Some,
        forall|i1: int| i0 < i1 < k ==> tempo_set((#[trigger] ev[i1]).kind) is None,
    ensures
        track_tempos(ev, k).len() > 0,
        track_tempos(ev, k).last().1 == tempo_set(ev[i0].kind).unwrap(),
    decreases k,
{
    if k > i0 + 1 {
        lemma_track_last_tempo(ev, k - 1, i0);
        assert(tempo_set(ev[k - 1].kind) is None);
        assert(track_tempos(ev, k) == track_tempos(ev, k - 1));
    }
}

proof fn lemma_track_no_tempo(ev: Seq<EventSpec>, k: int)
    requires
        0 <= k <= ev.len(),
        forall|i1: int| 0 <= i1 < k ==> tempo_set((#[trigger] ev[i1]).kind) is None,
    ensures
        track_tempos(ev, k).len() == 0,
    decreases k,
{
    if k > 0 {
        lemma_track_no_tempo(ev, k - 1);
        assert(tempo_set(ev[k - 1].kind) is None);
    }
}

proof fn lemma_upto_last_tempo(m: SmfModel, n: int, t0: int, i0: int)
    requires
        0 <= t0 < n <= m.tracks.len(),
        0 <= i0 < m.tracks[t0].len(),
        tempo_set(m.tracks[t0][i0].kind) is Some,
        forall|i1: int| i0 < i1 < m.tracks[t0].len() ==> tempo_set((#[trigger] m.tracks[t0][i1]).kind) is None,
        forall|t1: int, i1: int| t0 < t1 < n && 0 <= i1 < m.tracks[t1].len()
            ==> tempo_set((#[trigger] m.tracks[t1][i1]).kind) is None,
    ensures
        last_tempo(tempos_upto(m, n)) == tempo_set(m.tracks[t0][i0].kind).unwrap(),
    decreases n,
{
    let ev = m.tracks[n - 1];
    let tt = track_tempos(ev, ev.len() as int);
    assert(tempos_upto(m, n) == tempos_upto(m, n - 1) + tt);
    lemma_last_tempo_concat(tempos_upto(m, n - 1), tt);
    if n == t0 + 1 {
        lemma_track_last_tempo(ev, ev.len() as int, i0);
    } else {
        lemma_upto_last_tempo(m, n - 1, t0, i0);
        assert forall|i1: int| 0 <= i1 < ev.len() implies tempo_set((#[trigger] ev[i1]).kind) is None by {
            assert(ev[i1] == m.tracks[n - 1][i1]);
        }
        lemma_track_no_tempo(ev, ev.len() as int);
    }
}

proof fn lemma_upto_no_tempo(m: SmfModel, n: int)
    requires
        0 <= n <= m.tracks.len(),
        forall|t1: int, i1: int| 0 <= t1 < n && 0 <= i1 < m.tracks[t1].len()
            ==> tempo_set((#[trigger] m.tracks[t1][i1]).kind) is None,
    ensures
        tempos_upto(m, n).len() == 0,
    decreases n,
{
    if n > 0 {
        lemma_upto_no_tempo(m, n - 1);
        let ev = m.tracks[n - 1];
        assert forall|i1: int| 0 <= i1 < ev.len() implies tempo_set((#[trigger] ev[i1]).kind) is None by {
            assert(ev[i1] == m.tracks[n - 1][i1]);
        }
        lemma_track_no_tempo(ev, ev.len() as int);
    }
}

/// Reading in one pass times a note by the tempo of the last tempo event
/// read before the note ends: where event `i0` of track `t0` sets tempo `u`,
/// was read before the note ended (in an earlier track, or among the first
/// `r.read` events of the note's own track), and no tempo event was read
/// after it until then, the note starts at `start_tick * u` and lasts
/// `(end_tick - start_tick) * u`. Tempo events after the note's end play no
/// part.
pub proof fn law_note_timed_by_last_tempo_read(m: SmfModel, r: RawNote, t0: int, i0: int)
    requires
        0 <= r.track_index < m.tracks.len(),
        0 <= r.read <= m.tracks[r.track_index].len(),
        read_before(m, r.track_index, r.read, t0, i0),
        tempo_set(m.tracks[t0][i0].kind) is Some,
        forall|t1: int, i1: int| read_before(m, r.track_index, r.read, t1, i1) && (t1 > t0 || (t1 == t0 && i1 > i0))
            ==> tempo_set((#[trigger] m.tracks[t1][i1]).kind) is None,
    ensures
        running_note(m, r).start == r.start_tick * tempo_set(m.tracks[t0][i0].kind).unwrap(),
        running_note(m, r).length == (r.end_tick - r.start_tick) * tempo_set(m.tracks[t0][i0].kind).unwrap(),
{
    let tr = r.track_index;
    let k = r.read;
    let ev = m.tracks[tr];
    let u = tempo_set(m.tracks[t0][i0].kind).unwrap();
    lemma_last_tempo_concat(tempos_upto(m, tr), track_tempos(ev, k));
    if t0 == tr {
        assert forall|i1: int| i0 < i1 < k implies tempo_set((#[trigger] ev[i1]).kind) is None by {
            assert(read_before(m, tr, k, tr, i1));
        }
        lemma_track_last_tempo(ev, k, i0);
    } else {
        assert forall|i1: int| 0 <= i1 < k implies tempo_set((#[trigger] ev[i1]).kind) is None by {
            assert(read_before(m, tr, k, tr, i1));
        }
        lemma_track_no_tempo(ev, k);
        assert forall|i1: int| i0 < i1 < m.tracks[t0].len() implies tempo_set((#[trigger] m.tracks[t0][i1]).kind) is None by {
            assert(read_before(m, tr, k, t0, i1));
        }
        assert forall|t1: int, i1: int| t0 < t1 < tr && 0 <= i1 < m.tracks[t1].len()
            implies tempo_set((#[trigger] m.tracks[t1][i1]).kind) is None by {
            assert(read_before(m, tr, k, t1, i1));
        }
        lemma_upto_last_tempo(m, tr, t0, i0);
    }
    assert(running_tempo(m, tr, k) == u);
}

/// Where no tempo event was read before a note ended, reading in one pass
/// times it at 120 BPM (500000 microseconds per beat).
pub proof fn law_note_without_tempo_read(m: SmfModel, r: RawNote)
    requires
        0 <= r.track_index < m.tracks.len(),
        0 <= r.read <= m.tracks[r.track_index].len(),
        forall|t1: int, i1: int| read_before(m, r.track_index, r.read, t1, i1)
            ==> tempo_set((#[trigger] m.tracks[t1][i1]).kind) is None,
    ensures
        running_note(m, r).start == r.start_tick * 500000,
        running_note(m, r).length == (r.end_tick - r.start_tick) * 500000,
{
    let tr = r.track_index;
    let k = r.read;
    let ev = m.tracks[tr];
    lemma_last_tempo_concat(tempos_upto(m, tr), track_tempos(ev, k));
    assert forall|i1: int| 0 <= i1 < k implies tempo_set((#[trigger] ev[i1]).kind) is None by {
        assert(read_before(m, tr, k, tr, i1));
    }
    lemma_track_no_tempo(ev, k);
    assert forall|t1: int, i1: int| 0 <= t1 < tr && 0 <= i1 < m.tracks[t1].len()
        implies tempo_set((#[trigger] m.tracks[t1][i1]).kind) is None by {
        assert(read_before(m, tr, k, t1, i1));
    }
    lemma_upto_no_tempo(m, tr);
    assert(running_tempo(m, tr, k) == 500000);
}

} // verus!
