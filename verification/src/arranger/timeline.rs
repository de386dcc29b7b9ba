//! Where clips are placed: for each MIDI track, the clip that sounds each
//! note; and the choice of the clip nearest in pitch to each note.

use vstd::prelude::*;
use crate::midi::model::MidiNote;
use crate::sample::model::{SampleClip, pitch_distance};

verus! {

/// A clip placed on a note.
#[derive(Clone, Copy, Debug)]
pub struct PlacedClip {
    pub sample_id: usize,
    pub note_index: usize,
    /// Start time, in the time unit of the MIDI file.
    pub start_time: u128,
    /// Semitones by which the clip is shifted to reach the note.
    pub pitch_shift: i8,
}

/// The clips placed on the notes of one MIDI track.
#[derive(Clone, Debug)]
pub struct ArrangementTrack {
    pub midi_track_index: usize,
    pub clips: Vec<PlacedClip>,
}

/// The clips placed on every track.
#[derive(Clone, Debug)]
pub struct Arrangement {
    pub tracks: Vec<ArrangementTrack>,
}

/// The value of an arrangement track: its MIDI track and its clips.
pub open spec fn track_value(t: ArrangementTrack) -> (usize, Seq<PlacedClip>) {
    (t.midi_track_index, t.clips@)
}

impl View for Arrangement {
    type V = Seq<(usize, Seq<PlacedClip>)>;

    open spec fn view(&self) -> Seq<(usize, Seq<PlacedClip>)> {
        self.tracks@.map_values(|t: ArrangementTrack| track_value(t))
    }
}

/// The position of the first track for MIDI track `track`.
pub open spec fn track_position(ts: Seq<(usize, Seq<PlacedClip>)>, track: usize) -> Option<int>
    decreases ts.len(),
{
    if ts.len() == 0 {
        None
    } else {
        match track_position(ts.drop_last(), track) {
            Some(i) => Some(i),
            None => if ts.last().0 == track { Some(ts.len() - 1) } else { None },
        }
    }
}

/// The first clip placed on note `note`.
pub open spec fn clip_on_note(cs: Seq<PlacedClip>, note: usize) -> Option<PlacedClip>
    decreases cs.len(),
{
    if cs.len() == 0 {
        None
    } else {
        match clip_on_note(cs.drop_last(), note) {
            Some(c) => Some(c),
            None => if cs.last().note_index == note { Some(cs.last()) } else { None },
        }
    }
}

/// `cs` without the clips placed on note `note`.
pub open spec fn without_note(cs: Seq<PlacedClip>, note: usize) -> Seq<PlacedClip>
    decreases cs.len(),
{
    if cs.len() == 0 {
        cs
    } else if cs.last().note_index == note {
        without_note(cs.drop_last(), note)
    } else {
        without_note(cs.drop_last(), note).push(cs.last())
    }
}

/// The clip that an arrangement places on note `note` of MIDI track `track`.
pub open spec fn clip_for(ts: Seq<(usize, Seq<PlacedClip>)>, track: usize, note: usize) -> Option<PlacedClip> {
    match track_position(ts, track) {
        Some(i) => clip_on_note(ts[i].1, note),
        None => None,
    }
}

/// The tracks after placing `clip` on track `track`: the clip replaces those
/// on its note in the first track for `track`, or starts a new track.
pub open spec fn placed(ts: Seq<(usize, Seq<PlacedClip>)>, track: usize, clip: PlacedClip) -> Seq<(usize, Seq<PlacedClip>)> {
    match track_position(ts, track) {
        Some(i) => ts.update(i, (track, without_note(ts[i].1, clip.note_index).push(clip))),
        None => ts.push((track, seq![clip])),
    }
}

/// The tracks after removing the clips on note `note` of track `track`.
pub open spec fn removed(ts: Seq<(usize, Seq<PlacedClip>)>, track: usize, note: usize) -> Seq<(usize, Seq<PlacedClip>)> {
    match track_position(ts, track) {
        Some(i) => ts.update(i, (track, without_note(ts[i].1, note))),
        None => ts,
    }
}

proof fn lemma_track_position(ts: Seq<(usize, Seq<PlacedClip>)>, track: usize)
    ensures
        track_position(ts, track) matches Some(i) ==> 0 <= i < ts.len() && ts[i].0 == track
            && forall|j: int| 0 <= j < i ==> (#[trigger] ts[j]).0 != track,
        track_position(ts, track) is None ==> forall|j: int| 0 <= j < ts.len() ==> (#[trigger] ts[j]).0 != track,
    decreases ts.len(),
{
    if ts.len() > 0 {
        let d = ts.drop_last();
        lemma_track_position(d, track);
        assert forall|j: int| 0 <= j < d.len() implies d[j] == ts[j] by {}
        assert(ts[ts.len() - 1] == ts.last());
    }
}

/// Finds the position of the first track for MIDI track `track`.
fn find_track(tracks: &Vec<ArrangementTrack>, track: usize) -> (res: Option<usize>)
    ensures
        match res {
            Some(i) => i < tracks@.len() && track_position(tracks@.map_values(|t: ArrangementTrack| track_value(t)), track) == Some(i as int),
            None => track_position(tracks@.map_values(|t: ArrangementTrack| track_value(t)), track) is None,
        },
{
    let ghost v = tracks@.map_values(|t: ArrangementTrack| track_value(t));
    let mut i: usize = 0;
    while i < tracks.len()
        invariant
            i <= tracks@.len(),
            v == tracks@.map_values(|t: ArrangementTrack| track_value(t)),
            track_position(v.subrange(0, i as int), track) is None,
        decreases tracks@.len() - i,
    {
        proof {
            let p = v.subrange(0, i + 1);
            assert(p.drop_last() =~= v.subrange(0, i as int));
            assert(p.last() == track_value(tracks@[i as int]));
        }
        if tracks[i].midi_track_index == track {
            proof {
                lemma_track_position(v, track);
                lemma_track_position(v.subrange(0, i as int), track);
                if let Some(k) = track_position(v, track) {
                    if k < i {
                        assert(v.subrange(0, i as int)[k] == v[k]);
                    }
                }
            }
            return Some(i);
        }
        i = i + 1;
    }
    assert(v.subrange(0, i as int) == v);
    None
}

/// The clips of `cs` not placed on note `note`.
fn clips_without_note(cs: &Vec<PlacedClip>, note: usize) -> (res: Vec<PlacedClip>)
    ensures
        res@ == without_note(cs@, note),
{
    let mut res: Vec<PlacedClip> = Vec::new();
    let mut i: usize = 0;
    while i < cs.len()
        invariant
            i <= cs@.len(),
            res@ == without_note(cs@.subrange(0, i as int), note),
        decreases cs@.len() - i,
    {
        proof {
            let p = cs@.subrange(0, i + 1);
            assert(p.drop_last() =~= cs@.subrange(0, i as int));
            assert(p.last() == cs@[i as int]);
        }
        let c = cs[i];
        if c.note_index != note {
            res.push(c);
        }
        i = i + 1;
    }
    assert(cs@.subrange(0, i as int) == cs@);
    res
}

impl Arrangement {
    /// An arrangement without tracks.
    pub fn new() -> (a: Self)
        ensures
            a@ == Seq::<(usize, Seq<PlacedClip>)>::empty(),
    {
        let a = Arrangement { tracks: Vec::new() };
        assert(a@ =~= Seq::<(usize, Seq<PlacedClip>)>::empty());
        a
    }

    /// Removes every track.
    pub fn clear(&mut self)
        ensures
            final(self)@ == Seq::<(usize, Seq<PlacedClip>)>::empty(),
    {
        self.tracks.clear();
        assert(self@ =~= Seq::<(usize, Seq<PlacedClip>)>::empty());
    }

    /// The clip placed on note `note_index` of MIDI track `track_index`.
    pub fn get_clip_for_note(&self, track_index: usize, note_index: usize) -> (res: Option<&PlacedClip>)
        ensures
            match res {
                Some(c) => clip_for(self@, track_index, note_index) == Some(*c),
                None => clip_for(self@, track_index, note_index) is None,
            },
    {
        match find_track(&self.tracks, track_index) {
            Some(i) => {
                let cs = &self.tracks[i].clips;
                assert(self@[i as int].1 == cs@);
                let mut j: usize = 0;
                while j < cs.len()
                    invariant
                        j <= cs@.len(),
                        i < self.tracks@.len(),
                        cs@ == self@[i as int].1,
                        track_position(self@, track_index) == Some(i as int),
                        clip_on_note(cs@.subrange(0, j as int), note_index) is None,
                    decreases cs@.len() - j,
                {
                    proof {
                        let p = cs@.subrange(0, j + 1);
                        assert(p.drop_last() =~= cs@.subrange(0, j as int));
                        assert(p.last() == cs@[j as int]);
                    }
                    if cs[j].note_index == note_index {
                        proof { lemma_clip_on_note_prefix(cs@, note_index, j + 1); }
                        return Some(&cs[j]);
                    }
                    j = j + 1;
                }
                assert(cs@.subrange(0, j as int) == cs@);
                None
            },
            None => None,
        }
    }

    /// Places `clip` on MIDI track `track_index`, replacing the clips on the
    /// same note there.
    pub fn place_clip(&mut self, track_index: usize, clip: PlacedClip)
        ensures
            final(self)@ == placed(old(self)@, track_index, clip),
    {
        let ghost before = self@;
        match find_track(&self.tracks, track_index) {
            Some(i) => {
                let mut kept = clips_without_note(&self.tracks[i].clips, clip.note_index);
                kept.push(clip);
                let t = ArrangementTrack { midi_track_index: track_index, clips: kept };
                proof { lemma_track_position(before, track_index); }
                self.tracks.set(i, t);
                assert(self@ =~= placed(before, track_index, clip));
            },
            None => {
                let mut cs: Vec<PlacedClip> = Vec::new();
                cs.push(clip);
                self.tracks.push(ArrangementTrack { midi_track_index: track_index, clips: cs });
                assert(self@ =~= placed(before, track_index, clip));
            },
        }
    }

    /// Removes the clips on note `note_index` of MIDI track `track_index`.
    pub fn remove_clip(&mut self, track_index: usize, note_index: usize)
        ensures
            final(self)@ == removed(old(self)@, track_index, note_index),
    {
        let ghost before = self@;
        match find_track(&self.tracks, track_index) {
            Some(i) => {
                let kept = clips_without_note(&self.tracks[i].clips, note_index);
                let t = ArrangementTrack { midi_track_index: track_index, clips: kept };
                proof { lemma_track_position(before, track_index); }
                self.tracks.set(i, t);
                assert(self@ =~= removed(before, track_index, note_index));
            },
            None => {},
        }
    }
}

proof fn lemma_clip_on_note_prefix(s: Seq<PlacedClip>, note: usize, n: int)
    requires
        0 <= n <= s.len(),
        clip_on_note(s.subrange(0, n), note) is Some,
    ensures
        clip_on_note(s, note) == clip_on_note(s.subrange(0, n), note),
    decreases s.len() - n,
{
    if n < s.len() {
        let q = s.subrange(0, n + 1);
        assert(q.drop_last() =~= s.subrange(0, n));
        lemma_clip_on_note_prefix(s, note, n + 1);
    } else {
        assert(s.subrange(0, n) == s);
    }
}


proof fn lemma_without_note(cs: Seq<PlacedClip>, note: usize, other: usize)
    ensures
        clip_on_note(without_note(cs, note), note) is None,
        other != note ==> clip_on_note(without_note(cs, note), other) == clip_on_note(cs, other),
    decreases cs.len(),
{
    if cs.len() > 0 {
        let d = cs.drop_last();
        lemma_without_note(d, note, other);
        if cs.last().note_index != note {
            assert(without_note(cs, note).drop_last() =~= without_note(d, note));
        }
    }
}

proof fn lemma_on_note_push(cs: Seq<PlacedClip>, c: PlacedClip, other: usize)
    requires
        clip_on_note(cs, c.note_index) is None,
    ensures
        clip_on_note(cs.push(c), c.note_index) == Some(c),
        other != c.note_index ==> clip_on_note(cs.push(c), other) == clip_on_note(cs, other),
{
    assert(cs.push(c).drop_last() =~= cs);
}

proof fn lemma_position_update(ts: Seq<(usize, Seq<PlacedClip>)>, i: int, x: Seq<PlacedClip>, other: usize)
    requires
        0 <= i < ts.len(),
    ensures
        track_position(ts.update(i, (ts[i].0, x)), other) == track_position(ts, other),
    decreases ts.len(),
{
    let u = ts.update(i, (ts[i].0, x));
    if i < ts.len() - 1 {
        lemma_position_update(ts.drop_last(), i, x, other);
        assert(u.drop_last() =~= ts.drop_last().update(i, (ts[i].0, x)));
    } else {
        assert(u.drop_last() =~= ts.drop_last());
    }
}

proof fn lemma_position_push(ts: Seq<(usize, Seq<PlacedClip>)>, e: (usize, Seq<PlacedClip>), other: usize)
    ensures
        track_position(ts, other) is Some ==> track_position(ts.push(e), other) == track_position(ts, other),
        track_position(ts, other) is None && e.0 == other ==> track_position(ts.push(e), other) == Some(ts.len() as int),
        track_position(ts, other) is None && e.0 != other ==> track_position(ts.push(e), other) is None,
{
    assert(ts.push(e).drop_last() =~= ts);
}

/// Reading back a placement gives it: after `place_clip(track, clip)`,
/// `get_clip_for_note(track, clip.note_index)` is `clip`.
pub proof fn law_place_then_get(ts: Seq<(usize, Seq<PlacedClip>)>, track: usize, clip: PlacedClip)
    ensures
        clip_for(placed(ts, track, clip), track, clip.note_index) == Some(clip),
{
    lemma_track_position(ts, track);
    match track_position(ts, track) {
        Some(i) => {
            lemma_position_update(ts, i, without_note(ts[i].1, clip.note_index).push(clip), track);
            lemma_without_note(ts[i].1, clip.note_index, clip.note_index);
            lemma_on_note_push(without_note(ts[i].1, clip.note_index), clip, clip.note_index);
        },
        None => {
            lemma_position_push(ts, (track, seq![clip]), track);
            lemma_on_note_push(Seq::empty(), clip, clip.note_index);
            assert(Seq::<PlacedClip>::empty().push(clip) =~= seq![clip]);
        },
    }
}

/// Placing a clip changes no other note: after `place_clip(track, clip)`,
/// every other (track, note) pair reads back what it read before.
pub proof fn law_place_keeps_others(ts: Seq<(usize, Seq<PlacedClip>)>, track: usize, clip: PlacedClip, t2: usize, n2: usize)
    requires
        t2 != track || n2 != clip.note_index,
    ensures
        clip_for(placed(ts, track, clip), t2, n2) == clip_for(ts, t2, n2),
{
    lemma_track_position(ts, track);
    match track_position(ts, track) {
        Some(i) => {
            let w = without_note(ts[i].1, clip.note_index);
            let u = ts.update(i, (track, w.push(clip)));
            assert(u == placed(ts, track, clip));
            lemma_position_update(ts, i, w.push(clip), t2);
            assert(track_position(u, t2) == track_position(ts, t2));
            lemma_track_position(ts, t2);
            if t2 == track {
                lemma_without_note(ts[i].1, clip.note_index, n2);
                lemma_on_note_push(w, clip, n2);
                assert(u[i].1 == w.push(clip));
            } else {
                if let Some(j) = track_position(ts, t2) {
                    assert(j != i);
                    assert(u[j] == ts[j]);
                }
            }
        },
        None => {
            lemma_position_push(ts, (track, seq![clip]), t2);
            lemma_track_position(ts, t2);
            if t2 == track {
                lemma_on_note_push(Seq::empty(), clip, n2);
                assert(Seq::<PlacedClip>::empty().push(clip) =~= seq![clip]);
            }
        },
    }
}

/// After `remove_clip(track, note)`, no clip is placed on that note.
pub proof fn law_remove_then_get(ts: Seq<(usize, Seq<PlacedClip>)>, track: usize, note: usize)
    ensures
        clip_for(removed(ts, track, note), track, note) is None,
{
    lemma_track_position(ts, track);
    match track_position(ts, track) {
        Some(i) => {
            lemma_position_update(ts, i, without_note(ts[i].1, note), track);
            lemma_without_note(ts[i].1, note, note);
        },
        None => {},
    }
}

/// Removing a clip changes no other note.
pub proof fn law_remove_keeps_others(ts: Seq<(usize, Seq<PlacedClip>)>, track: usize, note: usize, t2: usize, n2: usize)
    requires
        t2 != track || n2 != note,
    ensures
        clip_for(removed(ts, track, note), t2, n2) == clip_for(ts, t2, n2),
{
    lemma_track_position(ts, track);
    match track_position(ts, track) {
        Some(i) => {
            lemma_position_update(ts, i, without_note(ts[i].1, note), t2);
            lemma_track_position(ts, t2);
            if t2 == track {
                lemma_without_note(ts[i].1, note, n2);
            }
        },
        None => {},
    }
}

/// A cleared arrangement places no clip anywhere.
pub proof fn law_cleared_is_empty(track: usize, note: usize)
    ensures
        clip_for(Seq::<(usize, Seq<PlacedClip>)>::empty(), track, note) is None,
{
}


/// The clip of `s` nearest in pitch to `key`, at most `max` semitones away;
/// of several equally near, the first.
pub open spec fn best_sample(s: Seq<SampleClip>, key: u8, max: u8) -> Option<SampleClip>
    decreases s.len(),
{
    if s.len() == 0 {
        None
    } else {
        let prev = best_sample(s.drop_last(), key, max);
        let c = s.last();
        if pitch_distance(c.pitch, key) <= max
            && (prev is None || pitch_distance(c.pitch, key) < pitch_distance(prev.unwrap().pitch, key)) {
            Some(c)
        } else {
            prev
        }
    }
}

/// A byte read as a signed byte (`u8 as i8`).
pub open spec fn as_signed(x: u8) -> int {
    if x < 128 { x as int } else { x - 256 }
}

/// An integer wrapped into the range of `i8`.
pub open spec fn wrap_i8(v: int) -> int {
    if v > 127 { v - 256 } else if v < -128 { v + 256 } else { v }
}

/// The shift from a clip's pitch to a note's key, as signed bytes:
/// `key as i8 - pitch as i8`.
pub open spec fn shift_between(key: u8, pitch: u8) -> int {
    wrap_i8(as_signed(key) - as_signed(pitch))
}

/// The placements for `notes`: for each note in order that some clip is near
/// enough to, the nearest clip, placed at the note's start.
pub open spec fn placements(notes: Seq<MidiNote>, samples: Seq<SampleClip>, max: u8) -> Seq<PlacedClip>
    decreases notes.len(),
{
    if notes.len() == 0 {
        Seq::empty()
    } else {
        let prev = placements(notes.drop_last(), samples, max);
        let n = notes.last();
        match best_sample(samples, n.key, max) {
            Some(c) => prev.push(PlacedClip {
                sample_id: c.id,
                note_index: (notes.len() - 1) as usize,
                start_time: n.start,
                pitch_shift: shift_between(n.key, c.pitch) as i8,
            }),
            None => prev,
        }
    }
}

/// The nearest clip to `key`, at most `max` semitones away.
fn nearest_sample(samples: &[SampleClip], key: u8, max: u8) -> (res: Option<usize>)
    ensures
        match res {
            Some(j) => j < samples@.len() && best_sample(samples@, key, max) == Some(samples@[j as int]),
            None => best_sample(samples@, key, max) is None,
        },
{
    let mut best: Option<usize> = None;
    let mut best_d: u8 = 0;
    let mut j: usize = 0;
    while j < samples.len()
        invariant
            j <= samples@.len(),
            match best {
                Some(b) => b < j && best_sample(samples@.subrange(0, j as int), key, max) == Some(samples@[b as int])
                    && best_d == pitch_distance(samples@[b as int].pitch, key),
                None => best_sample(samples@.subrange(0, j as int), key, max) is None,
            },
        decreases samples@.len() - j,
    {
        proof {
            let p = samples@.subrange(0, j + 1);
            assert(p.drop_last() =~= samples@.subrange(0, j as int));
            assert(p.last() == samples@[j as int]);
        }
        let p = samples[j].pitch;
        let d = if p >= key { p - key } else { key - p };
        if d <= max {
            let better = match best {
                Some(_) => d < best_d,
                None => true,
            };
            if better {
                best = Some(j);
                best_d = d;
            }
        }
        j = j + 1;
    }
    assert(samples@.subrange(0, j as int) == samples@);
    best
}

/// `key as i8 - pitch as i8`, wrapped into `i8`.
fn pitch_shift_of(key: u8, pitch: u8) -> (s: i8)
    ensures
        s as int == shift_between(key, pitch),
{
    let a: i16 = if key < 128 { key as i16 } else { key as i16 - 256 };
    let b: i16 = if pitch < 128 { pitch as i16 } else { pitch as i16 - 256 };
    let d = a - b;
    let w = if d > 127 { d - 256 } else if d < -128 { d + 256 } else { d };
    w as i8
}

/// Places on every note the clip nearest to its key, at most `max_semitones`
/// away (the first of equally near clips), shifted to the note's key; notes
/// with no clip near enough get none.
pub fn auto_match(notes: &[MidiNote], samples: &[SampleClip], max_semitones: u8) -> (res: Vec<PlacedClip>)
    ensures
        res@ == placements(notes@, samples@, max_semitones),
{
    let mut res: Vec<PlacedClip> = Vec::new();
    let mut i: usize = 0;
    while i < notes.len()
        invariant
            i <= notes@.len(),
            res@ == placements(notes@.subrange(0, i as int), samples@, max_semitones),
        decreases notes@.len() - i,
    {
        proof {
            let p = notes@.subrange(0, i + 1);
            assert(p.drop_last() =~= notes@.subrange(0, i as int));
            assert(p.last() == notes@[i as int]);
        }
        let note = &notes[i];
        match nearest_sample(samples, note.key, max_semitones) {
            Some(j) => {
                let s = &samples[j];
                res.push(PlacedClip {
                    sample_id: s.id,
                    note_index: i,
                    start_time: note.start,
                    pitch_shift: pitch_shift_of(note.key, s.pitch),
                });
            },
            None => {},
        }
        i = i + 1;
    }
    assert(notes@.subrange(0, i as int) == notes@);
    res
}

/// The chosen clip is a nearest one: it is one of the clips, at most `max`
/// semitones from the key, and no clip within reach is nearer; where none is
/// chosen, every clip is farther than `max`.
pub proof fn law_best_sample_is_nearest(s: Seq<SampleClip>, key: u8, max: u8)
    ensures
        best_sample(s, key, max) matches Some(c) ==> {
            &&& pitch_distance(c.pitch, key) <= max
            &&& exists|i: int| 0 <= i < s.len() && s[i] == c
            &&& forall|j: int| 0 <= j < s.len() && pitch_distance((#[trigger] s[j]).pitch, key) <= max
                ==> pitch_distance(c.pitch, key) <= pitch_distance(s[j].pitch, key)
        },
        best_sample(s, key, max) is None ==> forall|j: int| 0 <= j < s.len()
            ==> pitch_distance((#[trigger] s[j]).pitch, key) > max,
    decreases s.len(),
{
    if s.len() > 0 {
        let d = s.drop_last();
        law_best_sample_is_nearest(d, key, max);
        let last = s.last();
        assert(s[s.len() - 1] == last);
        match best_sample(s, key, max) {
            Some(c) => {
                assert forall|j: int| 0 <= j < s.len() && pitch_distance((#[trigger] s[j]).pitch, key) <= max
                    implies pitch_distance(c.pitch, key) <= pitch_distance(s[j].pitch, key) by {
                    if j < d.len() {
                        assert(d[j] == s[j]);
                    }
                }
                if let Some(c0) = best_sample(d, key, max) {
                    let i = choose|i: int| 0 <= i < d.len() && d[i] == c0;
                    assert(s[i] == c0);
                }
            },
            None => {
                assert forall|j: int| 0 <= j < s.len() implies pitch_distance((#[trigger] s[j]).pitch, key) > max by {
                    if j < d.len() {
                        assert(d[j] == s[j]);
                    }
                }
            },
        }
    }
}

/// For keys and pitches in the MIDI range the shift is the difference in semitones.
pub proof fn law_shift_is_difference(key: u8, pitch: u8)
    requires
        key < 128,
        pitch < 128,
    ensures
        shift_between(key, pitch) == key - pitch,
{
}

/// Clip `j` of `samples` has id `id`, lies at most `max` semitones from
/// `key` (above or below), and no clip within reach lies nearer.
pub open spec fn nearest_with_id(samples: Seq<SampleClip>, key: u8, max: u8, j: int, id: usize) -> bool {
    &&& 0 <= j < samples.len()
    &&& samples[j].id == id
    &&& samples[j].pitch - key <= max && key - samples[j].pitch <= max
    &&& forall|k: int| 0 <= k < samples.len()
        && (#[trigger] samples[k]).pitch - key <= max && key - samples[k].pitch <= max
        ==> (if samples[j].pitch >= key { samples[j].pitch - key } else { key - samples[j].pitch })
            <= (if samples[k].pitch >= key { samples[k].pitch - key } else { key - samples[k].pitch })
}

/// Some clip of `samples` with id `id` is a nearest one to `key` within `max`.
pub open spec fn names_nearest(samples: Seq<SampleClip>, key: u8, max: u8, id: usize) -> bool {
    exists|j: int| #[trigger] nearest_with_id(samples, key, max, j, id)
}

proof fn lemma_best_names_nearest(samples: Seq<SampleClip>, key: u8, max: u8)
    requires
        best_sample(samples, key, max) is Some,
    ensures
        names_nearest(samples, key, max, best_sample(samples, key, max).unwrap().id),
{
    law_best_sample_is_nearest(samples, key, max);
    let c = best_sample(samples, key, max).unwrap();
    let j = choose|j: int| 0 <= j < samples.len() && samples[j] == c;
    assert forall|k: int| 0 <= k < samples.len()
        && (#[trigger] samples[k]).pitch - key <= max && key - samples[k].pitch <= max
        implies pitch_distance(samples[j].pitch, key) <= pitch_distance(samples[k].pitch, key) by {
        assert(pitch_distance(samples[k].pitch, key) <= max);
    }
    assert(nearest_with_id(samples, key, max, j, c.id));
}

/// Every placement that `auto_match` makes names, by its id, a clip of the
/// library nearest to its note: the note exists and the placement starts
/// with it, some clip with that id lies at most `max` semitones from the
/// note's key (above or below), and no clip within reach lies nearer. Notes
/// are placed in order, once each, and every note with a clip within reach
/// gets a placement. (The notes are those of a slice, so their number fits
/// in `usize`.)
pub proof fn law_placements_name_nearest_clips(notes: Seq<MidiNote>, samples: Seq<SampleClip>, max: u8)
    requires
        notes.len() <= usize::MAX,
    ensures
        forall|i: int| 0 <= i < placements(notes, samples, max).len() ==> {
            let p = #[trigger] placements(notes, samples, max)[i];
            &&& p.note_index < notes.len()
            &&& p.start_time == notes[p.note_index as int].start
            &&& names_nearest(samples, notes[p.note_index as int].key, max, p.sample_id)
        },
        forall|i: int, j: int| 0 <= i < j < placements(notes, samples, max).len()
            ==> (#[trigger] placements(notes, samples, max)[i]).note_index
                < (#[trigger] placements(notes, samples, max)[j]).note_index,
        forall|n: int| 0 <= n < notes.len()
            && (exists|k: int| 0 <= k < samples.len()
                && samples[k].pitch - (#[trigger] notes[n]).key <= max && notes[n].key - samples[k].pitch <= max)
            ==> exists|i: int| 0 <= i < placements(notes, samples, max).len()
                && (#[trigger] placements(notes, samples, max)[i]).note_index == n,
    decreases notes.len(),
{
    if notes.len() > 0 {
        let d = notes.drop_last();
        law_placements_name_nearest_clips(d, samples, max);
        let prev = placements(d, samples, max);
        let ps = placements(notes, samples, max);
        let last = notes.last();
        law_best_sample_is_nearest(samples, last.key, max);
        assert forall|q: int| 0 <= q < d.len() implies #[trigger] d[q] == notes[q] by {}
        match best_sample(samples, last.key, max) {
            Some(c) => {
                lemma_best_names_nearest(samples, last.key, max);
                assert(ps == prev.push(ps.last()));
                assert forall|i: int| 0 <= i < ps.len() implies ({
                    let p = #[trigger] ps[i];
                    &&& p.note_index < notes.len()
                    &&& p.start_time == notes[p.note_index as int].start
                    &&& names_nearest(samples, notes[p.note_index as int].key, max, p.sample_id)
                }) by {
                    if i < prev.len() {
                        assert(ps[i] == prev[i]);
                        assert(notes[prev[i].note_index as int] == d[prev[i].note_index as int]);
                    } else {
                        assert(ps[i].note_index == notes.len() - 1);
                    }
                }
                assert forall|i: int, j: int| 0 <= i < j < ps.len()
                    implies (#[trigger] ps[i]).note_index < (#[trigger] ps[j]).note_index by {
                    assert(ps[i] == prev[i]);
                    if j < prev.len() {
                        assert(ps[j] == prev[j]);
                    }
                }
                assert forall|n: int| 0 <= n < notes.len()
                    && (exists|k: int| 0 <= k < samples.len()
                        && samples[k].pitch - (#[trigger] notes[n]).key <= max && notes[n].key - samples[k].pitch <= max)
                    implies exists|i: int| 0 <= i < ps.len() && (#[trigger] ps[i]).note_index == n by {
                    if n < d.len() {
                        assert(d[n] == notes[n]);
                        let i = choose|i: int| 0 <= i < prev.len() && (#[trigger] prev[i]).note_index == n;
                        assert(ps[i] == prev[i]);
                    } else {
                        assert(ps[ps.len() - 1].note_index == n);
                    }
                }
            },
            None => {
                assert(ps == prev);
                assert forall|i: int| 0 <= i < ps.len() implies
                    notes[(#[trigger] ps[i]).note_index as int] == d[ps[i].note_index as int] by {}
                assert forall|n: int| 0 <= n < notes.len()
                    && (exists|k: int| 0 <= k < samples.len()
                        && samples[k].pitch - (#[trigger] notes[n]).key <= max && notes[n].key - samples[k].pitch <= max)
                    implies exists|i: int| 0 <= i < ps.len() && (#[trigger] ps[i]).note_index == n by {
                    if n < d.len() {
                        assert(d[n] == notes[n]);
                    } else {
                        let k = choose|k: int| 0 <= k < samples.len()
                            && samples[k].pitch - notes[n].key <= max && notes[n].key - samples[k].pitch <= max;
                        assert(pitch_distance((samples[k]).pitch, last.key) <= max);
                    }
                }
            },
        }
    }
}

} // verus!
