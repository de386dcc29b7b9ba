//! What a MIDI file becomes for arranging: its tracks and its notes, with
//! exact times.
//!
//! A time `t` of a file stands for `t / (ticks_per_beat * 1_000_000)` seconds:
//! a note that starts at tick `k` while the tempo is `u` microseconds per beat
//! starts at time `k * u`.

use vstd::prelude::*;

verus! {

/// A note of the file.
#[derive(Clone, Debug)]
pub struct MidiNote {
    pub key: u8,
    pub pitch: String,
    /// Start time (see the module documentation for the unit).
    pub start: u128,
    /// Length, in the same unit as `start`.
    pub length: u128,
    pub velocity: u8,
    pub channel: u8,
    pub track_index: usize,
}

/// A track that holds at least one note.
#[derive(Clone, Debug)]
pub struct MidiTrack {
    pub name: String,
    pub note_count: usize,
    pub channel: u8,
}

/// A parsed MIDI file.
#[derive(Clone, Debug)]
pub struct MidiData {
    pub file_name: String,
    pub tracks: Vec<MidiTrack>,
    /// Notes in order of their start times.
    pub notes: Vec<MidiNote>,
    /// The tempo of the file, in microseconds per beat (500000 is 120 BPM).
    pub tempo: u32,
    /// Ticks per beat: the unit of times is `ticks_per_beat * 1_000_000` per second.
    pub ticks_per_beat: u16,
}

/// The value of a [`MidiNote`].
pub struct NoteModel {
    pub key: u8,
    pub pitch: Seq<char>,
    pub start: int,
    pub length: int,
    pub velocity: u8,
    pub channel: u8,
    pub track_index: int,
}

/// The value of a [`MidiTrack`].
pub struct TrackModel {
    pub name: Seq<char>,
    pub note_count: int,
    pub channel: u8,
}

/// The value of a [`MidiData`].
pub struct DataModel {
    pub file_name: Seq<char>,
    pub tracks: Seq<TrackModel>,
    pub notes: Seq<NoteModel>,
    pub tempo: u32,
    pub ticks_per_beat: u16,
}

impl View for MidiNote {
    type V = NoteModel;

    open spec fn view(&self) -> NoteModel {
        NoteModel {
            key: self.key,
            pitch: self.pitch@,
            start: self.start as int,
            length: self.length as int,
            velocity: self.velocity,
            channel: self.channel,
            track_index: self.track_index as int,
        }
    }
}

impl View for MidiTrack {
    type V = TrackModel;

    open spec fn view(&self) -> TrackModel {
        TrackModel { name: self.name@, note_count: self.note_count as int, channel: self.channel }
    }
}

/// The values of a sequence of notes.
pub open spec fn notes_view(s: Seq<MidiNote>) -> Seq<NoteModel> {
    s.map_values(|n: MidiNote| n@)
}

/// The values of a sequence of tracks.
pub open spec fn tracks_view(s: Seq<MidiTrack>) -> Seq<TrackModel> {
    s.map_values(|t: MidiTrack| t@)
}

impl View for MidiData {
    type V = DataModel;

    open spec fn view(&self) -> DataModel {
        DataModel {
            file_name: self.file_name@,
            tracks: tracks_view(self.tracks@),
            notes: notes_view(self.notes@),
            tempo: self.tempo,
            ticks_per_beat: self.ticks_per_beat,
        }
    }
}


/// The latest end time (start plus length) of the notes, 0 for no notes.
pub open spec fn latest_end(s: Seq<NoteModel>) -> int
    decreases s.len(),
{
    if s.len() == 0 {
        0
    } else {
        let prev = latest_end(s.drop_last());
        let e = s.last().start + s.last().length;
        if e > prev { e } else { prev }
    }
}

/// The latest end time of the notes, or `u128::MAX` where it lies beyond.
pub open spec fn capped_end(s: Seq<NoteModel>) -> int {
    if latest_end(s) > u128::MAX { u128::MAX as int } else { latest_end(s) }
}

/// The notes of track `track`, in their order.
pub open spec fn notes_of_track(s: Seq<NoteModel>, track: int) -> Seq<NoteModel>
    decreases s.len(),
{
    if s.len() == 0 {
        s
    } else if s.last().track_index == track {
        notes_of_track(s.drop_last(), track).push(s.last())
    } else {
        notes_of_track(s.drop_last(), track)
    }
}

/// The lowest key of the notes, if any.
pub open spec fn lowest_key(s: Seq<NoteModel>) -> Option<u8>
    decreases s.len(),
{
    if s.len() == 0 {
        None
    } else {
        match lowest_key(s.drop_last()) {
            Some(k) => if s.last().key < k { Some(s.last().key) } else { Some(k) },
            None => Some(s.last().key),
        }
    }
}

/// The highest key of the notes, if any.
pub open spec fn highest_key(s: Seq<NoteModel>) -> Option<u8>
    decreases s.len(),
{
    if s.len() == 0 {
        None
    } else {
        match highest_key(s.drop_last()) {
            Some(k) => if s.last().key > k { Some(s.last().key) } else { Some(k) },
            None => Some(s.last().key),
        }
    }
}

impl MidiData {
    /// When the last note ends: the largest start plus length, 0 without
    /// notes; `u128::MAX` where that lies beyond it.
    pub fn total_duration(&self) -> (d: u128)
        ensures
            d == capped_end(self@.notes),
    {
        let mut best: u128 = 0;
        let mut i: usize = 0;
        while i < self.notes.len()
            invariant
                i <= self.notes@.len(),
                best == capped_end(notes_view(self.notes@.subrange(0, i as int))),
            decreases self.notes@.len() - i,
        {
            let n = &self.notes[i];
            proof {
                let v = notes_view(self.notes@.subrange(0, i + 1));
                assert(v.drop_last() =~= notes_view(self.notes@.subrange(0, i as int)));
                assert(v.last() == n@);
            }
            let e = n.start.saturating_add(n.length);
            if e > best {
                best = e;
            }
            i = i + 1;
        }
        assert(self.notes@.subrange(0, self.notes@.len() as int) == self.notes@);
        best
    }

    /// The notes of track `track_index`, in their order.
    pub fn notes_for_track(&self, track_index: usize) -> (res: Vec<&MidiNote>)
        ensures
            res@.map_values(|r: &MidiNote| r@) == notes_of_track(self@.notes, track_index as int),
    {
        let mut res: Vec<&MidiNote> = Vec::new();
        let mut i: usize = 0;
        while i < self.notes.len()
            invariant
                i <= self.notes@.len(),
                res@.map_values(|r: &MidiNote| r@)
                    == notes_of_track(notes_view(self.notes@.subrange(0, i as int)), track_index as int),
            decreases self.notes@.len() - i,
        {
            let n = &self.notes[i];
            let ghost before = res@;
            proof {
                let v = notes_view(self.notes@.subrange(0, i + 1));
                assert(v.drop_last() =~= notes_view(self.notes@.subrange(0, i as int)));
                assert(v.last() == n@);
            }
            if n.track_index == track_index {
                res.push(n);
                assert(res@.map_values(|r: &MidiNote| r@) =~= before.map_values(|r: &MidiNote| r@).push(n@));
            }
            i = i + 1;
        }
        assert(self.notes@.subrange(0, self.notes@.len() as int) == self.notes@);
        res
    }

    /// The lowest and highest keys of the notes; (0, 127) without notes.
    pub fn pitch_range(&self) -> (r: (u8, u8))
        ensures
            r.0 == match lowest_key(self@.notes) { Some(k) => k, None => 0u8 },
            r.1 == match highest_key(self@.notes) { Some(k) => k, None => 127u8 },
    {
        let mut lo: Option<u8> = None;
        let mut hi: Option<u8> = None;
        let mut i: usize = 0;
        while i < self.notes.len()
            invariant
                i <= self.notes@.len(),
                lo == lowest_key(notes_view(self.notes@.subrange(0, i as int))),
                hi == highest_key(notes_view(self.notes@.subrange(0, i as int))),
            decreases self.notes@.len() - i,
        {
            let k = self.notes[i].key;
            proof {
                let v = notes_view(self.notes@.subrange(0, i + 1));
                assert(v.drop_last() =~= notes_view(self.notes@.subrange(0, i as int)));
                assert(v.last().key == k);
            }
            lo = match lo {
                Some(m) => if k < m { Some(k) } else { Some(m) },
                None => Some(k),
            };
            hi = match hi {
                Some(m) => if k > m { Some(k) } else { Some(m) },
                None => Some(k),
            };
            i = i + 1;
        }
        assert(self.notes@.subrange(0, self.notes@.len() as int) == self.notes@);
        let a = match lo {
            Some(k) => k,
            None => 0,
        };
        let b = match hi {
            Some(k) => k,
            None => 127,
        };
        (a, b)
    }
}

/// `notes_for_track(t)` gives exactly the notes of track `t`, in the order
/// of the file: the notes filtered by their track index.
pub proof fn law_track_notes_are_those_of_the_track(s: Seq<NoteModel>, track: int)
    ensures
        notes_of_track(s, track) == s.filter(|n: NoteModel| n.track_index == track),
        forall|n: NoteModel| #[trigger] notes_of_track(s, track).contains(n)
            <==> (s.contains(n) && n.track_index == track),
    decreases s.len(),
{
    let pred = |n: NoteModel| n.track_index == track;
    reveal(Seq::filter);
    if s.len() > 0 {
        law_track_notes_are_those_of_the_track(s.drop_last(), track);
    }
    assert(notes_of_track(s, track) == s.filter(pred));
    assert forall|n: NoteModel| #[trigger] notes_of_track(s, track).contains(n)
        <==> (s.contains(n) && pred(n)) by {
        if s.filter(pred).contains(n) {
            s.lemma_filter_contains_rev(pred, n);
            let i = choose|i: int| 0 <= i < s.filter(pred).len() && s.filter(pred)[i] == n;
            s.lemma_filter_pred(pred, i);
        }
        if s.contains(n) && pred(n) {
            let i = choose|i: int| 0 <= i < s.len() && s[i] == n;
            s.lemma_filter_contains(pred, i);
        }
    }
}

} // verus!
