//! The contents of a Standard MIDI File, as plain values, and the reading of
//! them from raw bytes through `midly`.

use vstd::prelude::*;
use midly::TrackEventKind::{Meta, Midi};
use midly::MidiMessage::{NoteOff, NoteOn};
use midly::MetaMessage::{Tempo, TrackName};

verus! {

/// What an event of a track carries, as far as arranging is concerned.
pub enum EventKind {
    /// Meta event: the name of the track, as raw bytes.
    TrackName(Vec<u8>),
    /// Meta event: tempo in microseconds per beat.
    Tempo(u32),
    /// Channel message "note on": channel, key, velocity.
    NoteOn(u8, u8, u8),
    /// Channel message "note off": channel, key.
    NoteOff(u8, u8),
    /// Any other channel message: its channel.
    OtherChannel(u8),
    /// Any other event.
    Other,
}

/// An event of a track: ticks since the previous event, and what happens.
pub struct TrackEvent {
    pub delta: u32,
    pub kind: EventKind,
}

/// A parsed file: the ticks per beat of a metrical header (`None` for a
/// timecode header) and the events of each track.
pub struct SmfFile {
    pub metrical_ticks: Option<u16>,
    pub tracks: Vec<Vec<TrackEvent>>,
}

/// The mathematical value of an [`EventKind`].
pub enum EventModel {
    TrackName(Seq<u8>),
    Tempo(u32),
    NoteOn(u8, u8, u8),
    NoteOff(u8, u8),
    OtherChannel(u8),
    Other,
}

/// The mathematical value of a [`TrackEvent`].
pub struct EventSpec {
    pub delta: u32,
    pub kind: EventModel,
}

/// The mathematical value of an [`SmfFile`].
pub struct SmfModel {
    pub metrical_ticks: Option<u16>,
    pub tracks: Seq<Seq<EventSpec>>,
}

impl View for EventKind {
    type V = EventModel;

    open spec fn view(&self) -> EventModel {
        match self {
            EventKind::TrackName(b) => EventModel::TrackName(b@),
            EventKind::Tempo(u) => EventModel::Tempo(*u),
            EventKind::NoteOn(c, k, v) => EventModel::NoteOn(*c, *k, *v),
            EventKind::NoteOff(c, k) => EventModel::NoteOff(*c, *k),
            EventKind::OtherChannel(c) => EventModel::OtherChannel(*c),
            EventKind::Other => EventModel::Other,
        }
    }
}

impl View for TrackEvent {
    type V = EventSpec;

    open spec fn view(&self) -> EventSpec {
        EventSpec { delta: self.delta, kind: self.kind@ }
    }
}

/// The events of a track, as values.
pub open spec fn track_view(t: Vec<TrackEvent>) -> Seq<EventSpec> {
    t@.map_values(|e: TrackEvent| e@)
}

impl View for SmfFile {
    type V = SmfModel;

    open spec fn view(&self) -> SmfModel {
        SmfModel {
            metrical_ticks: self.metrical_ticks,
            tracks: self.tracks@.map_values(|t: Vec<TrackEvent>| track_view(t)),
        }
    }
}

/// The value ranges of a MIDI event: 28-bit delta times, 24-bit tempos,
/// 4-bit channels and 7-bit keys and velocities.
pub open spec fn event_in_range(e: EventSpec) -> bool {
    &&& e.delta < 0x1000_0000
    &&& match e.kind {
        EventModel::Tempo(u) => u < 0x100_0000,
        EventModel::NoteOn(c, k, v) => c < 16 && k < 128 && v < 128,
        EventModel::NoteOff(c, k) => c < 16 && k < 128,
        EventModel::OtherChannel(c) => c < 16,
        _ => true,
    }
}

impl SmfModel {
    /// Every event of the file lies within the ranges of the MIDI format.
    pub open spec fn well_formed(self) -> bool {
        forall|t: int, i: int|
            0 <= t < self.tracks.len() && 0 <= i < self.tracks[t].len()
                ==> event_in_range(#[trigger] self.tracks[t][i])
    }
}

#[verifier::external_type_specification]
#[verifier::external_body]
pub struct ExMidlyError(midly::Error);

#[verifier::external_type_specification]
#[verifier::external_body]
pub struct ExSmf<'a>(midly::Smf<'a>);

/// What `midly::Smf::parse` makes of raw bytes: `None` where it fails,
/// otherwise the file's timing and events.
pub uninterp spec fn smf_decode(raw: Seq<u8>) -> Option<SmfModel>;

/// The timing and events that a parsed `midly::Smf` holds.
pub uninterp spec fn smf_contents(smf: midly::Smf) -> SmfModel;

/// Parses raw bytes with `midly::Smf::parse`. Claimed: the call fails exactly
/// where `smf_decode` has no value, and otherwise yields a file whose contents are
/// that value. What `smf_decode` is on given bytes is not stated.
#[verifier::external_body]
fn smf_parse<'a>(raw: &'a [u8]) -> (res: Result<midly::Smf<'a>, midly::Error>)
    ensures
        match res {
            Ok(smf) => smf_decode(raw@) == Some(smf_contents(smf)),
            Err(_) => smf_decode(raw@) is None,
        },
{
    midly::Smf::parse(raw)
}

/// Reads the header timing of a `midly::Smf`: the ticks per beat of
/// `Timing::Metrical` (a 15-bit value), `None` for `Timing::Timecode`.
#[verifier::external_body]
fn smf_metrical_ticks(smf: &midly::Smf) -> (res: Option<u16>)
    ensures
        res == smf_contents(*smf).metrical_ticks,
{
    match smf.header.timing {
        midly::Timing::Metrical(t) => Some(t.as_int()),
        midly::Timing::Timecode(..) => None,
    }
}

/// The number of tracks of a `midly::Smf` (`smf.tracks.len()`).
#[verifier::external_body]
fn smf_track_count(smf: &midly::Smf) -> (res: usize)
    ensures
        res == smf_contents(*smf).tracks.len(),
{
    smf.tracks.len()
}

/// The number of events of track `t` of a `midly::Smf` (`smf.tracks[t].len()`).
#[verifier::external_body]
fn smf_track_len(smf: &midly::Smf, t: usize) -> (res: usize)
    requires
        t < smf_contents(*smf).tracks.len(),
    ensures
        res == smf_contents(*smf).tracks[t as int].len(),
{
    smf.tracks[t].len()
}

/// Event `i` of track `t` of a `midly::Smf`, converted field by field: the
/// delta time and, by variant of `TrackEventKind`, `MidiMessage` and
/// `MetaMessage`, the kind. Claimed: the result is that event of
/// `smf_contents`, and its values lie in the ranges of midly's `u28`, `u24`,
/// `u4` and `u7` types.
#[verifier::external_body]
fn smf_event(smf: &midly::Smf, t: usize, i: usize) -> (res: TrackEvent)
    requires
        t < smf_contents(*smf).tracks.len(),
        i < smf_contents(*smf).tracks[t as int].len(),
    ensures
        res@ == smf_contents(*smf).tracks[t as int][i as int],
        event_in_range(res@),
{
    let e = &smf.tracks[t][i];
    let kind = match e.kind {
        Midi { channel: c, message: NoteOn { key, vel } } => EventKind::NoteOn(c.as_int(), key.as_int(), vel.as_int()),
        Midi { channel: c, message: NoteOff { key, .. } } => EventKind::NoteOff(c.as_int(), key.as_int()),
        Midi { channel: c, .. } => EventKind::OtherChannel(c.as_int()),
        Meta(TrackName(n)) => EventKind::TrackName(n.to_vec()),
        Meta(Tempo(u)) => EventKind::Tempo(u.as_int()),
        _ => EventKind::Other,
    };
    TrackEvent { delta: e.delta.as_int(), kind }
}

/// Reads a Standard MIDI File from its raw bytes: `Err` exactly where
/// `midly::Smf::parse` refuses them, otherwise the file's timing and events.
pub fn read_smf(raw: &[u8]) -> (res: Result<SmfFile, midly::Error>)
    ensures
        match res {
            Ok(f) => smf_decode(raw@) == Some(f@) && f@.well_formed(),
            Err(_) => smf_decode(raw@) is None,
        },
{
    let smf = match smf_parse(raw) {
        Ok(s) => s,
        Err(e) => return Err(e),
    };
    let ghost m = smf_contents(smf);
    let metrical_ticks = smf_metrical_ticks(&smf);
    let n = smf_track_count(&smf);
    let mut tracks: Vec<Vec<TrackEvent>> = Vec::new();
    let mut t: usize = 0;
    while t < n
        invariant
            m == smf_contents(smf),
            n == m.tracks.len(),
            t <= n,
            tracks@.len() == t,
            forall|j: int| 0 <= j < t ==> track_view(#[trigger] tracks@[j]) == m.tracks[j],
            forall|j: int, i: int| 0 <= j < t && 0 <= i < m.tracks[j].len()
                ==> event_in_range(#[trigger] m.tracks[j][i]),
        decreases n - t,
    {
        let len = smf_track_len(&smf, t);
        let mut events: Vec<TrackEvent> = Vec::new();
        let mut i: usize = 0;
        while i < len
            invariant
                m == smf_contents(smf),
                n == m.tracks.len(),
                t < n,
                len == m.tracks[t as int].len(),
                i <= len,
                events@.len() == i,
                forall|k: int| 0 <= k < i ==> (#[trigger] events@[k])@ == m.tracks[t as int][k],
                forall|k: int| 0 <= k < i ==> event_in_range(#[trigger] m.tracks[t as int][k]),
            decreases len - i,
        {
            let e = smf_event(&smf, t, i);
            events.push(e);
            i = i + 1;
        }
        assert(track_view(events) =~= m.tracks[t as int]);
        tracks.push(events);
        t = t + 1;
    }
    let f = SmfFile { metrical_ticks, tracks };
    assert(f@.tracks == m.tracks);
    Ok(f)
}

} // verus!
