//! Matching a MIDI file with a sample library.

use vstd::prelude::*;
use crate::midi::model::MidiData;
use crate::sample::model::SampleLibrary;
use crate::arranger::timeline::{PlacedClip, auto_match, placements};

verus! {

/// Matches the notes of `midi` with the clips of `library`: exact pitches
/// only when `prefer_exact`, otherwise up to two semitones away.
pub fn match_with_preference(midi: &MidiData, library: &SampleLibrary, prefer_exact: bool) -> (res: Vec<PlacedClip>)
    ensures
        res@ == placements(midi.notes@, library.clips@, if prefer_exact { 0u8 } else { 2u8 }),
{
    let max_semitones: u8 = if prefer_exact { 0 } else { 2 };
    auto_match(midi.notes.as_slice(), library.clips.as_slice(), max_semitones)
}

} // verus!
