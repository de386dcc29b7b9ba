//! A project: a MIDI file, the sample library and the arrangement between them.

use vstd::prelude::*;
use crate::midi::model::{MidiData, MidiNote, capped_end};
use crate::midi::parser::{MidiParseError, parse_midi_file, file_data, file_tracks, law_tracks_have_notes};
use crate::midi::smf::smf_decode;
use crate::sample::model::{SampleClip, SampleLibrary};
use crate::arranger::timeline::{Arrangement, PlacedClip};

verus! {

/// A project being arranged.
pub struct Project {
    pub midi: Option<MidiData>,
    pub samples: SampleLibrary,
    pub arrangement: Arrangement,
    pub file_path: Option<String>,
    pub name: String,
    /// Tempo in microseconds per beat (500000 is 120 BPM).
    pub tempo: u32,
}

impl Project {
    /// A new, untitled project at 120 BPM without MIDI, clips or arrangement.
    pub fn new() -> (p: Self)
        ensures
            p.midi is None,
            p.samples.clips@.len() == 0,
            p.samples.next_id == 0,
            p.samples.well_formed(),
            p.arrangement@ == Seq::<(usize, Seq<PlacedClip>)>::empty(),
            p.file_path is None,
            p.name@ == "未命名项目"@,
            p.tempo == 500000,
    {
        Project {
            midi: None,
            samples: SampleLibrary::new(),
            arrangement: Arrangement::new(),
            file_path: None,
            name: String::from_str("未命名项目"),
            tempo: 500000,
        }
    }

    /// Loads the MIDI file `file_name` from its bytes: on success the project
    /// takes its notes and tempo and its arrangement is cleared; on failure
    /// nothing changes.
    pub fn load_midi(&mut self, file_name: String, data: &[u8]) -> (res: Result<(), MidiParseError>)
        ensures
            match smf_decode(data@) {
                None => res matches Err(MidiParseError::ParseError(_)) && *final(self) == *old(self),
                Some(m) => if file_tracks(m).len() > 0 {
                    &&& res is Ok
                    &&& final(self).midi matches Some(d) && d@ == file_data(file_name@, m)
                    &&& final(self).tempo == file_data(file_name@, m).tempo
                    &&& final(self).arrangement@ == Seq::<(usize, Seq<PlacedClip>)>::empty()
                    &&& final(self).samples == old(self).samples
                    &&& final(self).file_path == old(self).file_path
                    &&& final(self).name == old(self).name
                } else {
                    res matches Err(MidiParseError::NoTracks) && *final(self) == *old(self)
                },
            },
    {
        let ghost name = file_name@;
        match parse_midi_file(file_name, data) {
            Ok(midi) => {
                proof {
                    let m = smf_decode(data@).unwrap();
                    law_tracks_have_notes(m, m.tracks.len() as int);
                }
                self.tempo = midi.tempo;
                self.midi = Some(midi);
                self.arrangement.clear();
                Ok(())
            },
            Err(e) => {
                proof {
                    if let Some(m) = smf_decode(data@) {
                        law_tracks_have_notes(m, m.tracks.len() as int);
                    }
                }
                Err(e)
            },
        }
    }

    /// Adds a clip to the library under the next id, which it returns.
    pub fn add_sample(&mut self, clip: SampleClip) -> (id: usize)
        requires
            old(self).samples.next_id < usize::MAX,
        ensures
            id == old(self).samples.next_id,
            final(self).samples.next_id == id + 1,
            final(self).samples.clips@ == old(self).samples.clips@.push(SampleClip { id, ..clip }),
            old(self).samples.well_formed() ==> final(self).samples.well_formed(),
            final(self).midi == old(self).midi,
            final(self).arrangement == old(self).arrangement,
    {
        self.samples.add_clip(clip)
    }

    /// The notes of the loaded MIDI file; none without one.
    pub fn notes(&self) -> (res: &[MidiNote])
        ensures
            res@ == match self.midi {
                Some(m) => m.notes@,
                None => Seq::<MidiNote>::empty(),
            },
    {
        match &self.midi {
            Some(m) => m.notes.as_slice(),
            None => &[],
        }
    }

    /// The clips of the library.
    pub fn samples(&self) -> (res: &[SampleClip])
        ensures
            res@ == self.samples.clips@,
    {
        self.samples.clips.as_slice()
    }

    /// When the last note ends (see [`MidiData::total_duration`]); 0 without
    /// a MIDI file.
    pub fn total_duration(&self) -> (d: u128)
        ensures
            d == match self.midi {
                Some(m) => capped_end(m@.notes),
                None => 0,
            },
    {
        match &self.midi {
            Some(m) => m.total_duration(),
            None => 0,
        }
    }

    /// The number of notes of the loaded MIDI file; 0 without one.
    pub fn note_count(&self) -> (n: usize)
        ensures
            n == match self.midi {
                Some(m) => m.notes@.len(),
                None => 0,
            },
    {
        match &self.midi {
            Some(m) => m.notes.len(),
            None => 0,
        }
    }

    /// The number of tracks with notes of the loaded MIDI file; 0 without one.
    pub fn track_count(&self) -> (n: usize)
        ensures
            n == match self.midi {
                Some(m) => m.tracks@.len(),
                None => 0,
            },
    {
        match &self.midi {
            Some(m) => m.tracks.len(),
            None => 0,
        }
    }

    /// Whether a MIDI file is loaded.
    pub fn is_loaded(&self) -> (b: bool)
        ensures
            b == self.midi is Some,
    {
        self.midi.is_some()
    }

    /// Loading a project from its saved text is not available: always an
    /// error, and the project stays as it is.
    pub fn load_json(&mut self, json: &str) -> (res: Result<(), String>)
        ensures
            res matches Err(msg) && msg@ == "载入功能尚未实现"@,
            *final(self) == *old(self),
    {
        Err(String::from_str("载入功能尚未实现"))
    }
}

} // verus!
