//! What the tracks panel shows and reports.

use vstd::prelude::*;

verus! {

/// How the notes of the tracks panel are shown.
#[derive(Clone, Debug, PartialEq, Eq, Structural)]
pub enum TrackView {
    PianoRoll,
    List,
}

/// What the user did in the tracks panel.
#[derive(Clone, Copy, Debug)]
pub struct TracksResponse {
    pub import_clicked: bool,
}

} // verus!
