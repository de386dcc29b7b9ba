//! Plain values shown by the user interface.

use vstd::prelude::*;

verus! {

/// The panels of the main window.
#[derive(Clone, Debug, PartialEq, Eq, Structural)]
pub enum Panel {
    Library,
    Tracks,
    Generate,
}

/// A clip as the library panel lists it, every field already formatted.
#[derive(Clone, Debug)]
pub struct SampleItem {
    pub name: String,
    pub duration: String,
    pub sample_rate: String,
    pub pitch: String,
    pub format: String,
}

} // verus!
