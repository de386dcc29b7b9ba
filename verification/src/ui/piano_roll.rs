//! What the piano roll reports.

use vstd::prelude::*;

verus! {

/// What the user did in the piano roll.
#[derive(Clone, Copy, Debug)]
pub struct PianoRollResponse {
    pub import_clicked: bool,
}

} // verus!
