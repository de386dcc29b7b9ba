//! Recolor: arranging sample clips along the notes of a MIDI file.
//!
//! Times are exact: a time value `t` of a file stands for
//! `t / (ticks_per_beat * 1_000_000)` seconds.

pub mod arranger;
pub mod midi;
pub mod models;
pub mod project;
pub mod sample;
pub mod text;
pub mod ui;
