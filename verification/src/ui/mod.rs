pub mod piano_roll;
pub mod state;
pub mod tracks;
