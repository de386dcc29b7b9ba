//! The panel that the view shows.

pub use crate::models::Panel;
