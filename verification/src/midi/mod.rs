pub mod model;
pub mod parser;
pub mod pitch;
pub mod single_pass;
pub mod smf;
