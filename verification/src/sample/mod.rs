pub mod model;
pub mod scanner;
