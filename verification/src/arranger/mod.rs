pub mod match_engine;
pub mod timeline;
