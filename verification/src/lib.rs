pub mod laws;
pub mod matching;
pub mod model;
