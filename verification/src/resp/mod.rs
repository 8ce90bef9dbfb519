pub mod encoder;
pub mod inline;
pub mod laws;
pub mod parser;
pub mod wire;
