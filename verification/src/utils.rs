//! Collaborators around the engine: the decoder and small scheduling
//! helpers.

pub mod helper;
pub mod parser;
