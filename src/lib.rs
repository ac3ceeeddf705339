//! Line, word, character and byte counting over text streams.

pub mod text;
pub mod counts;
pub mod report;
