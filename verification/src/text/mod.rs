//! Text handling on which the dump format rests: characters, whitespace-separated words,
//! lines, decimal numbers and searching.  Each operation has a model over `Seq<char>`.

pub mod chars;
pub mod decimal;
pub mod find;
pub mod lines;
pub mod words;
