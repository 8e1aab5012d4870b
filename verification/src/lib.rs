//! Text statistics for files: word, line and character counts, word
//! frequency tables, the rules that decide which files are read as text,
//! and the plan of a concatenated dump of a directory tree.

pub mod greet;
pub mod text;
pub mod frequency;
mod index;
pub mod paths;
pub mod analyzer;
pub mod treesave;
