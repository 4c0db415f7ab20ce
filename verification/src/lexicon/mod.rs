pub mod entry;
pub mod parser;
pub mod render;

pub use entry::{EntryV, LexNodeV, LexiconEntry, LexiconNode, SimpleLexicon};
