pub mod cognitive;
pub mod dialect;
pub mod error;
pub mod interner;
pub mod lexicon;
pub mod syntax;
pub mod text;
pub mod tokenizer;
pub mod utf8;
pub mod interpreter;
pub mod naming;
