pub mod syntax;
pub mod topology;
pub mod expand;
pub mod sections;
pub mod valid;
pub mod binding_laws;

pub use sections::PestLexiconParser;
