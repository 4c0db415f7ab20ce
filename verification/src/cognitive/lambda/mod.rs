
pub mod chain_laws;
pub mod laws;
pub mod model;
pub mod node;
pub mod records;
pub mod render;
pub mod trace_laws;
pub mod valid_entry;


pub use model::LambdaModel;
pub use records::{ChainLifecycleRecord, DerivationStepRecord};
pub use node::{Node, NodeV};
pub use valid_entry::{ValidEntry, ValidV};
