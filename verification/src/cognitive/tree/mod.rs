pub mod debug;
pub mod graph;
pub mod laws;
pub mod model;
pub mod node;
pub mod spec;

pub use model::TreeModel;
pub use node::{Node, NodeID, TNodeV};
pub use spec::TreeV;
