pub mod lambda;
pub mod tree;

pub use lambda::LambdaModel;
pub use tree::TreeModel;
