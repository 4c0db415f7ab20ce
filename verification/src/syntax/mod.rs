pub mod feature_set;
pub mod render;
pub mod value;

pub use feature_set::{Feature, FeatureSet, Key};
pub use value::{SyntaxValue, ValueV};
