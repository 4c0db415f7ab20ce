pub mod action;
pub mod derivation;
pub mod follow;
pub mod interpret;
pub mod normalize;
pub mod runs;

pub use action::{Action, ActionV};
