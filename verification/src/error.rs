use vstd::prelude::*;

verus! {

/// Errors raised by operations on feature sets.
#[derive(Debug, Clone, Copy, PartialEq, Eq, Structural)]
pub enum SyntaxError {
    /// A category that is already present would receive a second value.
    CategoryAlreadyHasValue,
}

/// Errors raised by the lambda model of the listener.
#[derive(Debug, Clone, Copy, PartialEq, Eq, Structural)]
pub enum LambdaError {
    /// The model expects nothing more, so there is nothing to combine with.
    NoExpectation,
    /// A lexicon node has a shape that the model cannot use.
    TypeConversion,
    /// The result of a function must be a bundle of features.
    LambdaToMustBeFeatures,
    /// A word was answered with a functional rule, or features with a lexical one.
    QueryAndEntryTypeMismatch,
    /// A rule was applied where no function awaits an argument.
    ApplyEntryToNonLambda,
    /// Passing features from one node to another failed.
    Syntax(SyntaxError),
}

/// Errors raised by the tree model of the listener.
#[derive(Debug, Clone, Copy, PartialEq, Eq, Structural)]
pub enum TreeError {
    /// No node has this id.
    NodeNotFound(usize),
    /// The node has no parent.
    NodeHasNoParent(usize),
    /// The first node has no child with the second id.
    NodeHasNoChildWithID(usize, usize),
    /// The first node's parent is not the second node.
    NodeHasNoParentWithID(usize, usize),
    /// The node's value is a word, not features.
    NodeIsNotFeatures(usize),
    /// The result of a function in a lexicon node is itself a function.
    LambdaToIsNestedLambda,
    /// Passing features from one node to another failed.
    Syntax(SyntaxError),
    /// A walk along the links visited more nodes than the tree holds: the links form a cycle.
    MalformedLinks,
}

/// Errors raised by the interpreter.
#[derive(Debug, Clone, Copy, PartialEq, Eq, Structural)]
pub enum InterpretError {
    /// The search went deeper than its bound on the length of a derivation.
    SearchTooDeep,
    /// Replaying a derivation on a tree failed.
    Tree(TreeError),
    /// Replaying a derivation on a lambda model failed.
    Lambda(LambdaError),
    /// A counter of the model would pass its largest value.
    CounterLimit,
}

} // verus!
