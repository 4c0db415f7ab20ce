use super::feature_set::{FeatureSet, Key};
use vstd::prelude::*;

verus! {

/// The mathematical value of a `SyntaxValue`.
pub ghost enum ValueV {
    Item(Key),
    Features(Map<Key, Option<Key>>),
}

/// A word of the input, or a bundle of features that a derivation looks for.
#[derive(Debug, Clone, PartialEq, Eq)]
pub enum SyntaxValue {
    Item(Key),
    Features(FeatureSet),
}

impl View for SyntaxValue {
    type V = ValueV;

    open spec fn view(&self) -> ValueV {
        match self {
            SyntaxValue::Item(k) => ValueV::Item(*k),
            SyntaxValue::Features(fs) => ValueV::Features(fs@),
        }
    }
}

impl SyntaxValue {
    /// A copy with the same view.
    pub fn duplicate(&self) -> (r: Self)
        ensures
            r@ == self@,
    {
        match self {
            SyntaxValue::Item(k) => SyntaxValue::Item(*k),
            SyntaxValue::Features(fs) => SyntaxValue::Features(fs.duplicate()),
        }
    }

    /// The feature set, where the value is one.
    pub fn features(&self) -> (r: Option<&FeatureSet>)
        ensures
            match self@ {
                ValueV::Features(m) => r is Some && r->0@ == m,
                ValueV::Item(_) => r is None,
            },
    {
        match self {
            SyntaxValue::Features(fs) => Some(fs),
            SyntaxValue::Item(_) => None,
        }
    }

    /// Whether two values are equal as values.
    pub fn same_as(&self, other: &SyntaxValue) -> (r: bool)
        ensures
            r == (self@ == other@),
    {
        match (self, other) {
            (SyntaxValue::Item(a), SyntaxValue::Item(b)) => *a == *b,
            (SyntaxValue::Features(a), SyntaxValue::Features(b)) => a.same_as(b),
            _ => false,
        }
    }
}

} // verus!
