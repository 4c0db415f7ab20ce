use super::node::{Node, NodeV};
use crate::error::LambdaError;
use crate::lexicon::{LexNodeV, LexiconNode};
use crate::syntax::{FeatureSet, Key, SyntaxValue, ValueV};
use vstd::prelude::*;

verus! {

/// The mathematical value of a `ValidEntry`.
pub ghost enum ValidV {
    Features(Map<Key, Option<Key>>),
    Moved(Map<Key, Option<Key>>),
    Lambda(Box<ValidV>, Map<Key, Option<Key>>, bool),
}

/// A lexicon node in the shape that the lambda model can use: features, a moved
/// constituent, or a function whose result is a bundle of features.
#[derive(Debug, PartialEq, Eq)]
pub enum ValidEntry {
    Features(FeatureSet),
    Moved { from: FeatureSet },
    Lambda { from: Box<ValidEntry>, to: FeatureSet, project: bool },
}

pub open spec fn valid_view(e: ValidEntry) -> ValidV
    decreases e,
{
    match e {
        ValidEntry::Features(fs) => ValidV::Features(fs@),
        ValidEntry::Moved { from } => ValidV::Moved(from@),
        ValidEntry::Lambda { from, to, project } => ValidV::Lambda(Box::new(valid_view(*from)), to@, project),
    }
}

impl View for ValidEntry {
    type V = ValidV;

    open spec fn view(&self) -> ValidV {
        valid_view(*self)
    }
}

/// The features on the right-hand side of an entry: what it stands for.
pub open spec fn right_of(e: ValidV) -> Map<Key, Option<Key>> {
    match e {
        ValidV::Features(fs) => fs,
        ValidV::Moved(fs) => fs,
        ValidV::Lambda(_, to, _) => to,
    }
}

/// The entry with its right-hand features replaced by `fs`.
pub open spec fn with_right(e: ValidV, fs: Map<Key, Option<Key>>) -> ValidV {
    match e {
        ValidV::Features(_) => ValidV::Features(fs),
        ValidV::Moved(_) => ValidV::Moved(fs),
        ValidV::Lambda(from, _, p) => ValidV::Lambda(from, fs, p),
    }
}

/// The entry that a lexicon node stands for, if it has a usable shape: a value
/// must be features, and a function's result must be features or a moved constituent.
pub open spec fn valid_of(n: LexNodeV) -> Option<ValidV>
    decreases n,
{
    match n {
        LexNodeV::Value(ValueV::Features(fs)) => Some(ValidV::Features(fs)),
        LexNodeV::Value(ValueV::Item(_)) => None,
        LexNodeV::Moved(fs) => Some(ValidV::Moved(fs)),
        LexNodeV::Lambda(from, to, project) => match valid_of(*from) {
            None => None,
            Some(f) => match *to {
                LexNodeV::Value(ValueV::Features(fs)) => Some(ValidV::Lambda(Box::new(f), fs, project)),
                LexNodeV::Moved(fs) => Some(ValidV::Lambda(Box::new(f), fs, project)),
                _ => None,
            },
        },
    }
}

impl ValidEntry {
    /// The entry standing for plain features.
    pub fn from_features(fs: FeatureSet) -> (r: Self)
        ensures
            r@ == ValidV::Features(fs@),
    {
        ValidEntry::Features(fs)
    }

    /// The features on the right-hand side.
    pub fn get_features_right(&self) -> (r: &FeatureSet)
        ensures
            r@ == right_of(self@),
    {
        match self {
            ValidEntry::Features(fs) => fs,
            ValidEntry::Moved { from } => from,
            ValidEntry::Lambda { to, .. } => to,
        }
    }

    /// Mutable access to the features on the right-hand side.
    pub fn get_features_right_mut(&mut self) -> (r: &mut FeatureSet)
        ensures
            r@ == right_of(old(self)@),
            final(self)@ == with_right(old(self)@, final(r)@),
    {
        match self {
            ValidEntry::Features(fs) => fs,
            ValidEntry::Moved { from } => from,
            ValidEntry::Lambda { to, .. } => to,
        }
    }

    /// The value that a plain feature entry stands for; the other shapes have none.
    pub fn try_into_value(self) -> (r: Result<SyntaxValue, LambdaError>)
        ensures
            match self@ {
                ValidV::Features(fs) => r matches Ok(v) && v@ == ValueV::Features(fs),
                _ => r == Err::<SyntaxValue, LambdaError>(LambdaError::TypeConversion),
            },
    {
        match self {
            ValidEntry::Features(fs) => Ok(SyntaxValue::Features(fs)),
            ValidEntry::Moved { .. } => Err(LambdaError::TypeConversion),
            ValidEntry::Lambda { .. } => Err(LambdaError::TypeConversion),
        }
    }

    /// The entry that a lexicon node stands for; a node of another shape is an error.
    pub fn try_from(node: LexiconNode) -> (r: Result<ValidEntry, LambdaError>)
        ensures
            match valid_of(node@) {
                Some(v) => r matches Ok(e) && e@ == v,
                None => r == Err::<ValidEntry, LambdaError>(LambdaError::TypeConversion),
            },
        decreases node,
    {
        match node {
            LexiconNode::Value { value: SyntaxValue::Features(fs) } => Ok(ValidEntry::Features(fs)),
            LexiconNode::Moved { from } => Ok(ValidEntry::Moved { from }),
            LexiconNode::Lambda { from, to, project } => {
                let ghost from_v = (*from)@;
                let ghost to_v = (*to)@;
                assert(node@ == LexNodeV::Lambda(Box::new(from_v), Box::new(to_v), project));
                let from_entry = Self::try_from(*from)?;
                let to = match *to {
                    LexiconNode::Value { value: SyntaxValue::Features(fs) } => fs,
                    LexiconNode::Moved { from: moved_fs } => moved_fs,
                    _ => {
                        return Err(LambdaError::TypeConversion);
                    },
                };
                Ok(ValidEntry::Lambda { from: Box::new(from_entry), to, project })
            },
            _ => Err(LambdaError::TypeConversion),
        }
    }
}

/// The expectation that a valid entry stands for, apart from its chain: features and
/// a moved bundle expect those features; a function expects its argument, which must
/// be plain features, and then its result.
pub open spec fn node_of_valid(v: ValidV) -> Option<NodeV> {
    match v {
        ValidV::Features(fs) => Some(NodeV::Value(ValueV::Features(fs))),
        ValidV::Moved(fs) => Some(NodeV::Value(ValueV::Features(fs))),
        ValidV::Lambda(from, to, _) => match *from {
            ValidV::Features(ffs) => Some(NodeV::Lambda(ValueV::Features(ffs), Box::new(NodeV::Value(ValueV::Features(to))))),
            _ => None,
        },
    }
}

impl Node {
    /// The expectation that `value` stands for (see `node_of_valid`); a function whose
    /// argument is not plain features is refused.
    pub fn try_from(value: ValidEntry) -> (r: Result<Node, LambdaError>)
        ensures
            match node_of_valid(value@) {
                Some(n) => r matches Ok(node) && node@ == n,
                None => r == Err::<Node, LambdaError>(LambdaError::TypeConversion),
            },
    {
        match value {
            ValidEntry::Features(fs) => Ok(Node::from_features(fs)),
            ValidEntry::Moved { from } => Ok(Node::from_features(from)),
            ValidEntry::Lambda { from, to, .. } => {
                let from = (*from).try_into_value()?;
                let to = Box::new(Node::from_features(to));
                Ok(Node::Lambda { from, to })
            },
        }
    }
}

} // verus!
