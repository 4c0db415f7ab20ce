use crate::syntax::{FeatureSet, Key, SyntaxValue, ValueV};
use vstd::prelude::*;

verus! {

/// The mathematical value of a `Node`.
pub ghost enum NodeV {
    Value(ValueV),
    Lambda(ValueV, Box<NodeV>),
    Projection(Map<Key, Option<Key>>),
}

/// An expectation of the listener: a value still to be found, a function that
/// awaits `from` and then expects `to`, or a marker that features found next
/// pass up onto the expectation below, leaving out `ignore`.
#[derive(Debug, PartialEq, Eq)]
pub enum Node {
    Value { value: SyntaxValue },
    Lambda { from: SyntaxValue, to: Box<Node> },
    Projection { ignore: FeatureSet },
}

pub open spec fn node_view(n: Node) -> NodeV
    decreases n,
{
    match n {
        Node::Value { value } => NodeV::Value(value@),
        Node::Lambda { from, to } => NodeV::Lambda(from@, Box::new(node_view(*to))),
        Node::Projection { ignore } => NodeV::Projection(ignore@),
    }
}

impl View for Node {
    type V = NodeV;

    open spec fn view(&self) -> NodeV {
        node_view(*self)
    }
}

/// The features on the left of a node: a value's features, or what a function awaits.
pub open spec fn left_features(n: NodeV) -> Option<Map<Key, Option<Key>>> {
    match n {
        NodeV::Value(ValueV::Features(fs)) => Some(fs),
        NodeV::Lambda(ValueV::Features(fs), _) => Some(fs),
        _ => None,
    }
}

/// The node with its left features replaced by `fs`.
pub open spec fn with_left(n: NodeV, fs: Map<Key, Option<Key>>) -> NodeV {
    match n {
        NodeV::Value(ValueV::Features(_)) => NodeV::Value(ValueV::Features(fs)),
        NodeV::Lambda(ValueV::Features(_), to) => NodeV::Lambda(ValueV::Features(fs), to),
        _ => n,
    }
}

impl Node {
    /// The node that expects the features `fs`.
    pub fn from_features(fs: FeatureSet) -> (r: Self)
        ensures
            r@ == NodeV::Value(ValueV::Features(fs@)),
    {
        Node::Value { value: SyntaxValue::Features(fs) }
    }

    /// Mutable access to the features on the left, where the node has some.
    pub fn get_features_left_mut(&mut self) -> (r: Option<&mut FeatureSet>)
        ensures
            match r {
                Some(fs) => left_features(old(self)@) == Some(fs@)
                    && final(self)@ == with_left(old(self)@, final(fs)@),
                None => left_features(old(self)@) is None && final(self)@ == old(self)@,
            },
    {
        match self {
            Node::Value { value: SyntaxValue::Features(fs) } => Some(fs),
            Node::Lambda { from: SyntaxValue::Features(fs), .. } => Some(fs),
            _ => None,
        }
    }

    /// A copy with the same view.
    pub fn duplicate(&self) -> (r: Self)
        ensures
            r@ == self@,
        decreases self,
    {
        match self {
            Node::Value { value } => Node::Value { value: value.duplicate() },
            Node::Lambda { from, to } => {
                let t = (**to).duplicate();
                Node::Lambda { from: from.duplicate(), to: Box::new(t) }
            },
            Node::Projection { ignore } => Node::Projection { ignore: ignore.duplicate() },
        }
    }

    /// Whether two nodes are equal as values.
    pub fn same_as(&self, other: &Node) -> (r: bool)
        ensures
            r == (self@ == other@),
        decreases self,
    {
        match (self, other) {
            (Node::Value { value: a }, Node::Value { value: b }) => a.same_as(b),
            (Node::Lambda { from: f1, to: t1 }, Node::Lambda { from: f2, to: t2 }) => {
                if !f1.same_as(f2) {
                    return false;
                }
                (**t1).same_as(&**t2)
            },
            (Node::Projection { ignore: a }, Node::Projection { ignore: b }) => a.same_as(b),
            _ => false,
        }
    }
}

} // verus!
