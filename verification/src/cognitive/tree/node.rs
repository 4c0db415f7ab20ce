use crate::syntax::{FeatureSet, Key, SyntaxValue, ValueV};
use vstd::prelude::*;

verus! {

/// The position of a node in a tree's arena.
pub type NodeID = usize;

/// The mathematical value of a tree node.
pub ghost struct TNodeV {
    pub id: NodeID,
    pub value: ValueV,
    pub done: bool,
    pub parent: Option<NodeID>,
    pub is_left: bool,
    pub project: Option<Map<Key, Option<Key>>>,
    pub left: Option<NodeID>,
    pub right: Option<NodeID>,
    pub moved: Option<NodeID>,
    pub chain_id: Option<usize>,
}

/// A node of a derivation tree: its value, whether its subtree is complete, its
/// links to parent and children, the features it passes up when complete, and
/// the movement link and chain it takes part in.
#[derive(Debug)]
pub struct Node {
    id: NodeID,
    value: SyntaxValue,
    done: bool,
    parent: Option<NodeID>,
    is_left: bool,
    project: Option<FeatureSet>,
    left: Option<NodeID>,
    right: Option<NodeID>,
    moved: Option<NodeID>,
    chain_id: Option<usize>,
}

pub open spec fn opt_fs_view(o: Option<FeatureSet>) -> Option<Map<Key, Option<Key>>> {
    match o {
        Some(fs) => Some(fs@),
        None => None,
    }
}

impl View for Node {
    type V = TNodeV;

    closed spec fn view(&self) -> TNodeV {
        TNodeV {
            id: self.id,
            value: self.value@,
            done: self.done,
            parent: self.parent,
            is_left: self.is_left,
            project: opt_fs_view(self.project),
            left: self.left,
            right: self.right,
            moved: self.moved,
            chain_id: self.chain_id,
        }
    }
}

/// A fresh node: not done, without links, passing nothing up.
pub open spec fn fresh_node(id: NodeID, value: ValueV) -> TNodeV {
    TNodeV {
        id,
        value,
        done: false,
        parent: None,
        is_left: false,
        project: None,
        left: None,
        right: None,
        moved: None,
        chain_id: None,
    }
}

/// The number of children of a node.
pub open spec fn child_count(n: TNodeV) -> nat {
    (if n.left is Some { 1nat } else { 0nat }) + (if n.right is Some { 1nat } else { 0nat })
}

impl Node {
    /// A fresh node with id `id` and value `value`.
    pub fn new(id: NodeID, value: SyntaxValue) -> (r: Self)
        ensures
            r@ == fresh_node(id, value@),
    {
        Node {
            id,
            value,
            done: false,
            parent: None,
            is_left: false,
            project: None,
            left: None,
            right: None,
            moved: None,
            chain_id: None,
        }
    }

    pub fn get_id(&self) -> (r: NodeID)
        ensures
            r == self@.id,
    {
        self.id
    }

    pub fn get_value(&self) -> (r: &SyntaxValue)
        ensures
            r@ == self@.value,
    {
        &self.value
    }

    /// Whether the node's subtree is complete.
    pub fn if_done(&self) -> (r: bool)
        ensures
            r == self@.done,
    {
        self.done
    }

    pub fn set_done(&mut self)
        ensures
            final(self)@ == (TNodeV { done: true, ..old(self)@ }),
    {
        self.done = true;
    }

    /// Mutable access to the value.
    pub fn get_value_mut(&mut self) -> (r: &mut SyntaxValue)
        ensures
            r@ == old(self)@.value,
            final(self)@ == (TNodeV { value: final(r)@, ..old(self)@ }),
    {
        &mut self.value
    }

    /// Removes and returns the features to pass up.
    pub fn take_project(&mut self) -> (r: Option<FeatureSet>)
        ensures
            opt_fs_view(r) == old(self)@.project,
            final(self)@ == (TNodeV { project: None, ..old(self)@ }),
    {
        self.project.take()
    }

    pub fn get_project(&self) -> (r: Option<&FeatureSet>)
        ensures
            match r {
                Some(fs) => self@.project == Some(fs@),
                None => self@.project is None,
            },
    {
        match &self.project {
            Some(fs) => Some(fs),
            None => None,
        }
    }

    pub fn set_project(&mut self, project: Option<FeatureSet>)
        ensures
            final(self)@ == (TNodeV { project: opt_fs_view(project), ..old(self)@ }),
    {
        self.project = project;
    }

    pub fn get_parent(&self) -> (r: Option<NodeID>)
        ensures
            r == self@.parent,
    {
        self.parent
    }

    pub fn set_parent(&mut self, parent: Option<NodeID>)
        ensures
            final(self)@ == (TNodeV { parent, ..old(self)@ }),
    {
        self.parent = parent;
    }

    /// Whether the node is the left child of its parent.
    pub fn get_is_left(&self) -> (r: bool)
        ensures
            r == self@.is_left,
    {
        self.is_left
    }

    pub fn set_as_left(&mut self)
        ensures
            final(self)@ == (TNodeV { is_left: true, ..old(self)@ }),
    {
        self.is_left = true;
    }

    pub fn set_as_right(&mut self)
        ensures
            final(self)@ == (TNodeV { is_left: false, ..old(self)@ }),
    {
        self.is_left = false;
    }

    pub fn get_left(&self) -> (r: Option<NodeID>)
        ensures
            r == self@.left,
    {
        self.left
    }

    pub fn set_left(&mut self, left: Option<NodeID>)
        ensures
            final(self)@ == (TNodeV { left, ..old(self)@ }),
    {
        self.left = left;
    }

    pub fn get_right(&self) -> (r: Option<NodeID>)
        ensures
            r == self@.right,
    {
        self.right
    }

    pub fn set_right(&mut self, right: Option<NodeID>)
        ensures
            final(self)@ == (TNodeV { right, ..old(self)@ }),
    {
        self.right = right;
    }

    /// The node this one was moved from, if any.
    pub fn get_moved(&self) -> (r: Option<NodeID>)
        ensures
            r == self@.moved,
    {
        self.moved
    }

    pub fn set_moved(&mut self, moved: NodeID)
        ensures
            final(self)@ == (TNodeV { moved: Some(moved), ..old(self)@ }),
    {
        self.moved = Some(moved);
    }

    pub fn get_chain_id(&self) -> (r: Option<usize>)
        ensures
            r == self@.chain_id,
    {
        self.chain_id
    }

    pub fn set_chain_id(&mut self, chain_id: usize)
        ensures
            final(self)@ == (TNodeV { chain_id: Some(chain_id), ..old(self)@ }),
    {
        self.chain_id = Some(chain_id);
    }

    /// How many children the node has.
    pub fn number_of_children(&self) -> (r: usize)
        ensures
            r == child_count(self@),
    {
        let l: usize = if self.left.is_some() { 1 } else { 0 };
        let r: usize = if self.right.is_some() { 1 } else { 0 };
        l + r
    }
}

} // verus!
