use super::node::{fresh_node, Node, NodeID, TNodeV};
use super::spec::{in_arena, moved_count, s_add_child, s_add_left, s_add_right, s_append_child, s_climb, s_delete_relation, s_get_features, s_get_parent, s_insert_parent, s_new_node, s_project, s_set_chain_id, s_set_done, s_set_moved, s_set_project, s_set_relation, s_take_project, s_try_project, s_prune_loop, s_surface_loop, walk_fuel, TreeV};
use crate::error::TreeError;
use crate::lexicon::{LexiconEntry, LexiconNode, LexNodeV, EntryV};
use crate::syntax::{FeatureSet, Key, SyntaxValue, ValueV};
use vstd::prelude::*;

verus! {

/// The listener as a derivation tree in an arena, grown at two cursors: the lower
/// cursor is the node being worked on, the upper cursor the node that receives new
/// left children.
#[derive(Debug)]
pub struct TreeModel {
    nodes: Vec<Node>,
    root: NodeID,
    upper_cursor: NodeID,
    lower_cursor: NodeID,
    unattached: Vec<NodeID>,
    next_chain_id: usize,
}

impl View for TreeModel {
    type V = TreeV;

    closed spec fn view(&self) -> TreeV {
        TreeV {
            nodes: self.nodes@.map_values(|n: Node| n@),
            root: self.root,
            upper: self.upper_cursor,
            lower: self.lower_cursor,
            unattached: self.unattached@,
            next_chain_id: self.next_chain_id,
        }
    }
}

/// The empty tree, with both cursors and the root at 0.
pub open spec fn empty_tree() -> TreeV {
    TreeV { nodes: Seq::empty(), root: 0, upper: 0, lower: 0, unattached: Seq::empty(), next_chain_id: 1 }
}

impl TreeModel {
    fn new() -> (r: Self)
        ensures
            r@ == empty_tree(),
    {
        let r = TreeModel {
            nodes: Vec::new(),
            root: 0,
            upper_cursor: 0,
            lower_cursor: 0,
            unattached: Vec::new(),
            next_chain_id: 1,
        };
        assert(r@.nodes =~= Seq::empty());
        r
    }

    /// The tree that holds one node, the target features `target`.
    pub fn init(target: FeatureSet) -> (r: Self)
        ensures
            r@ == s_new_node(empty_tree(), ValueV::Features(target@)),
    {
        let mut model = Self::new();
        model.new_node(SyntaxValue::Features(target));
        model
    }

    /// The number of nodes in the arena.
    pub fn node_count(&self) -> (r: usize)
        ensures
            r == self@.nodes.len(),
    {
        self.nodes.len()
    }

    fn size(&self) -> (r: usize)
        ensures
            r == self@.nodes.len(),
    {
        self.nodes.len()
    }

    /// Whether the arena holds no node.
    pub fn is_empty(&self) -> (r: bool)
        ensures
            r == (self@.nodes.len() == 0),
    {
        self.nodes.len() == 0
    }

    /// The id of the root node.
    pub fn get_root(&self) -> (r: NodeID)
        ensures
            r == self@.root,
    {
        self.root
    }

    /// The lower cursor.
    pub fn get_lower_cursor(&self) -> (r: NodeID)
        ensures
            r == self@.lower,
    {
        self.lower_cursor
    }

    /// The upper cursor.
    pub fn get_upper_cursor(&self) -> (r: NodeID)
        ensures
            r == self@.upper,
    {
        self.upper_cursor
    }

    /// The id the next new chain will get.
    pub fn next_chain_id(&self) -> (r: usize)
        ensures
            r == self@.next_chain_id,
    {
        self.next_chain_id
    }

    /// The number of subtrees set aside.
    pub fn unattached_count(&self) -> (r: usize)
        ensures
            r == self@.unattached.len(),
    {
        self.unattached.len()
    }

    /// The root of the `i`-th subtree set aside.
    pub fn unattached_at(&self, i: usize) -> (r: NodeID)
        requires
            i < self@.unattached.len(),
        ensures
            r == self@.unattached[i as int],
    {
        self.unattached[i]
    }

    fn new_node(&mut self, value: SyntaxValue) -> (r: NodeID)
        ensures
            final(self)@ == s_new_node(old(self)@, value@),
            r == old(self)@.nodes.len(),
    {
        let id = self.nodes.len();
        let ghost vv = value@;
        self.nodes.push(Node::new(id, value));
        assert(self@.nodes =~= old(self)@.nodes.push(fresh_node(id, vv)));
        id
    }

    pub(crate) fn get_node(&self, id: NodeID) -> (r: Result<&Node, TreeError>)
        ensures
            in_arena(self@, id) ==> (r matches Ok(n) && n@ == self@.nodes[id as int]),
            !in_arena(self@, id) ==> r == Err::<&Node, TreeError>(TreeError::NodeNotFound(id)),
    {
        if id < self.nodes.len() {
            Ok(&self.nodes[id])
        } else {
            Err(TreeError::NodeNotFound(id))
        }
    }

    /// The value of node `id`.
    pub fn get_value(&self, id: NodeID) -> (r: Result<&SyntaxValue, TreeError>)
        ensures
            in_arena(self@, id) ==> (r matches Ok(v) && v@ == self@.nodes[id as int].value),
            !in_arena(self@, id) ==> r == Err::<&SyntaxValue, TreeError>(TreeError::NodeNotFound(id)),
    {
        Ok(self.get_node(id)?.get_value())
    }

    fn if_done(&self, id: NodeID) -> (r: Result<bool, TreeError>)
        ensures
            in_arena(self@, id) ==> r == Ok::<bool, TreeError>(self@.nodes[id as int].done),
            !in_arena(self@, id) ==> r == Err::<bool, TreeError>(TreeError::NodeNotFound(id)),
    {
        Ok(self.get_node(id)?.if_done())
    }

    fn set_done(&mut self, id: NodeID) -> (r: Result<(), TreeError>)
        ensures
            (final(self)@, r) == s_set_done(old(self)@, id),
    {
        if id >= self.nodes.len() {
            return Err(TreeError::NodeNotFound(id));
        }
        self.nodes[id].set_done();
        assert(self@.nodes =~= old(self)@.nodes.update(id as int, TNodeV { done: true, ..old(self)@.nodes[id as int] }));
        Ok(())
    }

    fn get_parent(&self, id: NodeID) -> (r: Result<NodeID, TreeError>)
        ensures
            r == s_get_parent(self@, id),
    {
        match self.get_node(id)?.get_parent() {
            Some(parent_id) => Ok(parent_id),
            None => Err(TreeError::NodeHasNoParent(id)),
        }
    }

    fn get_is_left(&self, id: NodeID) -> (r: Result<bool, TreeError>)
        ensures
            in_arena(self@, id) ==> r == Ok::<bool, TreeError>(self@.nodes[id as int].is_left),
            !in_arena(self@, id) ==> r == Err::<bool, TreeError>(TreeError::NodeNotFound(id)),
    {
        Ok(self.get_node(id)?.get_is_left())
    }

    fn take_project(&mut self, id: NodeID) -> (r: Result<Option<FeatureSet>, TreeError>)
        ensures
            final(self)@ == s_take_project(old(self)@, id).0,
            match s_take_project(old(self)@, id).1 {
                Ok(p) => r matches Ok(q) && super::node::opt_fs_view(q) == p,
                Err(e) => r == Err::<Option<FeatureSet>, TreeError>(e),
            },
    {
        if id >= self.nodes.len() {
            return Err(TreeError::NodeNotFound(id));
        }
        let p = self.nodes[id].take_project();
        assert(self@.nodes =~= old(self)@.nodes.update(id as int, TNodeV { project: None, ..old(self)@.nodes[id as int] }));
        Ok(p)
    }

    fn set_project(&mut self, id: NodeID, project: Option<FeatureSet>) -> (r: Result<(), TreeError>)
        ensures
            (final(self)@, r) == s_set_project(old(self)@, id, super::node::opt_fs_view(project)),
    {
        if id >= self.nodes.len() {
            return Err(TreeError::NodeNotFound(id));
        }
        let ghost pv = super::node::opt_fs_view(project);
        self.nodes[id].set_project(project);
        assert(self@.nodes =~= old(self)@.nodes.update(id as int, TNodeV { project: pv, ..old(self)@.nodes[id as int] }));
        Ok(())
    }

    /// The left child of node `id`.
    pub fn get_left(&self, id: NodeID) -> (r: Result<Option<NodeID>, TreeError>)
        ensures
            in_arena(self@, id) ==> r == Ok::<Option<NodeID>, TreeError>(self@.nodes[id as int].left),
            !in_arena(self@, id) ==> r == Err::<Option<NodeID>, TreeError>(TreeError::NodeNotFound(id)),
    {
        Ok(self.get_node(id)?.get_left())
    }

    /// The right child of node `id`.
    pub fn get_right(&self, id: NodeID) -> (r: Result<Option<NodeID>, TreeError>)
        ensures
            in_arena(self@, id) ==> r == Ok::<Option<NodeID>, TreeError>(self@.nodes[id as int].right),
            !in_arena(self@, id) ==> r == Err::<Option<NodeID>, TreeError>(TreeError::NodeNotFound(id)),
    {
        Ok(self.get_node(id)?.get_right())
    }

    /// The node that node `id` was moved from.
    pub fn get_moved(&self, id: NodeID) -> (r: Result<Option<NodeID>, TreeError>)
        ensures
            in_arena(self@, id) ==> r == Ok::<Option<NodeID>, TreeError>(self@.nodes[id as int].moved),
            !in_arena(self@, id) ==> r == Err::<Option<NodeID>, TreeError>(TreeError::NodeNotFound(id)),
    {
        Ok(self.get_node(id)?.get_moved())
    }

    /// The movement chain that node `id` takes part in.
    pub fn get_chain_id(&self, id: NodeID) -> (r: Result<Option<usize>, TreeError>)
        ensures
            in_arena(self@, id) ==> r == Ok::<Option<usize>, TreeError>(self@.nodes[id as int].chain_id),
            !in_arena(self@, id) ==> r == Err::<Option<usize>, TreeError>(TreeError::NodeNotFound(id)),
    {
        Ok(self.get_node(id)?.get_chain_id())
    }

    fn set_chain_id(&mut self, id: NodeID, chain_id: usize) -> (r: Result<(), TreeError>)
        ensures
            (final(self)@, r) == s_set_chain_id(old(self)@, id, chain_id),
    {
        if id >= self.nodes.len() {
            return Err(TreeError::NodeNotFound(id));
        }
        self.nodes[id].set_chain_id(chain_id);
        assert(self@.nodes =~= old(self)@.nodes.update(id as int, TNodeV { chain_id: Some(chain_id), ..old(self)@.nodes[id as int] }));
        Ok(())
    }

    fn set_moved(&mut self, from: NodeID, to: NodeID) -> (r: Result<(), TreeError>)
        requires
            old(self)@.next_chain_id < usize::MAX,
        ensures
            (final(self)@, r) == s_set_moved(old(self)@, from, to),
    {
        if from >= self.nodes.len() {
            return Err(TreeError::NodeNotFound(from));
        }
        self.nodes[from].set_moved(to);
        assert(self@.nodes =~= old(self)@.nodes.update(from as int, TNodeV { moved: Some(to), ..old(self)@.nodes[from as int] }));
        let from_chain = self.get_chain_id(from)?;
        let to_chain = self.get_chain_id(to)?;
        let existing = match from_chain {
            Some(c) => Some(c),
            None => to_chain,
        };
        let chain_id = match existing {
            Some(c) => c,
            None => {
                let c = self.next_chain_id;
                self.next_chain_id = self.next_chain_id + 1;
                c
            },
        };
        self.set_chain_id(from, chain_id)?;
        self.set_chain_id(to, chain_id)?;
        Ok(())
    }

    fn set_relation_left(&mut self, parent_id: NodeID, child_id: NodeID) -> (r: Result<(), TreeError>)
        ensures
            (final(self)@, r) == s_set_relation(old(self)@, parent_id, child_id, true),
    {
        self.set_relation(parent_id, child_id, true)
    }

    fn set_relation_right(&mut self, parent_id: NodeID, child_id: NodeID) -> (r: Result<(), TreeError>)
        ensures
            (final(self)@, r) == s_set_relation(old(self)@, parent_id, child_id, false),
    {
        self.set_relation(parent_id, child_id, false)
    }

    fn set_relation(&mut self, parent_id: NodeID, child_id: NodeID, child_is_left: bool) -> (r: Result<(), TreeError>)
        ensures
            (final(self)@, r) == s_set_relation(old(self)@, parent_id, child_id, child_is_left),
    {
        if parent_id >= self.nodes.len() {
            return Err(TreeError::NodeNotFound(parent_id));
        }
        let ghost p = old(self)@.nodes[parent_id as int];
        if child_is_left {
            self.nodes[parent_id].set_left(Some(child_id));
            assert(self@.nodes =~= old(self)@.nodes.update(parent_id as int, TNodeV { left: Some(child_id), ..p }));
        } else {
            self.nodes[parent_id].set_right(Some(child_id));
            assert(self@.nodes =~= old(self)@.nodes.update(parent_id as int, TNodeV { right: Some(child_id), ..p }));
        }
        if child_id >= self.nodes.len() {
            return Err(TreeError::NodeNotFound(child_id));
        }
        let ghost before = self@;
        self.nodes[child_id].set_parent(Some(parent_id));
        if child_is_left {
            self.nodes[child_id].set_as_left();
        } else {
            self.nodes[child_id].set_as_right();
        }
        assert(self@.nodes =~= before.nodes.update(
            child_id as int,
            TNodeV { parent: Some(parent_id), is_left: child_is_left, ..before.nodes[child_id as int] },
        ));
        Ok(())
    }

    fn delete_relation(&mut self, parent_id: NodeID, child_id: NodeID) -> (r: Result<(), TreeError>)
        ensures
            (final(self)@, r) == s_delete_relation(old(self)@, parent_id, child_id),
    {
        if parent_id >= self.nodes.len() {
            return Err(TreeError::NodeNotFound(parent_id));
        }
        let ghost p = old(self)@.nodes[parent_id as int];
        if self.nodes[parent_id].get_left() == Some(child_id) {
            self.nodes[parent_id].set_left(None);
            assert(self@.nodes =~= old(self)@.nodes.update(parent_id as int, TNodeV { left: None, ..p }));
        } else if self.nodes[parent_id].get_right() == Some(child_id) {
            self.nodes[parent_id].set_right(None);
            assert(self@.nodes =~= old(self)@.nodes.update(parent_id as int, TNodeV { right: None, ..p }));
        } else {
            return Err(TreeError::NodeHasNoChildWithID(parent_id, child_id));
        }
        if child_id >= self.nodes.len() {
            return Err(TreeError::NodeNotFound(child_id));
        }
        if self.nodes[child_id].get_parent() == Some(parent_id) {
            let ghost before = self@;
            self.nodes[child_id].set_parent(None);
            assert(self@.nodes =~= before.nodes.update(child_id as int, TNodeV { parent: None, ..before.nodes[child_id as int] }));
        } else {
            return Err(TreeError::NodeHasNoParentWithID(child_id, parent_id));
        }
        Ok(())
    }

    fn add_left(&mut self, child_id: NodeID) -> (r: Result<(), TreeError>)
        ensures
            (final(self)@, r) == s_add_left(old(self)@, child_id),
    {
        let parent_id = self.upper_cursor;
        if let Some(old_left_id) = self.get_left(parent_id)? {
            self.delete_relation(parent_id, old_left_id)?;
            self.unattached.push(old_left_id);
        }
        self.set_relation_left(parent_id, child_id)?;
        self.lower_cursor = child_id;
        Ok(())
    }

    fn add_right(&mut self, child_id: NodeID) -> (r: Result<(), TreeError>)
        ensures
            (final(self)@, r) == s_add_right(old(self)@, child_id),
    {
        let parent_id = self.lower_cursor;
        self.set_relation_right(parent_id, child_id)?;
        self.lower_cursor = child_id;
        self.upper_cursor = child_id;
        Ok(())
    }

    fn add_child(&mut self, child_id: NodeID, is_left: bool) -> (r: Result<(), TreeError>)
        ensures
            (final(self)@, r) == s_add_child(old(self)@, child_id, is_left),
    {
        if is_left {
            self.add_left(child_id)
        } else {
            self.add_right(child_id)
        }
    }

    fn get_features(&self, id: NodeID) -> (r: Result<&FeatureSet, TreeError>)
        ensures
            match s_get_features(self@, id) {
                Ok(fs) => r matches Ok(f) && f@ == fs,
                Err(e) => r == Err::<&FeatureSet, TreeError>(e),
            },
    {
        match self.get_node(id)?.get_value() {
            SyntaxValue::Features(features) => Ok(features),
            _ => Err(TreeError::NodeIsNotFeatures(id)),
        }
    }

    fn project(&mut self, from_id: NodeID, ignore: &FeatureSet) -> (r: Result<(), TreeError>)
        ensures
            (final(self)@, r) == s_project(old(self)@, from_id, ignore@),
    {
        let parent_id = self.get_parent(from_id)?;
        let from_fs = self.get_features(from_id)?.duplicate();
        let _ = self.get_features(parent_id)?;
        let ghost p = old(self)@.nodes[parent_id as int];
        let mut node_value = self.nodes[parent_id].get_value().duplicate();
        let res = match &mut node_value {
            SyntaxValue::Features(onto) => FeatureSet::project(&from_fs, onto, ignore),
            SyntaxValue::Item(_) => Ok(()),
        };
        let ghost nv = node_value@;
        *self.nodes[parent_id].get_value_mut() = node_value;
        assert(self@.nodes =~= old(self)@.nodes.update(parent_id as int, TNodeV { value: nv, ..p }));
        match res {
            Err(e) => Err(TreeError::Syntax(e)),
            Ok(()) => Ok(()),
        }
    }

    fn append_child(&mut self, value: LexiconNode, trigger: NodeID, child_is_left: bool) -> (r: Result<NodeID, TreeError>)
        requires
            old(self)@.next_chain_id + moved_count(value@) <= usize::MAX,
        ensures
            final(self)@ == s_append_child(old(self)@, value@, trigger, child_is_left).0,
            r == s_append_child(old(self)@, value@, trigger, child_is_left).1,
            final(self)@.next_chain_id <= old(self)@.next_chain_id + moved_count(value@),
        decreases value,
    {
        match value {
            LexiconNode::Value { value } => {
                let child_id = self.new_node(value);
                self.add_child(child_id, child_is_left)?;
                Ok(child_id)
            },
            LexiconNode::Lambda { from, to, project: from_project } => {
                let ghost fv = (*from)@;
                let ghost tv = (*to)@;
                let to = match *to {
                    LexiconNode::Value { value } => value,
                    _ => {
                        return Err(TreeError::LambdaToIsNestedLambda);
                    },
                };
                let child_id = self.new_node(to);
                self.add_child(child_id, child_is_left)?;
                let child_child_id = self.append_child(*from, trigger, !child_is_left)?;
                if from_project {
                    let ignore_fs = self.get_features(child_child_id)?.duplicate();
                    self.set_project(child_child_id, Some(ignore_fs))?;
                }
                Ok(child_id)
            },
            LexiconNode::Moved { from } => {
                let child_id = self.new_node(SyntaxValue::Features(from));
                self.add_child(child_id, child_is_left)?;
                self.set_moved(child_id, trigger)?;
                Ok(child_id)
            },
        }
    }

    fn climb(&mut self, fuel: usize) -> (r: Result<(), TreeError>)
        ensures
            final(self)@ == (TreeV { upper: s_climb(old(self)@.nodes, old(self)@.upper, fuel as nat).0, ..old(self)@ }),
            r == s_climb(old(self)@.nodes, old(self)@.upper, fuel as nat).1,
        decreases fuel,
    {
        let u = self.upper_cursor;
        if !self.get_is_left(u)? {
            return Ok(());
        }
        if fuel == 0 {
            return Err(TreeError::MalformedLinks);
        }
        let p = self.get_parent(u)?;
        self.upper_cursor = p;
        self.climb(fuel - 1)
    }

    fn try_project(&mut self, fuel: usize) -> (r: Result<(), TreeError>)
        ensures
            (final(self)@, r) == s_try_project(old(self)@, fuel as nat),
        decreases fuel,
    {
        let cur_id = self.lower_cursor;
        let parent_id = match self.get_parent(cur_id) {
            Ok(id) => id,
            Err(_) => {
                return Ok(());
            },
        };
        if !self.if_done(cur_id)? && self.get_is_left(cur_id)? {
            let cur_fs = self.get_features(cur_id)?;
            let parent_fs = self.get_features(parent_id)?;
            if parent_fs.is_subset(cur_fs) {
                let ignore = parent_fs.duplicate();
                self.project(cur_id, &ignore)?;
                let _ = self.set_done(cur_id);
                self.set_done(parent_id)?;
            }
        }
        if !self.if_done(cur_id)? {
            return Ok(());
        }
        let taken = self.take_project(cur_id);
        if let Ok(Some(ignore_fs)) = taken {
            self.project(cur_id, &ignore_fs)?;
        }
        self.lower_cursor = parent_id;
        self.upper_cursor = parent_id;
        let n = self.nodes.len();
        self.climb(n)?;
        if fuel == 0 {
            return Err(TreeError::MalformedLinks);
        }
        self.try_project(fuel - 1)
    }

    /// Puts a new parent built from `value` above the node at the lower cursor (see
    /// `s_insert_parent`), then completes what can be completed upward.
    pub fn insert_parent(&mut self, value: LexiconNode, with_project: Option<FeatureSet>) -> (r: Result<(), TreeError>)
        requires
            old(self)@.next_chain_id + moved_count(value@) <= usize::MAX,
        ensures
            (final(self)@, r) == s_insert_parent(old(self)@, value@, super::node::opt_fs_view(with_project)),
    {
        let cur_id = self.lower_cursor;
        let cur_is_left = self.get_is_left(cur_id)?;
        let old_upper_cursor = self.upper_cursor;
        let parent_id = self.get_parent(cur_id)?;
        self.delete_relation(parent_id, cur_id)?;
        self.set_done(cur_id)?;
        self.lower_cursor = parent_id;
        let new_parent_id = self.append_child(value, cur_id, cur_is_left)?;
        self.set_relation(new_parent_id, cur_id, cur_is_left)?;
        let taken = self.take_project(cur_id);
        if let Ok(Some(p)) = taken {
            self.set_project(new_parent_id, Some(p))?;
        }
        if let Some(ignore) = with_project {
            self.project(cur_id, &ignore)?;
        }
        if old_upper_cursor != self.upper_cursor {
            if let Some(unattached_id) = self.unattached.pop() {
                self.add_left(unattached_id)?;
            }
        }
        let n = self.nodes.len();
        self.try_project(n)
    }

    /// Whether the input has been understood: the node at the lower cursor is done.
    pub fn understood(&self) -> (r: bool)
        ensures
            r == (in_arena(self@, self@.lower) && self@.nodes[self@.lower as int].done),
    {
        match self.if_done(self.lower_cursor) {
            Ok(b) => b,
            Err(_) => false,
        }
    }

    /// The tree model can always take in a word.
    pub fn demand(&self) -> (r: bool)
        ensures
            r,
    {
        true
    }

    /// Takes in the word `token`: a new node for it becomes the left child of the upper cursor.
    pub fn receive(&mut self, token: Key) -> (r: Result<(), TreeError>)
        ensures
            (final(self)@, r) == s_add_left(
                s_new_node(old(self)@, ValueV::Item(token)),
                old(self)@.nodes.len() as NodeID,
            ),
    {
        let id = self.new_node(SyntaxValue::Item(token));
        self.add_left(id)
    }

    /// The value at the lower cursor, which the next rule must answer.
    pub fn wonder(&self) -> (r: Option<&SyntaxValue>)
        ensures
            in_arena(self@, self@.lower) ==> (r matches Some(v) && v@ == self@.nodes[self@.lower as int].value),
            !in_arena(self@, self@.lower) ==> r is None,
    {
        match self.get_value(self.lower_cursor) {
            Ok(v) => Some(v),
            Err(_) => None,
        }
    }

    /// Applies a lexicon entry: its node becomes the new parent of the lower cursor.
    pub fn decide(&mut self, entry: LexiconEntry) -> (r: Result<(), TreeError>)
        requires
            old(self)@.next_chain_id + moved_count(entry_node(entry@)) <= usize::MAX,
        ensures
            (final(self)@, r) == s_insert_parent(old(self)@, entry_node(entry@), entry_project(entry@)),
    {
        match entry {
            LexiconEntry::Lexical(value) => self.insert_parent(value, None),
            LexiconEntry::Functional { to, project } => self.insert_parent(to, project),
        }
    }

    /// Prunes the tree: walking from the root, a node whose features are contained in
    /// those of the last node kept, when that node had a single child, is cut out and
    /// its children take its place.
    pub fn prune(&mut self) -> (r: Result<(), TreeError>)
        ensures
            (final(self)@, r) == (if old(self)@.nodes.len() > 0 {
                s_prune_loop(old(self)@, seq![0usize], None, 0, 0, walk_fuel(old(self)@))
            } else {
                (old(self)@, Ok(()))
            }),
    {
        let mut nodes: Vec<NodeID> = Vec::new();
        if self.nodes.len() == 0 {
            return Ok(());
        }
        nodes.push(0);
        let ghost start = old(self)@;
        let mut parent_features: Option<FeatureSet> = None;
        let mut parent_child_cnt: usize = 0;
        let mut parent_id: NodeID = 0;
        let mut fuel: usize = self.nodes.len();
        assert(nodes@ =~= seq![0usize]);
        loop
            invariant
                s_prune_loop(self@, nodes@, super::node::opt_fs_view(parent_features), parent_child_cnt as nat, parent_id, fuel as nat)
                    == s_prune_loop(start, seq![0usize], None, 0, 0, walk_fuel(start)),
                start == old(self)@,
                start.nodes.len() > 0,
                parent_child_cnt <= 2,
            decreases fuel,
        {
            if nodes.len() == 0 {
                return Ok(());
            }
            if fuel == 0 {
                return Err(TreeError::MalformedLinks);
            }
            let ghost before = self@;
            let ghost stack = nodes@;
            let id = nodes.pop().unwrap();
            assert(nodes@ =~= stack.drop_last());
            let node = self.get_node(id)?;
            let features: Option<FeatureSet> = match node.get_value() {
                SyntaxValue::Features(fs) => Some(fs.duplicate()),
                SyntaxValue::Item(_) => None,
            };
            let child_cnt = node.number_of_children();
            let delete = match (&features, &parent_features) {
                (Some(fs), Some(parent_fs)) => fs.is_subset(parent_fs) && parent_child_cnt == 1,
                _ => false,
            };
            let left_id = node.get_left();
            let right_id = node.get_right();
            if delete {
                self.delete_relation(parent_id, id)?;
                if let Some(left_id) = left_id {
                    self.delete_relation(id, left_id)?;
                    self.set_relation_left(parent_id, left_id)?;
                    nodes.push(left_id);
                }
                if let Some(right_id) = right_id {
                    self.delete_relation(id, right_id)?;
                    self.set_relation_right(parent_id, right_id)?;
                    nodes.push(right_id);
                }
                parent_child_cnt = child_cnt;
            } else {
                if let Some(left_id) = left_id {
                    nodes.push(left_id);
                }
                if let Some(right_id) = right_id {
                    nodes.push(right_id);
                }
                parent_features = features;
                parent_child_cnt = child_cnt;
                parent_id = id;
            }
            fuel = fuel - 1;
        }
    }

    /// The words at the leaves, from left to right.
    pub fn surface_items(&self) -> (r: Result<Vec<Key>, TreeError>)
        ensures
            self@.nodes.len() == 0 ==> (r matches Ok(v) && v@.len() == 0),
            self@.nodes.len() > 0 ==> match s_surface_loop(self@, seq![self@.root], Seq::empty(), walk_fuel(self@)) {
                Ok(s) => r matches Ok(v) && v@ == s,
                Err(e) => r matches Err(e2) && e2 == e,
            },
    {
        let mut surface: Vec<Key> = Vec::new();
        if self.is_empty() {
            return Ok(surface);
        }
        let mut nodes: Vec<NodeID> = Vec::new();
        nodes.push(self.root);
        let mut fuel: usize = self.nodes.len();
        assert(nodes@ =~= seq![self@.root]);
        assert(surface@ =~= Seq::<Key>::empty());
        loop
            invariant
                s_surface_loop(self@, nodes@, surface@, fuel as nat)
                    == s_surface_loop(self@, seq![self@.root], Seq::empty(), walk_fuel(self@)),
                self@.nodes.len() > 0,
            decreases fuel,
        {
            if nodes.len() == 0 {
                return Ok(surface);
            }
            if fuel == 0 {
                return Err(TreeError::MalformedLinks);
            }
            let ghost stack = nodes@;
            let id = nodes.pop().unwrap();
            assert(nodes@ =~= stack.drop_last());
            let node = self.get_node(id)?;
            let left = node.get_left();
            let right = node.get_right();
            if left.is_none() && right.is_none() {
                if let SyntaxValue::Item(item) = node.get_value() {
                    surface.push(*item);
                }
            } else {
                if let Some(right_id) = right {
                    nodes.push(right_id);
                }
                if let Some(left_id) = left {
                    nodes.push(left_id);
                }
            }
            fuel = fuel - 1;
        }
    }
}

/// The lexicon node that an entry places.
pub open spec fn entry_node(e: EntryV) -> LexNodeV {
    match e {
        EntryV::Lexical(n) => n,
        EntryV::Functional(n, _) => n,
    }
}

/// The features that an entry passes down, if any.
pub open spec fn entry_project(e: EntryV) -> Option<Map<Key, Option<Key>>> {
    match e {
        EntryV::Lexical(_) => None,
        EntryV::Functional(_, p) => p,
    }
}

} // verus!
