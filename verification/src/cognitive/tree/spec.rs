use super::node::{fresh_node, NodeID, TNodeV};
use crate::error::{SyntaxError, TreeError};
use crate::lexicon::LexNodeV;
use crate::syntax::feature_set::{before_first_clash, categories_overlap, map_subset, projected};
use crate::syntax::{Key, ValueV};
use vstd::prelude::*;

verus! {

/// The mathematical value of a tree model.
pub ghost struct TreeV {
    /// The arena: the node with id `i` is `nodes[i]`.
    pub nodes: Seq<TNodeV>,
    pub root: NodeID,
    pub upper: NodeID,
    pub lower: NodeID,
    /// Subtrees set aside while the tree is rearranged, the last one on top.
    pub unattached: Seq<NodeID>,
    pub next_chain_id: usize,
}

pub type FMap = Map<Key, Option<Key>>;

pub open spec fn in_arena(t: TreeV, id: NodeID) -> bool {
    id < t.nodes.len()
}

pub open spec fn set_node(t: TreeV, id: NodeID, n: TNodeV) -> TreeV {
    TreeV { nodes: t.nodes.update(id as int, n), ..t }
}

pub open spec fn not_found<T>(t: TreeV, id: NodeID) -> (TreeV, Result<T, TreeError>) {
    (t, Err(TreeError::NodeNotFound(id)))
}

/// Adds a fresh node holding `v`; its id is the arena's length.
pub open spec fn s_new_node(t: TreeV, v: ValueV) -> TreeV {
    TreeV { nodes: t.nodes.push(fresh_node(t.nodes.len() as NodeID, v)), ..t }
}

pub open spec fn s_set_done(t: TreeV, id: NodeID) -> (TreeV, Result<(), TreeError>) {
    if !in_arena(t, id) {
        not_found(t, id)
    } else {
        (set_node(t, id, TNodeV { done: true, ..t.nodes[id as int] }), Ok(()))
    }
}

pub open spec fn s_get_parent(t: TreeV, id: NodeID) -> Result<NodeID, TreeError> {
    if !in_arena(t, id) {
        Err(TreeError::NodeNotFound(id))
    } else {
        match t.nodes[id as int].parent {
            Some(p) => Ok(p),
            None => Err(TreeError::NodeHasNoParent(id)),
        }
    }
}

pub open spec fn s_take_project(t: TreeV, id: NodeID) -> (TreeV, Result<Option<FMap>, TreeError>) {
    if !in_arena(t, id) {
        not_found(t, id)
    } else {
        (set_node(t, id, TNodeV { project: None, ..t.nodes[id as int] }), Ok(t.nodes[id as int].project))
    }
}

pub open spec fn s_set_project(t: TreeV, id: NodeID, p: Option<FMap>) -> (TreeV, Result<(), TreeError>) {
    if !in_arena(t, id) {
        not_found(t, id)
    } else {
        (set_node(t, id, TNodeV { project: p, ..t.nodes[id as int] }), Ok(()))
    }
}

pub open spec fn s_set_chain_id(t: TreeV, id: NodeID, c: usize) -> (TreeV, Result<(), TreeError>) {
    if !in_arena(t, id) {
        not_found(t, id)
    } else {
        (set_node(t, id, TNodeV { chain_id: Some(c), ..t.nodes[id as int] }), Ok(()))
    }
}

/// Records that `from` was moved from `to`, and puts both in one chain: the chain of
/// `from` or else of `to`, or a new one.
pub open spec fn s_set_moved(t: TreeV, from: NodeID, to: NodeID) -> (TreeV, Result<(), TreeError>) {
    if !in_arena(t, from) {
        not_found(t, from)
    } else {
        let t1 = set_node(t, from, TNodeV { moved: Some(to), ..t.nodes[from as int] });
        if !in_arena(t1, to) {
            not_found(t1, to)
        } else {
            let existing = match t1.nodes[from as int].chain_id {
                Some(c) => Some(c),
                None => t1.nodes[to as int].chain_id,
            };
            let (t2, c) = match existing {
                Some(c) => (t1, c),
                None => (TreeV { next_chain_id: (t1.next_chain_id + 1) as usize, ..t1 }, t1.next_chain_id),
            };
            let t3 = set_node(t2, from, TNodeV { chain_id: Some(c), ..t2.nodes[from as int] });
            (set_node(t3, to, TNodeV { chain_id: Some(c), ..t3.nodes[to as int] }), Ok(()))
        }
    }
}

/// Makes `child` the left (or right) child of `parent`.
pub open spec fn s_set_relation(t: TreeV, parent: NodeID, child: NodeID, is_left: bool) -> (TreeV, Result<(), TreeError>) {
    if !in_arena(t, parent) {
        not_found(t, parent)
    } else {
        let p = t.nodes[parent as int];
        let t1 = if is_left {
            set_node(t, parent, TNodeV { left: Some(child), ..p })
        } else {
            set_node(t, parent, TNodeV { right: Some(child), ..p })
        };
        if !in_arena(t1, child) {
            not_found(t1, child)
        } else {
            (set_node(t1, child, TNodeV { parent: Some(parent), is_left, ..t1.nodes[child as int] }), Ok(()))
        }
    }
}

/// Cuts the link between `parent` and its child `child`.
pub open spec fn s_delete_relation(t: TreeV, parent: NodeID, child: NodeID) -> (TreeV, Result<(), TreeError>) {
    if !in_arena(t, parent) {
        not_found(t, parent)
    } else {
        let p = t.nodes[parent as int];
        if p.left != Some(child) && p.right != Some(child) {
            (t, Err(TreeError::NodeHasNoChildWithID(parent, child)))
        } else {
            let t1 = if p.left == Some(child) {
                set_node(t, parent, TNodeV { left: None, ..p })
            } else {
                set_node(t, parent, TNodeV { right: None, ..p })
            };
            if !in_arena(t1, child) {
                not_found(t1, child)
            } else if t1.nodes[child as int].parent != Some(parent) {
                (t1, Err(TreeError::NodeHasNoParentWithID(child, parent)))
            } else {
                (set_node(t1, child, TNodeV { parent: None, ..t1.nodes[child as int] }), Ok(()))
            }
        }
    }
}

/// Attaches `child` as left child of the upper cursor, setting aside the left child it
/// had; the lower cursor moves to `child`.
pub open spec fn s_add_left(t: TreeV, child: NodeID) -> (TreeV, Result<(), TreeError>) {
    let parent = t.upper;
    if !in_arena(t, parent) {
        not_found(t, parent)
    } else {
        let (t1, r1) = match t.nodes[parent as int].left {
            Some(old_left) => {
                let (ta, ra) = s_delete_relation(t, parent, old_left);
                match ra {
                    Ok(_) => (TreeV { unattached: ta.unattached.push(old_left), ..ta }, ra),
                    Err(_) => (ta, ra),
                }
            },
            None => (t, Ok(())),
        };
        match r1 {
            Err(e) => (t1, Err(e)),
            Ok(_) => {
                let (t2, r2) = s_set_relation(t1, parent, child, true);
                match r2 {
                    Err(e) => (t2, Err(e)),
                    Ok(_) => (TreeV { lower: child, ..t2 }, Ok(())),
                }
            },
        }
    }
}

/// Attaches `child` as right child of the lower cursor; both cursors move to `child`.
pub open spec fn s_add_right(t: TreeV, child: NodeID) -> (TreeV, Result<(), TreeError>) {
    let (t1, r) = s_set_relation(t, t.lower, child, false);
    match r {
        Err(e) => (t1, Err(e)),
        Ok(_) => (TreeV { lower: child, upper: child, ..t1 }, Ok(())),
    }
}

pub open spec fn s_add_child(t: TreeV, child: NodeID, is_left: bool) -> (TreeV, Result<(), TreeError>) {
    if is_left {
        s_add_left(t, child)
    } else {
        s_add_right(t, child)
    }
}

pub open spec fn s_get_features(t: TreeV, id: NodeID) -> Result<FMap, TreeError> {
    if !in_arena(t, id) {
        Err(TreeError::NodeNotFound(id))
    } else {
        match t.nodes[id as int].value {
            ValueV::Features(fs) => Ok(fs),
            ValueV::Item(_) => Err(TreeError::NodeIsNotFeatures(id)),
        }
    }
}

/// Passes the features of `from_id`, less `ignore`, up onto its parent.
pub open spec fn s_project(t: TreeV, from_id: NodeID, ignore: FMap) -> (TreeV, Result<(), TreeError>) {
    match s_get_parent(t, from_id) {
        Err(e) => (t, Err(e)),
        Ok(parent) => match s_get_features(t, from_id) {
            Err(e) => (t, Err(e)),
            Ok(from_fs) => match s_get_features(t, parent) {
                Err(e) => (t, Err(e)),
                Ok(onto) => {
                    let p = projected(from_fs, ignore);
                    let t1 = set_node(
                        t,
                        parent,
                        TNodeV {
                            value: ValueV::Features(onto.union_prefer_right(before_first_clash(p, onto))),
                            ..t.nodes[parent as int]
                        },
                    );
                    if categories_overlap(p, onto) {
                        (t1, Err(TreeError::Syntax(SyntaxError::CategoryAlreadyHasValue)))
                    } else {
                        (t1, Ok(()))
                    }
                },
            },
        },
    }
}

/// Builds the nodes for the lexicon node `value` and attaches them at the cursors:
/// a value becomes one node; a function becomes a node for its result with a node for
/// its argument on the other side; a moved constituent becomes a node linked to `trigger`.
pub open spec fn s_append_child(t: TreeV, value: LexNodeV, trigger: NodeID, child_is_left: bool) -> (TreeV, Result<NodeID, TreeError>)
    decreases value,
{
    match value {
        LexNodeV::Value(v) => {
            let id = t.nodes.len() as NodeID;
            let (t1, r) = s_add_child(s_new_node(t, v), id, child_is_left);
            match r {
                Err(e) => (t1, Err(e)),
                Ok(_) => (t1, Ok(id)),
            }
        },
        LexNodeV::Lambda(from, to, from_project) => match *to {
            LexNodeV::Value(v) => {
                let id = t.nodes.len() as NodeID;
                let (t1, r1) = s_add_child(s_new_node(t, v), id, child_is_left);
                match r1 {
                    Err(e) => (t1, Err(e)),
                    Ok(_) => {
                        let (t2, r2) = s_append_child(t1, *from, trigger, !child_is_left);
                        match r2 {
                            Err(e) => (t2, Err(e)),
                            Ok(cc) => {
                                if from_project {
                                    match s_get_features(t2, cc) {
                                        Err(e) => (t2, Err(e)),
                                        Ok(ignore) => {
                                            let (t3, r3) = s_set_project(t2, cc, Some(ignore));
                                            match r3 {
                                                Err(e) => (t3, Err(e)),
                                                Ok(_) => (t3, Ok(id)),
                                            }
                                        },
                                    }
                                } else {
                                    (t2, Ok(id))
                                }
                            },
                        }
                    },
                }
            },
            _ => (t, Err(TreeError::LambdaToIsNestedLambda)),
        },
        LexNodeV::Moved(fs) => {
            let id = t.nodes.len() as NodeID;
            let (t1, r1) = s_add_child(s_new_node(t, ValueV::Features(fs)), id, child_is_left);
            match r1 {
                Err(e) => (t1, Err(e)),
                Ok(_) => {
                    let (t2, r2) = s_set_moved(t1, id, trigger);
                    match r2 {
                        Err(e) => (t2, Err(e)),
                        Ok(_) => (t2, Ok(id)),
                    }
                },
            }
        },
    }
}

/// Climbs from `u` while the node is a left child, at most `fuel` steps: the node
/// reached, and whether the climb ended at a node that is not a left child.
pub open spec fn s_climb(nodes: Seq<TNodeV>, u: NodeID, fuel: nat) -> (NodeID, Result<(), TreeError>)
    decreases fuel,
{
    if u >= nodes.len() {
        (u, Err(TreeError::NodeNotFound(u)))
    } else if !nodes[u as int].is_left {
        (u, Ok(()))
    } else if fuel == 0 {
        (u, Err(TreeError::MalformedLinks))
    } else {
        match nodes[u as int].parent {
            None => (u, Err(TreeError::NodeHasNoParent(u))),
            Some(p) => s_climb(nodes, p, (fuel - 1) as nat),
        }
    }
}

/// Completes what can be completed from the lower cursor upward: a node that is a left
/// child whose parent's features it holds passes them up, and both are done; a done
/// node passes up its marked features, and the cursors climb.
pub open spec fn s_try_project(t: TreeV, fuel: nat) -> (TreeV, Result<(), TreeError>)
    decreases fuel,
{
    let cur = t.lower;
    match s_get_parent(t, cur) {
        Err(_) => (t, Ok(())),
        Ok(parent) => {
            let n = t.nodes[cur as int];
            let (t1, r1) = if !n.done && n.is_left {
                match s_get_features(t, cur) {
                    Err(e) => (t, Err(e)),
                    Ok(cur_fs) => match s_get_features(t, parent) {
                        Err(e) => (t, Err(e)),
                        Ok(parent_fs) => if map_subset(parent_fs, cur_fs) {
                            let (ta, ra) = s_project(t, cur, parent_fs);
                            match ra {
                                Err(e) => (ta, Err(e)),
                                Ok(_) => {
                                    let (tb, _) = s_set_done(ta, cur);
                                    s_set_done(tb, parent)
                                },
                            }
                        } else {
                            (t, Ok(()))
                        },
                    },
                }
            } else {
                (t, Ok(()))
            };
            match r1 {
                Err(e) => (t1, Err(e)),
                Ok(_) => if !t1.nodes[cur as int].done {
                    (t1, Ok(()))
                } else {
                    let (t2, rp) = s_take_project(t1, cur);
                    let (t3, r3) = match rp {
                        Ok(Some(ignore)) => s_project(t2, cur, ignore),
                        _ => (t2, Ok(())),
                    };
                    match r3 {
                        Err(e) => (t3, Err(e)),
                        Ok(_) => {
                            let (u, rc) = s_climb(t3.nodes, parent, t3.nodes.len() as nat);
                            let t4 = TreeV { lower: parent, upper: u, ..t3 };
                            match rc {
                                Err(e) => (t4, Err(e)),
                                Ok(_) => if fuel == 0 {
                                    (t4, Err(TreeError::MalformedLinks))
                                } else {
                                    s_try_project(t4, (fuel - 1) as nat)
                                },
                            }
                        },
                    }
                },
            }
        },
    }
}

} // verus!

verus! {

/// How many moved constituents a lexicon node holds.
pub open spec fn moved_count(n: LexNodeV) -> nat
    decreases n,
{
    match n {
        LexNodeV::Value(_) => 0,
        LexNodeV::Lambda(from, to, _) => moved_count(*from) + moved_count(*to),
        LexNodeV::Moved(_) => 1,
    }
}

/// Puts a new parent built from `value` above the node at the lower cursor, which
/// becomes done; marked features move to the new parent, `with_project` passes the
/// node's features up, a set-aside subtree is re-attached when the upper cursor moved,
/// and completion proceeds upward.
pub open spec fn s_insert_parent(t: TreeV, value: LexNodeV, with_project: Option<FMap>) -> (TreeV, Result<(), TreeError>) {
    let cur = t.lower;
    if !in_arena(t, cur) {
        not_found(t, cur)
    } else {
        let cur_is_left = t.nodes[cur as int].is_left;
        let old_upper = t.upper;
        match s_get_parent(t, cur) {
            Err(e) => (t, Err(e)),
            Ok(parent) => {
                let (t1, r1) = s_delete_relation(t, parent, cur);
                if r1 is Err { (t1, r1) } else {
                let (t2, r2) = s_set_done(t1, cur);
                if r2 is Err { (t2, r2) } else {
                let t3 = TreeV { lower: parent, ..t2 };
                let (t4, rn) = s_append_child(t3, value, cur, cur_is_left);
                match rn {
                    Err(e) => (t4, Err(e)),
                    Ok(np) => {
                        let (t5, r5) = s_set_relation(t4, np, cur, cur_is_left);
                        if r5 is Err { (t5, r5) } else {
                        let (t6, rp) = s_take_project(t5, cur);
                        let (t7, r7) = match rp {
                            Ok(Some(p)) => s_set_project(t6, np, Some(p)),
                            _ => (t6, Ok(())),
                        };
                        if r7 is Err { (t7, r7) } else {
                        let (t8, r8) = match with_project {
                            Some(ignore) => s_project(t7, cur, ignore),
                            None => (t7, Ok(())),
                        };
                        if r8 is Err { (t8, r8) } else {
                        let (t9, r9) = if old_upper != t8.upper && t8.unattached.len() > 0 {
                            let u = t8.unattached.last();
                            s_add_left(TreeV { unattached: t8.unattached.drop_last(), ..t8 }, u)
                        } else {
                            (t8, Ok(()))
                        };
                        if r9 is Err { (t9, r9) } else {
                        s_try_project(t9, t9.nodes.len() as nat)
                        }}}}
                    },
                }
                }}
            },
        }
    }
}

} // verus!

verus! {

/// One pass of pruning over the nodes still on `stack` (the last on top), at most `fuel`
/// nodes: a node whose features are contained in those of the last node kept, when that
/// node had one child, is cut out and its children are attached to that node in its place.
pub open spec fn s_prune_loop(
    t: TreeV,
    stack: Seq<NodeID>,
    parent_features: Option<FMap>,
    parent_child_cnt: nat,
    parent_id: NodeID,
    fuel: nat,
) -> (TreeV, Result<(), TreeError>)
    decreases fuel,
{
    if stack.len() == 0 {
        (t, Ok(()))
    } else if fuel == 0 {
        (t, Err(TreeError::MalformedLinks))
    } else {
        let id = stack.last();
        let rest = stack.drop_last();
        if !in_arena(t, id) {
            not_found(t, id)
        } else {
            let node = t.nodes[id as int];
            let features = match node.value {
                ValueV::Features(fs) => Some(fs),
                ValueV::Item(_) => None,
            };
            let child_cnt = super::node::child_count(node);
            let delete = match (features, parent_features) {
                (Some(fs), Some(pfs)) => map_subset(fs, pfs) && parent_child_cnt == 1,
                _ => false,
            };
            if delete {
                let (t1, r1) = s_delete_relation(t, parent_id, id);
                if r1 is Err { (t1, r1) } else {
                let (t2, r2, s2) = match node.left {
                    Some(l) => {
                        let (ta, ra) = s_delete_relation(t1, id, l);
                        if ra is Err { (ta, ra, rest) } else {
                            let (tb, rb) = s_set_relation(ta, parent_id, l, true);
                            (tb, rb, rest.push(l))
                        }
                    },
                    None => (t1, Ok(()), rest),
                };
                if r2 is Err { (t2, r2) } else {
                let (t3, r3, s3) = match node.right {
                    Some(rt) => {
                        let (ta, ra) = s_delete_relation(t2, id, rt);
                        if ra is Err { (ta, ra, s2) } else {
                            let (tb, rb) = s_set_relation(ta, parent_id, rt, false);
                            (tb, rb, s2.push(rt))
                        }
                    },
                    None => (t2, Ok(()), s2),
                };
                if r3 is Err { (t3, r3) } else {
                s_prune_loop(t3, s3, parent_features, child_cnt, parent_id, (fuel - 1) as nat)
                }}}
            } else {
                let s1 = match node.left { Some(l) => rest.push(l), None => rest };
                let s2 = match node.right { Some(rt) => s1.push(rt), None => s1 };
                s_prune_loop(t, s2, features, child_cnt, id, (fuel - 1) as nat)
            }
        }
    }
}

/// The walk that collects the words at the leaves, at most `fuel` nodes: nodes are
/// taken from the top of `stack`, a childless node adds its word, and an inner node
/// puts its right child and then its left child on the stack.
pub open spec fn s_surface_loop(t: TreeV, stack: Seq<NodeID>, acc: Seq<Key>, fuel: nat) -> Result<Seq<Key>, TreeError>
    decreases fuel,
{
    if stack.len() == 0 {
        Ok(acc)
    } else if fuel == 0 {
        Err(TreeError::MalformedLinks)
    } else {
        let id = stack.last();
        let rest = stack.drop_last();
        if !in_arena(t, id) {
            Err(TreeError::NodeNotFound(id))
        } else {
            let node = t.nodes[id as int];
            if node.left is None && node.right is None {
                let acc1 = match node.value {
                    ValueV::Item(k) => acc.push(k),
                    ValueV::Features(_) => acc,
                };
                s_surface_loop(t, rest, acc1, (fuel - 1) as nat)
            } else {
                let s1 = match node.right { Some(rt) => rest.push(rt), None => rest };
                let s2 = match node.left { Some(l) => s1.push(l), None => s1 };
                s_surface_loop(t, s2, acc, (fuel - 1) as nat)
            }
        }
    }
}

/// The bound on the nodes a walk over the arena visits: each node once.
pub open spec fn walk_fuel(t: TreeV) -> nat {
    t.nodes.len()
}

} // verus!
