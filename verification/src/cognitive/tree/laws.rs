use super::node::NodeID;
use super::spec::{
    s_add_child, s_add_left, s_add_right, s_append_child, s_delete_relation, s_get_features, s_insert_parent,
    s_new_node, s_project, s_prune_loop, s_set_done, s_set_moved, s_set_project, s_set_relation, s_take_project,
    s_try_project, FMap, TreeV,
};
use crate::lexicon::LexNodeV;
use crate::syntax::{Key, ValueV};
use vstd::prelude::*;

verus! {

/// Every node of the arena carries its own position as its id.
pub open spec fn ids_match_positions(t: TreeV) -> bool {
    forall|i: int| 0 <= i < t.nodes.len() ==> #[trigger] t.nodes[i].id == i as NodeID
}

/// `t2` keeps the arena of `t`: no node is removed, ids match positions in both, and
/// the root stays.
pub open spec fn arena_kept(t: TreeV, t2: TreeV) -> bool {
    &&& t.nodes.len() <= t2.nodes.len()
    &&& ids_match_positions(t2)
    &&& t2.root == t.root
}

proof fn lemma_new_node(t: TreeV, v: ValueV)
    requires
        ids_match_positions(t),
    ensures
        arena_kept(t, s_new_node(t, v)),
{
    let t2 = s_new_node(t, v);
    assert forall|i: int| 0 <= i < t2.nodes.len() implies #[trigger] t2.nodes[i].id == i as NodeID by {
        if i < t.nodes.len() {
            assert(t2.nodes[i] == t.nodes[i]);
        }
    }
}

proof fn lemma_basic_ops(t: TreeV, id: NodeID, other: NodeID, is_left: bool, p: Option<FMap>, ignore: FMap)
    requires
        ids_match_positions(t),
    ensures
        arena_kept(t, s_set_done(t, id).0),
        arena_kept(t, s_take_project(t, id).0),
        arena_kept(t, s_set_project(t, id, p).0),
        arena_kept(t, s_set_moved(t, id, other).0),
        arena_kept(t, s_set_relation(t, id, other, is_left).0),
        arena_kept(t, s_delete_relation(t, id, other).0),
        arena_kept(t, s_project(t, id, ignore).0),
{
}

proof fn lemma_add_child(t: TreeV, child: NodeID, is_left: bool)
    requires
        ids_match_positions(t),
    ensures
        arena_kept(t, s_add_child(t, child, is_left).0),
        arena_kept(t, s_add_left(t, child).0),
        arena_kept(t, s_add_right(t, child).0),
{
    let parent = t.upper;
    if parent < t.nodes.len() {
        match t.nodes[parent as int].left {
            Some(old_left) => {
                lemma_basic_ops(t, parent, old_left, true, None, Map::empty());
                let (ta, ra) = s_delete_relation(t, parent, old_left);
                let ta2 = TreeV { unattached: ta.unattached.push(old_left), ..ta };
                lemma_basic_ops(ta2, parent, child, true, None, Map::empty());
            },
            None => {
                lemma_basic_ops(t, parent, child, true, None, Map::empty());
            },
        }
    }
    lemma_basic_ops(t, t.lower, child, false, None, Map::empty());
}

proof fn lemma_append_child(t: TreeV, value: LexNodeV, trigger: NodeID, child_is_left: bool)
    requires
        ids_match_positions(t),
    ensures
        arena_kept(t, s_append_child(t, value, trigger, child_is_left).0),
    decreases value,
{
    match value {
        LexNodeV::Value(v) => {
            let id = t.nodes.len() as NodeID;
            lemma_new_node(t, v);
            lemma_add_child(s_new_node(t, v), id, child_is_left);
        },
        LexNodeV::Lambda(from, to, from_project) => match *to {
            LexNodeV::Value(v) => {
                let id = t.nodes.len() as NodeID;
                lemma_new_node(t, v);
                let t0 = s_new_node(t, v);
                lemma_add_child(t0, id, child_is_left);
                let (t1, r1) = s_add_child(t0, id, child_is_left);
                if r1 is Ok {
                    lemma_append_child(t1, *from, trigger, !child_is_left);
                    let (t2, r2) = s_append_child(t1, *from, trigger, !child_is_left);
                    if let Ok(cc) = r2 {
                        if from_project {
                            if let Ok(ignore) = s_get_features(t2, cc) {
                                lemma_basic_ops(t2, cc, cc, true, Some(ignore), Map::empty());
                            }
                        }
                    }
                }
            },
            _ => {},
        },
        LexNodeV::Moved(fs) => {
            let id = t.nodes.len() as NodeID;
            lemma_new_node(t, ValueV::Features(fs));
            let t0 = s_new_node(t, ValueV::Features(fs));
            lemma_add_child(t0, id, child_is_left);
            let (t1, r1) = s_add_child(t0, id, child_is_left);
            if r1 is Ok {
                lemma_basic_ops(t1, id, trigger, true, None, Map::empty());
            }
        },
    }
}

proof fn lemma_try_project(t: TreeV, fuel: nat)
    requires
        ids_match_positions(t),
    ensures
        arena_kept(t, s_try_project(t, fuel).0),
    decreases fuel,
{
    let cur = t.lower;
    if let Ok(parent) = super::spec::s_get_parent(t, cur) {
        let n = t.nodes[cur as int];
        lemma_basic_ops(t, cur, parent, true, None, Map::empty());
        let (t1, r1) = if !n.done && n.is_left {
            match s_get_features(t, cur) {
                Err(e) => (t, Err(e)),
                Ok(cur_fs) => match s_get_features(t, parent) {
                    Err(e) => (t, Err(e)),
                    Ok(parent_fs) => if crate::syntax::feature_set::map_subset(parent_fs, cur_fs) {
                        lemma_basic_ops(t, cur, parent, true, None, parent_fs);
                        let (ta, ra) = s_project(t, cur, parent_fs);
                        match ra {
                            Err(e) => (ta, Err(e)),
                            Ok(_) => {
                                lemma_basic_ops(ta, cur, parent, true, None, Map::empty());
                                let (tb, _) = s_set_done(ta, cur);
                                lemma_basic_ops(tb, parent, parent, true, None, Map::empty());
                                s_set_done(tb, parent)
                            },
                        }
                    } else {
                        (t, Ok(()))
                    },
                },
            }
        } else {
            (t, Ok(()))
        };
        assert(arena_kept(t, t1));
        if r1 is Ok && t1.nodes[cur as int].done {
            lemma_basic_ops(t1, cur, parent, true, None, Map::empty());
            let (t2, rp) = s_take_project(t1, cur);
            match rp {
                Ok(Some(ignore)) => {
                    lemma_basic_ops(t2, cur, parent, true, None, ignore);
                },
                _ => {},
            }
            let (t3, r3) = match rp {
                Ok(Some(ignore)) => s_project(t2, cur, ignore),
                _ => (t2, Ok(())),
            };
            if r3 is Ok {
                let (u, rc) = super::spec::s_climb(t3.nodes, parent, t3.nodes.len() as nat);
                let t4 = TreeV { lower: parent, upper: u, ..t3 };
                if rc is Ok && fuel > 0 {
                    lemma_try_project(t4, (fuel - 1) as nat);
                }
            }
        }
    }
}

proof fn lemma_insert_parent(t: TreeV, value: LexNodeV, with_project: Option<FMap>)
    requires
        ids_match_positions(t),
    ensures
        arena_kept(t, s_insert_parent(t, value, with_project).0),
{
    let cur = t.lower;
    if cur < t.nodes.len() {
        let cur_is_left = t.nodes[cur as int].is_left;
        if let Ok(parent) = super::spec::s_get_parent(t, cur) {
            lemma_basic_ops(t, parent, cur, true, None, Map::empty());
            let (t1, r1) = s_delete_relation(t, parent, cur);
            if r1 is Ok {
                lemma_basic_ops(t1, cur, cur, true, None, Map::empty());
                let (t2, r2) = s_set_done(t1, cur);
                if r2 is Ok {
                    let t3 = TreeV { lower: parent, ..t2 };
                    lemma_append_child(t3, value, cur, cur_is_left);
                    let (t4, rn) = s_append_child(t3, value, cur, cur_is_left);
                    if let Ok(np) = rn {
                        lemma_basic_ops(t4, np, cur, cur_is_left, None, Map::empty());
                        let (t5, r5) = s_set_relation(t4, np, cur, cur_is_left);
                        if r5 is Ok {
                            lemma_basic_ops(t5, cur, cur, true, None, Map::empty());
                            let (t6, rp) = s_take_project(t5, cur);
                            match rp {
                                Ok(Some(p)) => lemma_basic_ops(t6, np, np, true, Some(p), Map::empty()),
                                _ => {},
                            }
                            let (t7, r7) = match rp {
                                Ok(Some(p)) => s_set_project(t6, np, Some(p)),
                                _ => (t6, Ok(())),
                            };
                            if r7 is Ok {
                                match with_project {
                                    Some(ignore) => lemma_basic_ops(t7, cur, cur, true, None, ignore),
                                    None => {},
                                }
                                let (t8, r8) = match with_project {
                                    Some(ignore) => s_project(t7, cur, ignore),
                                    None => (t7, Ok(())),
                                };
                                if r8 is Ok {
                                    if t.upper != t8.upper && t8.unattached.len() > 0 {
                                        let u = t8.unattached.last();
                                        lemma_add_child(TreeV { unattached: t8.unattached.drop_last(), ..t8 }, u, true);
                                    }
                                    let (t9, r9) = if t.upper != t8.upper && t8.unattached.len() > 0 {
                                        let u = t8.unattached.last();
                                        s_add_left(TreeV { unattached: t8.unattached.drop_last(), ..t8 }, u)
                                    } else {
                                        (t8, Ok(()))
                                    };
                                    if r9 is Ok {
                                        lemma_try_project(t9, t9.nodes.len() as nat);
                                    }
                                }
                            }
                        }
                    }
                }
            }
        }
    }
}

proof fn lemma_prune_loop(
    t: TreeV,
    stack: Seq<NodeID>,
    parent_features: Option<FMap>,
    parent_child_cnt: nat,
    parent_id: NodeID,
    fuel: nat,
)
    requires
        ids_match_positions(t),
    ensures
        arena_kept(t, s_prune_loop(t, stack, parent_features, parent_child_cnt, parent_id, fuel).0),
    decreases fuel,
{
    if stack.len() > 0 && fuel > 0 {
        let id = stack.last();
        let rest = stack.drop_last();
        if id < t.nodes.len() {
            let node = t.nodes[id as int];
            let features = match node.value {
                ValueV::Features(fs) => Some(fs),
                ValueV::Item(_) => None,
            };
            let child_cnt = super::node::child_count(node);
            let delete = match (features, parent_features) {
                (Some(fs), Some(pfs)) => crate::syntax::feature_set::map_subset(fs, pfs) && parent_child_cnt == 1,
                _ => false,
            };
            if delete {
                lemma_basic_ops(t, parent_id, id, true, None, Map::empty());
                let (t1, r1) = s_delete_relation(t, parent_id, id);
                if r1 is Ok {
                    match node.left {
                        Some(l) => {
                            lemma_basic_ops(t1, id, l, true, None, Map::empty());
                            let (ta, ra) = s_delete_relation(t1, id, l);
                            lemma_basic_ops(ta, parent_id, l, true, None, Map::empty());
                        },
                        None => {},
                    }
                    let (t2, r2, s2) = match node.left {
                        Some(l) => {
                            let (ta, ra) = s_delete_relation(t1, id, l);
                            if ra is Err {
                                (ta, ra, rest)
                            } else {
                                let (tb, rb) = s_set_relation(ta, parent_id, l, true);
                                (tb, rb, rest.push(l))
                            }
                        },
                        None => (t1, Ok(()), rest),
                    };
                    if r2 is Ok {
                        match node.right {
                            Some(rt) => {
                                lemma_basic_ops(t2, id, rt, false, None, Map::empty());
                                let (ta, ra) = s_delete_relation(t2, id, rt);
                                lemma_basic_ops(ta, parent_id, rt, false, None, Map::empty());
                            },
                            None => {},
                        }
                        let (t3, r3, s3) = match node.right {
                            Some(rt) => {
                                let (ta, ra) = s_delete_relation(t2, id, rt);
                                if ra is Err {
                                    (ta, ra, s2)
                                } else {
                                    let (tb, rb) = s_set_relation(ta, parent_id, rt, false);
                                    (tb, rb, s2.push(rt))
                                }
                            },
                            None => (t2, Ok(()), s2),
                        };
                        if r3 is Ok {
                            lemma_prune_loop(t3, s3, parent_features, child_cnt, parent_id, (fuel - 1) as nat);
                        }
                    }
                }
            } else {
                let s1 = match node.left {
                    Some(l) => rest.push(l),
                    None => rest,
                };
                let s2 = match node.right {
                    Some(rt) => s1.push(rt),
                    None => s1,
                };
                lemma_prune_loop(t, s2, features, child_cnt, id, (fuel - 1) as nat);
            }
        }
    }
}

/// Taking in a word adds one node, keeps the root, and keeps every node's id equal to
/// its place in the arena.
pub proof fn law_receive_keeps_arena(t: TreeV, token: Key)
    requires
        ids_match_positions(t),
    ensures
        arena_kept(t, s_add_left(s_new_node(t, ValueV::Item(token)), t.nodes.len() as NodeID).0),
{
    lemma_new_node(t, ValueV::Item(token));
    lemma_add_child(s_new_node(t, ValueV::Item(token)), t.nodes.len() as NodeID, true);
}

/// Applying a rule never removes a node, keeps the root, and keeps every node's id
/// equal to its place in the arena.
pub proof fn law_insert_parent_keeps_arena(t: TreeV, value: LexNodeV, with_project: Option<FMap>)
    requires
        ids_match_positions(t),
    ensures
        arena_kept(t, s_insert_parent(t, value, with_project).0),
{
    lemma_insert_parent(t, value, with_project);
}

/// Pruning unlinks nodes but never removes one from the arena, keeps the root, and
/// keeps every node's id equal to its place in the arena.
pub proof fn law_prune_keeps_arena(t: TreeV)
    requires
        ids_match_positions(t),
    ensures
        t.nodes.len() > 0 ==> arena_kept(
            t,
            s_prune_loop(t, seq![0usize], None, 0, 0, super::spec::walk_fuel(t)).0,
        ),
{
    if t.nodes.len() > 0 {
        lemma_prune_loop(t, seq![0usize], None, 0, 0, super::spec::walk_fuel(t));
    }
}

/// A call on a tree: take in a word, apply an entry, or prune.
pub ghost enum TreeCall {
    Receive(Key),
    Decide(crate::lexicon::EntryV),
    Prune,
}

/// The call may be made on `t`: the chain ids it would use stay below the largest `usize`.
pub open spec fn tree_call_allowed(t: TreeV, c: TreeCall) -> bool {
    match c {
        TreeCall::Decide(e) => t.next_chain_id + super::spec::moved_count(super::model::entry_node(e)) <= usize::MAX,
        _ => true,
    }
}

/// The tree after the call, whatever it returns.
pub open spec fn tree_after_call(t: TreeV, c: TreeCall) -> TreeV {
    match c {
        TreeCall::Receive(k) => s_add_left(s_new_node(t, ValueV::Item(k)), t.nodes.len() as NodeID).0,
        TreeCall::Decide(e) => s_insert_parent(t, super::model::entry_node(e), super::model::entry_project(e)).0,
        TreeCall::Prune => if t.nodes.len() > 0 {
            s_prune_loop(t, seq![0usize], None, 0, 0, super::spec::walk_fuel(t)).0
        } else {
            t
        },
    }
}

/// The calls `cs` made one after another on `t`, or `None` where one may not be made.
pub open spec fn tree_after_calls(t: TreeV, cs: Seq<TreeCall>) -> Option<TreeV>
    decreases cs.len(),
{
    if cs.len() == 0 {
        Some(t)
    } else if !tree_call_allowed(t, cs[0]) {
        None
    } else {
        tree_after_calls(tree_after_call(t, cs[0]), cs.drop_first())
    }
}

proof fn lemma_tree_calls_keep_arena(t: TreeV, cs: Seq<TreeCall>)
    requires
        ids_match_positions(t),
    ensures
        tree_after_calls(t, cs) matches Some(t2) ==> arena_kept(t, t2),
    decreases cs.len(),
{
    if cs.len() > 0 && tree_call_allowed(t, cs[0]) {
        match cs[0] {
            TreeCall::Receive(k) => law_receive_keeps_arena(t, k),
            TreeCall::Decide(e) => law_insert_parent_keeps_arena(t, super::model::entry_node(e), super::model::entry_project(e)),
            TreeCall::Prune => law_prune_keeps_arena(t),
        }
        let t1 = tree_after_call(t, cs[0]);
        lemma_tree_calls_keep_arena(t1, cs.drop_first());
    }
}

/// A tree started by `init` is never empty: whatever words it takes in, entries it
/// applies and prunings it goes through, successful or not, it keeps node 0 as its root
/// and every node's id equal to its place.
pub proof fn law_initialised_trees_stay_rooted(target: Map<Key, Option<Key>>, cs: Seq<TreeCall>)
    ensures
        tree_after_calls(s_new_node(super::model::empty_tree(), ValueV::Features(target)), cs) matches Some(t2)
            ==> t2.nodes.len() > 0 && t2.root == 0 && ids_match_positions(t2),
{
    let t0 = s_new_node(super::model::empty_tree(), ValueV::Features(target));
    assert(ids_match_positions(t0));
    lemma_tree_calls_keep_arena(t0, cs);
}

} // verus!
