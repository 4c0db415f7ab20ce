use super::action::{actions_view, Action, ActionV};
use crate::cognitive::lambda::model::{spec_decide, spec_init, spec_receive, LambdaV};
use crate::cognitive::tree::model::{empty_tree, entry_node, entry_project};
use crate::cognitive::tree::node::NodeID;
use crate::cognitive::tree::spec::{moved_count, s_add_left, s_insert_parent, s_new_node, TreeV};
use crate::cognitive::{LambdaModel, TreeModel};
use crate::error::InterpretError;
use crate::interner::{key_or_next, Interner};
use crate::syntax::{FeatureSet, Key, ValueV};
use crate::cognitive::lambda::chain_laws::{chains_ordered, law_decide_keeps_discharged_chains, law_log_only_grows, law_receive_keeps_chains};
use crate::cognitive::lambda::trace_laws::{chains_numbered, law_steps_keep_chains_numbered, law_tracing_changes_only_the_log, twins};
use crate::cognitive::lambda::records::{ids_increasing, lemma_sort_by_id_increasing, sort_by_id};
use crate::cognitive::tree::laws::{ids_match_positions, law_insert_parent_keeps_arena, law_receive_keeps_arena};
use vstd::prelude::*;
use vstd::string::StringSliceAdditionalSpecFns;

verus! {

/// The features of the category `k` alone.
pub open spec fn category(k: Key) -> Map<Key, Option<Key>> {
    Map::<Key, Option<Key>>::empty().insert(k, None)
}

/// One step on the lambda model `m`: a word is taken in, a rule applied; a step that
/// would pass the largest value of a counter fails with `CounterLimit`.
pub open spec fn lambda_step(m: LambdaV, a: ActionV) -> Result<LambdaV, InterpretError> {
    match a {
        ActionV::AddToken(k) => if m.step >= usize::MAX {
            Err(InterpretError::CounterLimit)
        } else {
            match spec_receive(m, k) {
                (m1, Ok(_)) => Ok(m1),
                (_, Err(e)) => Err(InterpretError::Lambda(e)),
            }
        },
        ActionV::ApplyEntry(e) => if m.step >= usize::MAX || m.next_chain_id >= usize::MAX {
            Err(InterpretError::CounterLimit)
        } else {
            match spec_decide(m, e) {
                (m1, Ok(_)) => Ok(m1),
                (_, Err(err)) => Err(InterpretError::Lambda(err)),
            }
        },
    }
}

/// Replays `acts` on the lambda model `m`; the first failing step ends the replay
/// with its error.
pub open spec fn replay_lambda(m: LambdaV, acts: Seq<ActionV>) -> Result<LambdaV, InterpretError>
    decreases acts.len(),
{
    if acts.len() == 0 {
        Ok(m)
    } else {
        match lambda_step(m, acts[0]) {
            Ok(m1) => replay_lambda(m1, acts.drop_first()),
            Err(e) => Err(e),
        }
    }
}

/// Replaying on a model with tracing off keeps the log as it was and tracing off.
proof fn lemma_untraced_replay(m: LambdaV, acts: Seq<ActionV>)
    requires
        !m.trace,
    ensures
        replay_lambda(m, acts) matches Ok(m2) ==> !m2.trace && m2.events == m.events,
    decreases acts.len(),
{
    if acts.len() > 0 {
        match acts[0] {
            ActionV::AddToken(k) => law_log_only_grows(m, k, arbitrary()),
            ActionV::ApplyEntry(e) => law_log_only_grows(m, arbitrary(), e),
        }
        if let Ok(m1) = lambda_step(m, acts[0]) {
            lemma_untraced_replay(m1, acts.drop_first());
        }
    }
}

/// A model started for a category and never traced logs nothing: after any replay it
/// has no derivation events, so it gives no derivation step records.
pub proof fn law_untraced_model_logs_nothing(target: Map<Key, Option<Key>>, acts: Seq<ActionV>)
    ensures
        replay_lambda(spec_init(target), acts) matches Ok(m2) ==> !m2.trace && m2.events.len() == 0,
{
    lemma_untraced_replay(spec_init(target), acts);
}

/// Replaying keeps the chain ids increasing and below the next id.
proof fn lemma_replay_chains_ordered(m: LambdaV, acts: Seq<ActionV>)
    requires
        chains_ordered(m),
    ensures
        replay_lambda(m, acts) matches Ok(m2) ==> chains_ordered(m2),
    decreases acts.len(),
{
    if acts.len() > 0 {
        match acts[0] {
            ActionV::AddToken(k) => law_receive_keeps_chains(m, k),
            ActionV::ApplyEntry(e) => if m.step < usize::MAX && m.next_chain_id < usize::MAX {
                law_decide_keeps_discharged_chains(m, e);
            },
        }
        if let Ok(m1) = lambda_step(m, acts[0]) {
            lemma_replay_chains_ordered(m1, acts.drop_first());
        }
    }
}

/// Every model built from a new one by a replay numbers its chains in the order they
/// were introduced, each below the next id.
pub proof fn law_replayed_models_keep_chains_ordered(target: Map<Key, Option<Key>>, acts: Seq<ActionV>)
    ensures
        chains_ordered(spec_init(target)),
        replay_lambda(spec_init(target), acts) matches Ok(m2) ==> chains_ordered(m2),
{
    lemma_replay_chains_ordered(spec_init(target), acts);
}

/// Tracing changes only the log, over a whole replay: a model and its copy with
/// tracing switched on (or any two models that differ at most in their log and in
/// whether they trace) succeed or fail on the same actions with the same error, and
/// end with the same expectations, chains, next chain id and step count.
pub proof fn law_traced_copy_replays_alike(a: LambdaV, b: LambdaV, acts: Seq<ActionV>)
    requires
        twins(a, b),
    ensures
        twins(a, LambdaV { trace: true, ..a }),
        replay_lambda(a, acts) is Ok <==> replay_lambda(b, acts) is Ok,
        replay_lambda(a, acts) matches Err(e) ==> replay_lambda(b, acts) == Err::<LambdaV, InterpretError>(e),
        replay_lambda(a, acts) matches Ok(a2) ==> twins(a2, replay_lambda(b, acts)->Ok_0),
    decreases acts.len(),
{
    if acts.len() > 0 {
        match acts[0] {
            ActionV::AddToken(k) => law_tracing_changes_only_the_log(a, b, k, arbitrary()),
            ActionV::ApplyEntry(e) => law_tracing_changes_only_the_log(a, b, arbitrary(), e),
        }
        if let Ok(a1) = lambda_step(a, acts[0]) {
            law_traced_copy_replays_alike(a1, lambda_step(b, acts[0])->Ok_0, acts.drop_first());
        }
    }
}

/// Replaying keeps the chains numbered.
proof fn lemma_replay_chains_numbered(m: LambdaV, acts: Seq<ActionV>)
    requires
        chains_numbered(m),
    ensures
        replay_lambda(m, acts) matches Ok(m2) ==> chains_numbered(m2),
    decreases acts.len(),
{
    if acts.len() > 0 {
        match acts[0] {
            ActionV::AddToken(k) => if m.step < usize::MAX && m.next_chain_id < usize::MAX {
                law_steps_keep_chains_numbered(m, k, arbitrary());
            } else if m.step < usize::MAX {
                law_receive_keeps_chains(m, k);
            },
            ActionV::ApplyEntry(e) => if m.step < usize::MAX && m.next_chain_id < usize::MAX {
                law_steps_keep_chains_numbered(m, arbitrary(), e);
            },
        }
        if let Ok(m1) = lambda_step(m, acts[0]) {
            lemma_replay_chains_numbered(m1, acts.drop_first());
        }
    }
}

/// Every model built from a new one by a replay numbers its chains 1, 2, ... without
/// gaps in the order of introduction, so its chain records come in that order; a chain
/// is pending exactly when it has no discharge step, and it was discharged no earlier
/// than it was introduced.
pub proof fn law_replayed_models_number_chains(target: Map<Key, Option<Key>>, acts: Seq<ActionV>)
    ensures
        chains_numbered(spec_init(target)),
        replay_lambda(spec_init(target), acts) matches Ok(m2) ==> chains_numbered(m2) && sort_by_id(m2.chains) == m2.chains,
{
    lemma_replay_chains_numbered(spec_init(target), acts);
    if let Ok(m2) = replay_lambda(spec_init(target), acts) {
        assert(ids_increasing(m2.chains));
        lemma_sort_by_id_increasing(m2.chains);
    }
}

/// One step on the tree `t`: a word becomes a new left child at the cursor, a rule
/// inserts a parent; a rule whose gaps would bring the chain ids to the largest
/// `usize` fails with `CounterLimit`.
pub open spec fn tree_step(t: TreeV, a: ActionV) -> Result<TreeV, InterpretError> {
    match a {
        ActionV::AddToken(k) => match s_add_left(s_new_node(t, ValueV::Item(k)), t.nodes.len() as NodeID) {
            (t1, Ok(_)) => Ok(t1),
            (_, Err(e)) => Err(InterpretError::Tree(e)),
        },
        ActionV::ApplyEntry(e) => if t.next_chain_id + moved_count(entry_node(e)) >= usize::MAX {
            Err(InterpretError::CounterLimit)
        } else {
            match s_insert_parent(t, entry_node(e), entry_project(e)) {
                (t1, Ok(_)) => Ok(t1),
                (_, Err(err)) => Err(InterpretError::Tree(err)),
            }
        },
    }
}

/// Replays `acts` on the tree `t`; the first failing step ends the replay with its error.
pub open spec fn replay_tree(t: TreeV, acts: Seq<ActionV>) -> Result<TreeV, InterpretError>
    decreases acts.len(),
{
    if acts.len() == 0 {
        Ok(t)
    } else {
        match tree_step(t, acts[0]) {
            Ok(t1) => replay_tree(t1, acts.drop_first()),
            Err(e) => Err(e),
        }
    }
}

fn apply_lambda(model: &mut LambdaModel, action: &Action) -> (r: Result<(), InterpretError>)
    ensures
        match lambda_step(old(model)@, action@) {
            Ok(m) => r is Ok && final(model)@ == m,
            Err(e) => r == Err::<(), InterpretError>(e),
        },
{
    match action {
        Action::AddToken(token) => {
            if model.step_count() == usize::MAX {
                return Err(InterpretError::CounterLimit);
            }
            match model.receive(*token) {
                Ok(()) => Ok(()),
                Err(e) => Err(InterpretError::Lambda(e)),
            }
        },
        Action::ApplyEntry(entry) => {
            if model.step_count() == usize::MAX || model.next_chain_id() == usize::MAX {
                return Err(InterpretError::CounterLimit);
            }
            match model.decide(entry.duplicate()) {
                Ok(()) => Ok(()),
                Err(e) => Err(InterpretError::Lambda(e)),
            }
        },
    }
}

fn apply_tree(tree: &mut TreeModel, action: &Action) -> (r: Result<(), InterpretError>)
    ensures
        match tree_step(old(tree)@, action@) {
            Ok(t) => r is Ok && final(tree)@ == t,
            Err(e) => r == Err::<(), InterpretError>(e),
        },
{
    match action {
        Action::AddToken(token) => match tree.receive(*token) {
            Ok(()) => Ok(()),
            Err(e) => Err(InterpretError::Tree(e)),
        },
        Action::ApplyEntry(entry) => {
            let moved = entry.node().count_moved();
            let next = tree.next_chain_id();
            if moved >= usize::MAX - next {
                return Err(InterpretError::CounterLimit);
            }
            match tree.decide(entry.duplicate()) {
                Ok(()) => Ok(()),
                Err(e) => Err(InterpretError::Tree(e)),
            }
        },
    }
}

/// Replaying on a tree keeps its arena and its root.
proof fn lemma_replay_tree_arena(t: TreeV, acts: Seq<ActionV>)
    requires
        ids_match_positions(t),
    ensures
        replay_tree(t, acts) matches Ok(t2) ==> t.nodes.len() <= t2.nodes.len() && ids_match_positions(t2) && t2.root == t.root,
    decreases acts.len(),
{
    if acts.len() > 0 {
        match acts[0] {
            ActionV::AddToken(k) => law_receive_keeps_arena(t, k),
            ActionV::ApplyEntry(e) => law_insert_parent_keeps_arena(t, entry_node(e), entry_project(e)),
        }
        if let Ok(t1) = tree_step(t, acts[0]) {
            lemma_replay_tree_arena(t1, acts.drop_first());
        }
    }
}

/// A tree started for a category is never empty: after any replay its arena still
/// holds the node it started from, as node 0 and the root, and every id is its place.
pub proof fn law_replayed_trees_stay_rooted(target: Map<Key, Option<Key>>, acts: Seq<ActionV>)
    ensures
        replay_tree(s_new_node(empty_tree(), ValueV::Features(target)), acts) matches Ok(t2)
            ==> t2.nodes.len() > 0 && t2.root == 0 && t2.nodes[0].id == 0,
{
    let t0 = s_new_node(empty_tree(), ValueV::Features(target));
    assert(ids_match_positions(t0));
    lemma_replay_tree_arena(t0, acts);
}

/// The key of the label `target`, or the one that adding it to the table would give.
pub fn label_key_of(names: &Interner, target: &str) -> (r: Key)
    requires
        names.wf(),
    ensures
        r == key_or_next(names@, target.spec_bytes()),
{
    names.key_or_next(target.as_bytes())
}

/// Replays the derivation `actions` on a lambda model that expects `target`.
pub fn follow_lambda(names: &Interner, target: &str, actions: &Vec<Action>) -> (r: Result<LambdaModel, InterpretError>)
    requires
        names.wf(),
    ensures
        match replay_lambda(spec_init(category(key_or_next(names@, target.spec_bytes()))), actions_view(actions@)) {
            Ok(m) => r matches Ok(model) && model@ == m,
            Err(e) => r == Err::<LambdaModel, InterpretError>(e),
        },
{
    let key = label_key_of(names, target);
    let mut model = LambdaModel::init(FeatureSet::from_category(key));
    let ghost acts = actions_view(actions@);
    assert(acts.skip(0) =~= acts);
    let mut i: usize = 0;
    while i < actions.len()
        invariant
            0 <= i <= actions@.len(),
            acts == actions_view(actions@),
            replay_lambda(model@, acts.skip(i as int)) == replay_lambda(
                spec_init(category(key_or_next(names@, target.spec_bytes()))),
                acts,
            ),
        decreases actions@.len() - i,
    {
        assert(acts.skip(i as int)[0] == actions@[i as int]@);
        assert(acts.skip(i as int).drop_first() =~= acts.skip(i + 1));
        apply_lambda(&mut model, &actions[i])?;
        i = i + 1;
    }
    assert(acts.skip(actions@.len() as int) =~= Seq::<ActionV>::empty());
    Ok(model)
}

/// Replays the derivation `actions` on a tree that starts from the category `target`:
/// the tree of the derivation.
pub fn follow(names: &Interner, target: &str, actions: &Vec<Action>) -> (r: Result<TreeModel, InterpretError>)
    requires
        names.wf(),
    ensures
        match replay_tree(
            s_new_node(empty_tree(), ValueV::Features(category(key_or_next(names@, target.spec_bytes())))),
            actions_view(actions@),
        ) {
            Ok(t) => r matches Ok(tree) && tree@ == t,
            Err(e) => r == Err::<TreeModel, InterpretError>(e),
        },
{
    let key = label_key_of(names, target);
    let mut tree = TreeModel::init(FeatureSet::from_category(key));
    let ghost acts = actions_view(actions@);
    assert(acts.skip(0) =~= acts);
    let mut i: usize = 0;
    while i < actions.len()
        invariant
            0 <= i <= actions@.len(),
            acts == actions_view(actions@),
            replay_tree(tree@, acts.skip(i as int)) == replay_tree(
                s_new_node(empty_tree(), ValueV::Features(category(key_or_next(names@, target.spec_bytes())))),
                acts,
            ),
        decreases actions@.len() - i,
    {
        assert(acts.skip(i as int)[0] == actions@[i as int]@);
        assert(acts.skip(i as int).drop_first() =~= acts.skip(i + 1));
        apply_tree(&mut tree, &actions[i])?;
        i = i + 1;
    }
    assert(acts.skip(actions@.len() as int) =~= Seq::<ActionV>::empty());
    Ok(tree)
}

} // verus!
