use super::model::{
    spec_add_chain, spec_decide, spec_discharge, spec_entry_to_node, spec_possibly_project, spec_push,
    spec_push_lambda_features, spec_push_lexicon_lambda, spec_receive, LambdaV,
};
use super::node::NodeV;
use super::valid_entry::ValidV;
use crate::lexicon::EntryV;
use crate::syntax::{Key, ValueV};
use vstd::prelude::*;

verus! {

/// Two models that differ at most in their log and in whether they trace.
pub open spec fn twins(a: LambdaV, b: LambdaV) -> bool {
    &&& a.expects == b.expects
    &&& a.chains == b.chains
    &&& a.next_chain_id == b.next_chain_id
    &&& a.step == b.step
}

proof fn lemma_twins_discharge(a: LambdaV, b: LambdaV, provided: Map<Key, Option<Key>>)
    requires
        twins(a, b),
    ensures
        twins(spec_discharge(a, provided), spec_discharge(b, provided)),
{
}

proof fn lemma_twins_add_chain(a: LambdaV, b: LambdaV, needed: Map<Key, Option<Key>>)
    requires
        twins(a, b),
    ensures
        twins(spec_add_chain(a, needed), spec_add_chain(b, needed)),
{
}

proof fn lemma_twins_project(a: LambdaV, b: LambdaV, from: Map<Key, Option<Key>>)
    requires
        twins(a, b),
    ensures
        twins(spec_possibly_project(a, from).0, spec_possibly_project(b, from).0),
        spec_possibly_project(a, from).1 == spec_possibly_project(b, from).1,
{
}

proof fn lemma_twins_push_features(a: LambdaV, b: LambdaV, from: Map<Key, Option<Key>>, to: Map<Key, Option<Key>>)
    requires
        twins(a, b),
    ensures
        twins(spec_push_lambda_features(a, from, to).0, spec_push_lambda_features(b, from, to).0),
        spec_push_lambda_features(a, from, to).1 == spec_push_lambda_features(b, from, to).1,
{
    lemma_twins_discharge(a, b, from);
    lemma_twins_project(spec_discharge(a, from), spec_discharge(b, from), from);
}

proof fn lemma_twins_entry_to_node(a: LambdaV, b: LambdaV, e: ValidV)
    requires
        twins(a, b),
    ensures
        twins(spec_entry_to_node(a, e).0, spec_entry_to_node(b, e).0),
        spec_entry_to_node(a, e).1 == spec_entry_to_node(b, e).1,
{
    match e {
        ValidV::Features(fs) => lemma_twins_discharge(a, b, fs),
        ValidV::Moved(fs) => lemma_twins_add_chain(a, b, fs),
        ValidV::Lambda(from, _, _) => match *from {
            ValidV::Features(fs) => lemma_twins_discharge(a, b, fs),
            ValidV::Moved(fs) => lemma_twins_add_chain(a, b, fs),
            ValidV::Lambda(..) => {},
        },
    }
}

/// Tracing changes only the log when an entry is applied to an expectation directly:
/// on two models that differ at most in their log and in whether they trace, the push
/// returns the same and leaves two such models.
pub proof fn law_tracing_pushes_alike(a: LambdaV, b: LambdaV, from: ValidV, to: NodeV)
    requires
        twins(a, b),
    ensures
        twins(spec_push_lexicon_lambda(a, from, to).0, spec_push_lexicon_lambda(b, from, to).0),
        spec_push_lexicon_lambda(a, from, to).1 == spec_push_lexicon_lambda(b, from, to).1,
    decreases to,
{
    match (from, to) {
        (ValidV::Features(f), NodeV::Value(ValueV::Features(t))) => {
            lemma_twins_push_features(a, b, f, t);
        },
        (ValidV::Features(f), NodeV::Lambda(_, _)) => {
            lemma_twins_discharge(a, b, f);
        },
        (ValidV::Moved(f), NodeV::Value(ValueV::Features(t))) => {
            lemma_twins_add_chain(a, b, f);
            lemma_twins_project(spec_add_chain(a, f), spec_add_chain(b, f), f);
        },
        (ValidV::Moved(f), NodeV::Lambda(_, _)) => {
            lemma_twins_add_chain(a, b, f);
        },
        (ValidV::Lambda(new, from_fs, project), NodeV::Value(ValueV::Features(t))) => {
            lemma_twins_push_features(a, b, from_fs, t);
            let (a1, r1) = spec_push_lambda_features(a, from_fs, t);
            let (b1, _) = spec_push_lambda_features(b, from_fs, t);
            if let Ok(inserted) = r1 {
                let a2 = if inserted && project { spec_push(a1, NodeV::Projection(super::valid_entry::right_of(*new))) } else { a1 };
                let b2 = if inserted && project { spec_push(b1, NodeV::Projection(super::valid_entry::right_of(*new))) } else { b1 };
                lemma_twins_entry_to_node(a2, b2, *new);
            }
        },
        (ValidV::Lambda(x, y, project_xy), NodeV::Lambda(c, d)) => {
            law_tracing_pushes_alike(a, b, ValidV::Features(y), *d);
            let (a1, r1) = spec_push_lexicon_lambda(a, ValidV::Features(y), *d);
            let (b1, _) = spec_push_lexicon_lambda(b, ValidV::Features(y), *d);
            if let Ok(inserted) = r1 {
                let a2 = if inserted && project_xy { spec_push(a1, NodeV::Projection(super::valid_entry::right_of(*x))) } else { a1 };
                let b2 = if inserted && project_xy { spec_push(b1, NodeV::Projection(super::valid_entry::right_of(*x))) } else { b1 };
                lemma_twins_entry_to_node(a2, b2, *x);
            }
        },
        _ => {},
    }
}

/// Tracing changes only the log: on two models that differ at most in their log and
/// in whether they trace, taking in a word, or applying an entry, gives the same result
/// and again two such models.
pub proof fn law_tracing_changes_only_the_log(a: LambdaV, b: LambdaV, token: Key, entry: EntryV)
    requires
        twins(a, b),
    ensures
        twins(spec_receive(a, token).0, spec_receive(b, token).0),
        spec_receive(a, token).1 == spec_receive(b, token).1,
        twins(spec_decide(a, entry).0, spec_decide(b, entry).0),
        spec_decide(a, entry).1 == spec_decide(b, entry).1,
{
    let a1 = super::model::spec_log(super::model::spec_begin_step(a), super::model::OpV::MergeEntry(entry));
    let b1 = super::model::spec_log(super::model::spec_begin_step(b), super::model::OpV::MergeEntry(entry));
    assert(twins(a1, b1));
    if a1.expects.len() > 0 {
        let a2 = LambdaV { expects: a1.expects.drop_last(), ..a1 };
        let b2 = LambdaV { expects: b1.expects.drop_last(), ..b1 };
        assert(twins(a2, b2));
        match a1.expects.last() {
            NodeV::Lambda(awaited_from, to) => match (awaited_from, entry) {
                (ValueV::Features(from_fs), EntryV::Functional(node, entry_project)) => {
                    match super::valid_entry::valid_of(node) {
                        Some(v) => {
                            let v1 = match entry_project {
                                Some(ignore) => {
                                    let onto = super::valid_entry::right_of(v);
                                    let p = crate::syntax::feature_set::projected(from_fs, ignore);
                                    super::valid_entry::with_right(
                                        v,
                                        onto.union_prefer_right(crate::syntax::feature_set::before_first_clash(p, onto)),
                                    )
                                },
                                None => v,
                            };
                            law_tracing_pushes_alike(a2, b2, v1, *to);
                        },
                        None => {},
                    }
                },
                (ValueV::Item(_), EntryV::Lexical(node)) => {
                    match super::valid_entry::valid_of(node) {
                        Some(v) => {
                            law_tracing_pushes_alike(a2, b2, v, *to);
                        },
                        None => {},
                    }
                },
                _ => {},
            },
            _ => {},
        }
    }
}

/// The chains of `m` are numbered 1, 2, ... in the order of introduction, the next id
/// follows the last; each chain was introduced at a step already taken; a chain is
/// pending exactly when it has not been discharged, and it was discharged no earlier
/// than it was introduced.
pub open spec fn chains_numbered(m: LambdaV) -> bool {
    &&& m.next_chain_id == m.chains.len() + 1
    &&& forall|i: int| 0 <= i < m.chains.len() ==> {
        &&& (#[trigger] m.chains[i]).id == i + 1
        &&& m.chains[i].introduced_at <= m.step
        &&& (m.chains[i].pending <==> m.chains[i].discharged_at is None)
        &&& (m.chains[i].discharged_at matches Some(d) ==> m.chains[i].introduced_at <= d <= m.step)
    }
}

proof fn lemma_numbered_discharge(m: LambdaV, provided: Map<Key, Option<Key>>)
    requires
        chains_numbered(m),
    ensures
        chains_numbered(spec_discharge(m, provided)),
        spec_discharge(m, provided).step == m.step,
{
    super::chain_laws::lemma_first_dischargeable_props(m.chains, provided);
}

proof fn lemma_numbered_add_chain(m: LambdaV, needed: Map<Key, Option<Key>>)
    requires
        chains_numbered(m),
        m.next_chain_id < usize::MAX,
    ensures
        chains_numbered(spec_add_chain(m, needed)),
        spec_add_chain(m, needed).step == m.step,
{
    let m2 = spec_add_chain(m, needed);
    assert forall|i: int| 0 <= i < m2.chains.len() implies (#[trigger] m2.chains[i]).id == i + 1 by {
        if i < m.chains.len() {
            assert(m2.chains[i] == m.chains[i]);
        }
    }
}

proof fn lemma_numbered_push_features(m: LambdaV, from: Map<Key, Option<Key>>, to: Map<Key, Option<Key>>)
    requires
        chains_numbered(m),
    ensures
        chains_numbered(spec_push_lambda_features(m, from, to).0),
        spec_push_lambda_features(m, from, to).0.step == m.step,
        spec_push_lambda_features(m, from, to).0.next_chain_id == m.next_chain_id,
{
    lemma_numbered_discharge(m, from);
}

proof fn lemma_numbered_entry_to_node(m: LambdaV, e: ValidV)
    requires
        chains_numbered(m),
        m.next_chain_id < usize::MAX,
    ensures
        chains_numbered(spec_entry_to_node(m, e).0),
        spec_entry_to_node(m, e).0.step == m.step,
{
    match e {
        ValidV::Features(fs) => lemma_numbered_discharge(m, fs),
        ValidV::Moved(fs) => lemma_numbered_add_chain(m, fs),
        ValidV::Lambda(from, _, _) => match *from {
            ValidV::Features(fs) => lemma_numbered_discharge(m, fs),
            ValidV::Moved(fs) => lemma_numbered_add_chain(m, fs),
            ValidV::Lambda(..) => {},
        },
    }
}

/// Applying an entry to an expectation directly keeps the chains numbered as well.
pub proof fn law_push_lexicon_lambda_keeps_chains_numbered(m: LambdaV, from: ValidV, to: NodeV)
    requires
        chains_numbered(m),
        m.next_chain_id < usize::MAX,
    ensures
        chains_numbered(spec_push_lexicon_lambda(m, from, to).0),
        spec_push_lexicon_lambda(m, from, to).0.step == m.step,
        from is Features ==> spec_push_lexicon_lambda(m, from, to).0.next_chain_id == m.next_chain_id,
    decreases to,
{
    match (from, to) {
        (ValidV::Features(f), NodeV::Value(ValueV::Features(t))) => {
            lemma_numbered_push_features(m, f, t);
        },
        (ValidV::Features(f), NodeV::Lambda(_, _)) => {
            lemma_numbered_discharge(m, f);
        },
        (ValidV::Moved(f), NodeV::Value(ValueV::Features(t))) => {
            lemma_numbered_add_chain(m, f);
        },
        (ValidV::Moved(f), NodeV::Lambda(_, _)) => {
            lemma_numbered_add_chain(m, f);
        },
        (ValidV::Lambda(new, from_fs, project), NodeV::Value(ValueV::Features(t))) => {
            lemma_numbered_push_features(m, from_fs, t);
            let (m1, r1) = spec_push_lambda_features(m, from_fs, t);
            if let Ok(inserted) = r1 {
                let m2 = if inserted && project { spec_push(m1, NodeV::Projection(super::valid_entry::right_of(*new))) } else { m1 };
                lemma_numbered_entry_to_node(m2, *new);
            }
        },
        (ValidV::Lambda(x, y, project_xy), NodeV::Lambda(c, d)) => {
            law_push_lexicon_lambda_keeps_chains_numbered(m, ValidV::Features(y), *d);
            let (m1, r1) = spec_push_lexicon_lambda(m, ValidV::Features(y), *d);
            if let Ok(inserted) = r1 {
                let m2 = if inserted && project_xy { spec_push(m1, NodeV::Projection(super::valid_entry::right_of(*x))) } else { m1 };
                lemma_numbered_entry_to_node(m2, *x);
            }
        },
        _ => {},
    }
}

/// Taking in a word or applying an entry keeps the chains numbered 1, 2, ... in order,
/// each pending exactly when not discharged, and discharged no earlier than introduced.
pub proof fn law_steps_keep_chains_numbered(m: LambdaV, token: Key, entry: EntryV)
    requires
        chains_numbered(m),
        m.step < usize::MAX,
        m.next_chain_id < usize::MAX,
    ensures
        chains_numbered(spec_receive(m, token).0),
        chains_numbered(spec_decide(m, entry).0),
{
    let m1 = super::model::spec_log(super::model::spec_begin_step(m), super::model::OpV::MergeEntry(entry));
    assert(chains_numbered(m1));
    if m1.expects.len() > 0 {
        let m2 = LambdaV { expects: m1.expects.drop_last(), ..m1 };
        assert(chains_numbered(m2));
        match m1.expects.last() {
            NodeV::Lambda(awaited_from, to) => match (awaited_from, entry) {
                (ValueV::Features(from_fs), EntryV::Functional(node, entry_project)) => {
                    match super::valid_entry::valid_of(node) {
                        Some(v) => {
                            let v1 = match entry_project {
                                Some(ignore) => {
                                    let onto = super::valid_entry::right_of(v);
                                    let p = crate::syntax::feature_set::projected(from_fs, ignore);
                                    super::valid_entry::with_right(
                                        v,
                                        onto.union_prefer_right(crate::syntax::feature_set::before_first_clash(p, onto)),
                                    )
                                },
                                None => v,
                            };
                            law_push_lexicon_lambda_keeps_chains_numbered(m2, v1, *to);
                        },
                        None => {},
                    }
                },
                (ValueV::Item(_), EntryV::Lexical(node)) => {
                    match super::valid_entry::valid_of(node) {
                        Some(v) => {
                            law_push_lexicon_lambda_keeps_chains_numbered(m2, v, *to);
                        },
                        None => {},
                    }
                },
                _ => {},
            },
            _ => {},
        }
    }
}

/// A call on a lambda model: take in a word, apply an entry, or apply an entry to an
/// expectation directly.
pub ghost enum ModelCall {
    Receive(Key),
    Decide(EntryV),
    PushLexiconLambda(ValidV, NodeV),
}

/// The call may be made on `m`: its counters are below their largest values.
pub open spec fn call_allowed(m: LambdaV, c: ModelCall) -> bool {
    match c {
        ModelCall::Receive(_) => m.step < usize::MAX,
        ModelCall::Decide(_) => m.step < usize::MAX && m.next_chain_id < usize::MAX,
        ModelCall::PushLexiconLambda(_, _) => m.next_chain_id < usize::MAX,
    }
}

/// The model after the call, and what the call returns (`Ok(true)` for a call that
/// returns `Ok(())`).
pub open spec fn call_on(m: LambdaV, c: ModelCall) -> (LambdaV, Result<bool, crate::error::LambdaError>) {
    match c {
        ModelCall::Receive(k) => (spec_receive(m, k).0, match spec_receive(m, k).1 { Ok(_) => Ok(true), Err(e) => Err(e) }),
        ModelCall::Decide(e) => (spec_decide(m, e).0, match spec_decide(m, e).1 { Ok(_) => Ok(true), Err(err) => Err(err) }),
        ModelCall::PushLexiconLambda(f, t) => spec_push_lexicon_lambda(m, f, t),
    }
}

/// The calls `cs` made one after another on `m`, whatever each returns: the model at
/// the end and what each call returned, or `None` where a call may not be made.
pub open spec fn after_calls(m: LambdaV, cs: Seq<ModelCall>) -> Option<(LambdaV, Seq<Result<bool, crate::error::LambdaError>>)>
    decreases cs.len(),
{
    if cs.len() == 0 {
        Some((m, Seq::empty()))
    } else if !call_allowed(m, cs[0]) {
        None
    } else {
        match after_calls(call_on(m, cs[0]).0, cs.drop_first()) {
            Some((m2, rs)) => Some((m2, seq![call_on(m, cs[0]).1] + rs)),
            None => None,
        }
    }
}

/// A model that is new (`LambdaModel::new` or `init`): no chains, the next id 1, no
/// log and tracing off.
pub open spec fn fresh(m: LambdaV) -> bool {
    &&& m.chains.len() == 0
    &&& m.next_chain_id == 1
    &&& m.events.len() == 0
    &&& !m.trace
}

proof fn lemma_call_keeps(m: LambdaV, c: ModelCall)
    requires
        call_allowed(m, c),
    ensures
        chains_numbered(m) ==> chains_numbered(call_on(m, c).0),
        super::chain_laws::log_extends(m, call_on(m, c).0),
{
    match c {
        ModelCall::Receive(k) => {
            super::chain_laws::law_log_only_grows(m, k, arbitrary());
            super::chain_laws::law_receive_keeps_chains(m, k);
        },
        ModelCall::Decide(e) => {
            super::chain_laws::law_log_only_grows(m, arbitrary(), e);
            if chains_numbered(m) {
                law_steps_keep_chains_numbered(m, arbitrary(), e);
            }
        },
        ModelCall::PushLexiconLambda(f, t) => {
            super::chain_laws::lemma_push_lexicon_lambda_log(m, f, t);
            if chains_numbered(m) {
                law_push_lexicon_lambda_keeps_chains_numbered(m, f, t);
            }
        },
    }
}

proof fn lemma_calls_keep(m: LambdaV, cs: Seq<ModelCall>)
    ensures
        after_calls(m, cs) matches Some((m2, _)) ==> (chains_numbered(m) ==> chains_numbered(m2))
            && (!m.trace ==> !m2.trace && m2.events == m.events),
    decreases cs.len(),
{
    if cs.len() > 0 && call_allowed(m, cs[0]) {
        lemma_call_keeps(m, cs[0]);
        lemma_calls_keep(call_on(m, cs[0]).0, cs.drop_first());
    }
}

/// Whatever calls are made on a new model, its chains stay numbered 1, 2, ... in the
/// order of introduction (so its chain records come in that order, with ids 1..n, each
/// pending exactly when it has no discharge step, discharged no earlier than
/// introduced), the pending counts agree with the pending records and requirements,
/// and, unless tracing is switched on, it logs nothing.
pub proof fn law_calls_on_new_models(m: LambdaV, cs: Seq<ModelCall>)
    requires
        fresh(m),
    ensures
        after_calls(m, cs) matches Some((m2, _)) ==> {
            &&& chains_numbered(m2)
            &&& super::records::sort_by_id(m2.chains) == m2.chains
            &&& super::model::pending_count(super::records::sort_by_id(m2.chains)) == super::model::pending_count(m2.chains)
            &&& super::model::pending_requirements(m2.chains).len() == super::model::pending_count(m2.chains)
            &&& !m2.trace && m2.events.len() == 0
        },
{
    lemma_calls_keep(m, cs);
    if let Some((m2, _)) = after_calls(m, cs) {
        assert(super::chain_laws::chains_ordered(m2));
        super::chain_laws::law_pending_counts_agree(m2);
    }
}

proof fn lemma_twins_call(a: LambdaV, b: LambdaV, c: ModelCall)
    requires
        twins(a, b),
    ensures
        call_allowed(a, c) == call_allowed(b, c),
        twins(call_on(a, c).0, call_on(b, c).0),
        call_on(a, c).1 == call_on(b, c).1,
{
    match c {
        ModelCall::Receive(k) => law_tracing_changes_only_the_log(a, b, k, arbitrary()),
        ModelCall::Decide(e) => law_tracing_changes_only_the_log(a, b, arbitrary(), e),
        ModelCall::PushLexiconLambda(f, t) => law_tracing_pushes_alike(a, b, f, t),
    }
}

/// Tracing changes only the log, over any calls: on a model and a copy of it with
/// tracing switched on (or any two models that differ at most in their log and in
/// whether they trace), the same calls may be made, each returns the same, and the two
/// end with the same expectations, chains, next chain id and step count, so with the
/// same text and the same chain records and unresolved requirements.
pub proof fn law_traced_copy_answers_alike(a: LambdaV, b: LambdaV, cs: Seq<ModelCall>)
    requires
        twins(a, b),
    ensures
        twins(a, LambdaV { trace: true, ..a }),
        after_calls(a, cs) is Some <==> after_calls(b, cs) is Some,
        after_calls(a, cs) matches Some((a2, ra)) ==> {
            &&& twins(a2, after_calls(b, cs)->Some_0.0)
            &&& ra == after_calls(b, cs)->Some_0.1
            &&& forall|t: Seq<Seq<u8>>| #[trigger] super::model::model_text(t, a2) == super::model::model_text(t, after_calls(b, cs)->Some_0.0)
        },
    decreases cs.len(),
{
    if cs.len() > 0 {
        lemma_twins_call(a, b, cs[0]);
        if call_allowed(a, cs[0]) {
            law_traced_copy_answers_alike(call_on(a, cs[0]).0, call_on(b, cs[0]).0, cs.drop_first());
        }
    }
}

} // verus!
