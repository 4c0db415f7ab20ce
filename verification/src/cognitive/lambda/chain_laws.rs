use super::model::{
    dischargeable, first_dischargeable, lemma_pending_count_update, pending_count, spec_add_chain, spec_decide,
    spec_discharge, spec_entry_to_node, spec_log, spec_push_lambda_features, spec_push_lexicon_lambda, spec_receive,
    ChainV, LambdaV, OpV, pending_requirements,
};
use super::node::NodeV;
use super::records::{ids_increasing, lemma_sort_by_id_increasing, sort_by_id};
use super::valid_entry::ValidV;
use crate::lexicon::EntryV;
use crate::syntax::{Key, ValueV};
use vstd::prelude::*;

verus! {

/// The ids of the chains increase in the order the chains were introduced, and
/// all lie below the id the next chain will get.
pub open spec fn chains_ordered(m: LambdaV) -> bool {
    &&& ids_increasing(m.chains)
    &&& forall|i: int| 0 <= i < m.chains.len() ==> #[trigger] m.chains[i].id < m.next_chain_id
}

/// The chains of `m2` extend those of `m`: no chain is lost, each keeps its id,
/// requirement and step of introduction, a discharged chain stays as it was, and
/// the next id does not go back.
pub open spec fn chains_evolve(m: LambdaV, m2: LambdaV) -> bool {
    &&& m.chains.len() <= m2.chains.len()
    &&& m.next_chain_id <= m2.next_chain_id
    &&& forall|i: int|
        0 <= i < m.chains.len() ==> {
            &&& (#[trigger] m2.chains[i]).id == m.chains[i].id
            &&& m2.chains[i].requirement == m.chains[i].requirement
            &&& m2.chains[i].introduced_at == m.chains[i].introduced_at
            &&& (!m.chains[i].pending ==> m2.chains[i] == m.chains[i])
        }
}

/// Some chain of `m` is pending and satisfied by `provided`.
pub open spec fn some_dischargeable(m: LambdaV, provided: Map<Key, Option<Key>>) -> bool {
    exists|i: int| 0 <= i < m.chains.len() && dischargeable(#[trigger] m.chains[i], provided)
}

pub proof fn lemma_first_dischargeable_props(chains: Seq<ChainV>, provided: Map<Key, Option<Key>>)
    ensures
        0 <= first_dischargeable(chains, provided) <= chains.len(),
        forall|j: int| 0 <= j < first_dischargeable(chains, provided) ==> !dischargeable(#[trigger] chains[j], provided),
        first_dischargeable(chains, provided) < chains.len() ==> dischargeable(
            chains[first_dischargeable(chains, provided)],
            provided,
        ),
    decreases chains.len(),
{
    if chains.len() > 0 {
        let d = chains.drop_last();
        lemma_first_dischargeable_props(d, provided);
        assert forall|j: int| 0 <= j < d.len() implies d[j] == chains[j] by {}
    }
}

proof fn lemma_evolve_transitive(a: LambdaV, b: LambdaV, c: LambdaV)
    requires
        chains_evolve(a, b),
        chains_evolve(b, c),
    ensures
        chains_evolve(a, c),
{
    assert forall|i: int| 0 <= i < a.chains.len() implies {
        &&& (#[trigger] c.chains[i]).id == a.chains[i].id
        &&& c.chains[i].requirement == a.chains[i].requirement
        &&& c.chains[i].introduced_at == a.chains[i].introduced_at
        &&& (!a.chains[i].pending ==> c.chains[i] == a.chains[i])
    } by {
        assert(b.chains[i].id == a.chains[i].id);
        assert(c.chains[i].id == b.chains[i].id);
    }
}

/// Discharging by `provided` settles the first chain it satisfies and no other.
proof fn lemma_discharge_chains(m: LambdaV, provided: Map<Key, Option<Key>>)
    ensures
        chains_evolve(m, spec_discharge(m, provided)),
        spec_discharge(m, provided).chains.len() == m.chains.len(),
        spec_discharge(m, provided).next_chain_id == m.next_chain_id,
        spec_discharge(m, provided).expects == m.expects,
        chains_ordered(m) ==> chains_ordered(spec_discharge(m, provided)),
        spec_discharge(m, provided).step == m.step,
        some_dischargeable(m, provided) ==> pending_count(spec_discharge(m, provided).chains) + 1 == pending_count(
            m.chains,
        ),
        !some_dischargeable(m, provided) ==> spec_discharge(m, provided).chains == m.chains,
{
    lemma_first_dischargeable_props(m.chains, provided);
    let i = first_dischargeable(m.chains, provided);
    let d = spec_discharge(m, provided);
    if i < m.chains.len() {
        let c = m.chains[i];
        let nc = ChainV { pending: false, discharged_at: Some(m.step), ..c };
        assert(d.chains == m.chains.update(i, nc));
        lemma_pending_count_update(m.chains, i, nc);
        assert(some_dischargeable(m, provided));
        if chains_ordered(m) {
            assert forall|a: int, b: int| 0 <= a < b < d.chains.len() implies #[trigger] d.chains[a].id
                < #[trigger] d.chains[b].id by {
                assert(m.chains[a].id < m.chains[b].id);
            }
            assert forall|a: int| 0 <= a < d.chains.len() implies #[trigger] d.chains[a].id < d.next_chain_id by {
                assert(m.chains[a].id < m.next_chain_id);
            }
        }
    } else {
        if some_dischargeable(m, provided) {
            let j = choose|j: int| 0 <= j < m.chains.len() && dischargeable(#[trigger] m.chains[j], provided);
            assert(!dischargeable(m.chains[j], provided));
        }
    }
}

/// Opening a chain appends one pending chain under the next id.
proof fn lemma_add_chain_chains(m: LambdaV, needed: Map<Key, Option<Key>>)
    requires
        m.next_chain_id < usize::MAX,
    ensures
        chains_evolve(m, spec_add_chain(m, needed)),
        spec_add_chain(m, needed).chains.len() == m.chains.len() + 1,
        spec_add_chain(m, needed).chains.last().id == m.next_chain_id,
        spec_add_chain(m, needed).chains.last().pending,
        spec_add_chain(m, needed).chains.last().requirement == needed,
        spec_add_chain(m, needed).next_chain_id == m.next_chain_id + 1,
        spec_add_chain(m, needed).expects == m.expects,
        pending_count(spec_add_chain(m, needed).chains) == pending_count(m.chains) + 1,
        chains_ordered(m) ==> chains_ordered(spec_add_chain(m, needed)),
        spec_add_chain(m, needed).step == m.step,
{
    let a = spec_add_chain(m, needed);
    assert(a.chains.drop_last() =~= m.chains);
    if chains_ordered(m) {
        assert forall|x: int, y: int| 0 <= x < y < a.chains.len() implies #[trigger] a.chains[x].id
            < #[trigger] a.chains[y].id by {
            if y < m.chains.len() {
                assert(m.chains[x].id < m.chains[y].id);
            } else {
                assert(m.chains[x].id < m.next_chain_id);
            }
        }
        assert forall|x: int| 0 <= x < a.chains.len() implies #[trigger] a.chains[x].id < a.next_chain_id by {
            if x < m.chains.len() {
                assert(m.chains[x].id < m.next_chain_id);
            }
        }
    }
}

proof fn lemma_entry_to_node_chains(m: LambdaV, e: ValidV)
    requires
        m.next_chain_id < usize::MAX,
    ensures
        chains_evolve(m, spec_entry_to_node(m, e).0),
        spec_entry_to_node(m, e).0.next_chain_id <= m.next_chain_id + 1,
        chains_ordered(m) ==> chains_ordered(spec_entry_to_node(m, e).0),
        spec_entry_to_node(m, e).0.step == m.step,
{
    match e {
        ValidV::Features(fs) => lemma_discharge_chains(m, fs),
        ValidV::Moved(fs) => lemma_add_chain_chains(m, fs),
        ValidV::Lambda(from, _, _) => match *from {
            ValidV::Features(fs) => lemma_discharge_chains(m, fs),
            ValidV::Moved(fs) => lemma_add_chain_chains(m, fs),
            ValidV::Lambda(..) => {},
        },
    }
}

proof fn lemma_push_lambda_features_chains(m: LambdaV, from: Map<Key, Option<Key>>, to: Map<Key, Option<Key>>)
    ensures
        chains_evolve(m, spec_push_lambda_features(m, from, to).0),
        spec_push_lambda_features(m, from, to).0.chains == spec_discharge(m, from).chains,
        spec_push_lambda_features(m, from, to).0.next_chain_id == m.next_chain_id,
        chains_ordered(m) ==> chains_ordered(spec_push_lambda_features(m, from, to).0),
        spec_push_lambda_features(m, from, to).0.step == m.step,
{
    lemma_discharge_chains(m, from);
}

proof fn lemma_push_lexicon_lambda_chains(m: LambdaV, from: ValidV, to: NodeV)
    requires
        m.next_chain_id < usize::MAX,
    ensures
        chains_evolve(m, spec_push_lexicon_lambda(m, from, to).0),
        spec_push_lexicon_lambda(m, from, to).0.next_chain_id <= m.next_chain_id + 1,
        from is Features ==> spec_push_lexicon_lambda(m, from, to).0.next_chain_id == m.next_chain_id,
        chains_ordered(m) ==> chains_ordered(spec_push_lexicon_lambda(m, from, to).0),
        spec_push_lexicon_lambda(m, from, to).0.step == m.step,
    decreases to,
{
    match (from, to) {
        (ValidV::Features(f), NodeV::Value(ValueV::Features(t))) => {
            lemma_push_lambda_features_chains(m, f, t);
        },
        (ValidV::Features(f), NodeV::Lambda(_, _)) => {
            lemma_discharge_chains(m, f);
        },
        (ValidV::Moved(f), NodeV::Value(ValueV::Features(t))) => {
            lemma_add_chain_chains(m, f);
        },
        (ValidV::Moved(f), NodeV::Lambda(_, _)) => {
            lemma_add_chain_chains(m, f);
        },
        (ValidV::Lambda(new, from_fs, project), NodeV::Value(ValueV::Features(t))) => {
            lemma_push_lambda_features_chains(m, from_fs, t);
            let (m1, r1) = spec_push_lambda_features(m, from_fs, t);
            if let Ok(inserted) = r1 {
                let m2 = if inserted && project {
                    super::model::spec_push(m1, NodeV::Projection(super::valid_entry::right_of(*new)))
                } else {
                    m1
                };
                assert(chains_evolve(m1, m2));
                lemma_evolve_transitive(m, m1, m2);
                lemma_entry_to_node_chains(m2, *new);
                lemma_evolve_transitive(m, m2, spec_entry_to_node(m2, *new).0);
            }
        },
        (ValidV::Lambda(a, b, project_ab), NodeV::Lambda(c, d)) => {
            lemma_push_lexicon_lambda_chains(m, ValidV::Features(b), *d);
            let (m1, r1) = spec_push_lexicon_lambda(m, ValidV::Features(b), *d);
            if let Ok(inserted) = r1 {
                let m2 = if inserted && project_ab {
                    super::model::spec_push(m1, NodeV::Projection(super::valid_entry::right_of(*a)))
                } else {
                    m1
                };
                assert(chains_evolve(m1, m2));
                lemma_evolve_transitive(m, m1, m2);
                lemma_entry_to_node_chains(m2, *a);
                lemma_evolve_transitive(m, m2, spec_entry_to_node(m2, *a).0);
            }
        },
        _ => {},
    }
}

/// A gap in an entry (a moved constituent) opens exactly one pending chain.
pub proof fn law_moved_entry_opens_a_chain(m: LambdaV, moved: Map<Key, Option<Key>>, target: Map<Key, Option<Key>>)
    requires
        m.next_chain_id < usize::MAX,
    ensures
        pending_count(
            spec_push_lexicon_lambda(m, ValidV::Moved(moved), NodeV::Value(ValueV::Features(target))).0.chains,
        ) == pending_count(m.chains) + 1,
{
    lemma_add_chain_chains(m, moved);
}

/// Features that satisfy a pending chain discharge exactly one chain; features that
/// satisfy none leave the chains as they were.
pub proof fn law_features_discharge_at_most_one_chain(m: LambdaV, provided: Map<Key, Option<Key>>, onto: Map<Key, Option<Key>>)
    ensures
        some_dischargeable(m, provided) ==> pending_count(spec_push_lambda_features(m, provided, onto).0.chains) + 1
            == pending_count(m.chains),
        !some_dischargeable(m, provided) ==> spec_push_lambda_features(m, provided, onto).0.chains == m.chains,
{
    lemma_push_lambda_features_chains(m, provided, onto);
    lemma_discharge_chains(m, provided);
}

/// A chain is discharged once: applying an entry never loses a chain, never changes
/// a chain's id, requirement or step of introduction, and never touches a chain
/// already discharged; it opens at most one chain and counts one step.
pub proof fn law_decide_keeps_discharged_chains(m: LambdaV, entry: EntryV)
    requires
        m.step < usize::MAX,
        m.next_chain_id < usize::MAX,
    ensures
        chains_evolve(m, spec_decide(m, entry).0),
        chains_ordered(m) ==> chains_ordered(spec_decide(m, entry).0),
        spec_decide(m, entry).0.next_chain_id <= m.next_chain_id + 1,
        spec_decide(m, entry).0.step == m.step + 1,
{
    let m1 = super::model::spec_log(super::model::spec_begin_step(m), super::model::OpV::MergeEntry(entry));
    assert(chains_evolve(m, m1));
    if m1.expects.len() > 0 {
        let m2 = LambdaV { expects: m1.expects.drop_last(), ..m1 };
        assert(chains_evolve(m, m2));
        match m1.expects.last() {
            NodeV::Lambda(awaited_from, to) => match (awaited_from, entry) {
                (ValueV::Features(from_fs), EntryV::Functional(node, entry_project)) => {
                    match super::valid_entry::valid_of(node) {
                        Some(v) => {
                            let v1 = match entry_project {
                                Some(ignore) => {
                                    let onto = super::valid_entry::right_of(v);
                                    let p = crate::syntax::feature_set::projected(from_fs, ignore);
                                    super::valid_entry::with_right(
                                        v,
                                        onto.union_prefer_right(crate::syntax::feature_set::before_first_clash(p, onto)),
                                    )
                                },
                                None => v,
                            };
                            lemma_push_lexicon_lambda_chains(m2, v1, *to);
                            lemma_evolve_transitive(m, m2, spec_push_lexicon_lambda(m2, v1, *to).0);
                        },
                        None => {},
                    }
                },
                (ValueV::Item(_), EntryV::Lexical(node)) => {
                    match super::valid_entry::valid_of(node) {
                        Some(v) => {
                            lemma_push_lexicon_lambda_chains(m2, v, *to);
                            lemma_evolve_transitive(m, m2, spec_push_lexicon_lambda(m2, v, *to).0);
                        },
                        None => {},
                    }
                },
                _ => {},
            },
            _ => {},
        }
    }
}

/// Taking in a word leaves the chains and the next chain id as they were.
pub proof fn law_receive_keeps_chains(m: LambdaV, token: Key)
    ensures
        spec_receive(m, token).0.chains == m.chains,
        spec_receive(m, token).0.next_chain_id == m.next_chain_id,
{
}

/// Applying an entry to an expectation never loses or reopens a chain, and keeps
/// the chain ids increasing.
pub proof fn law_push_lexicon_lambda_keeps_discharged_chains(m: LambdaV, from: ValidV, to: NodeV)
    requires
        m.next_chain_id < usize::MAX,
    ensures
        chains_evolve(m, spec_push_lexicon_lambda(m, from, to).0),
        chains_ordered(m) ==> chains_ordered(spec_push_lexicon_lambda(m, from, to).0),
{
    lemma_push_lexicon_lambda_chains(m, from, to);
}

/// When the chain ids increase in the order of introduction (as they do in every
/// model that the operations above build from a new one), the chain records come
/// in the order the chains were introduced.
pub proof fn law_chain_records_in_introduction_order(m: LambdaV)
    requires
        chains_ordered(m),
    ensures
        sort_by_id(m.chains) == m.chains,
{
    lemma_sort_by_id_increasing(m.chains);
}

/// The log of `m2` extends that of `m`: tracing stays as it was, earlier events stay,
/// and an untraced model logs nothing.
pub open spec fn log_extends(m: LambdaV, m2: LambdaV) -> bool {
    &&& m2.trace == m.trace
    &&& m.events.len() <= m2.events.len()
    &&& forall|i: int| 0 <= i < m.events.len() ==> #[trigger] m2.events[i] == m.events[i]
    &&& !m.trace ==> m2.events == m.events
}

proof fn lemma_log_trans(a: LambdaV, b: LambdaV, c: LambdaV)
    requires
        log_extends(a, b),
        log_extends(b, c),
    ensures
        log_extends(a, c),
{
    assert forall|i: int| 0 <= i < a.events.len() implies #[trigger] c.events[i] == a.events[i] by {
        assert(b.events[i] == a.events[i]);
    }
}

proof fn lemma_log_step(m: LambdaV, op: OpV)
    ensures
        log_extends(m, spec_log(m, op)),
{
}

proof fn lemma_discharge_log(m: LambdaV, provided: Map<Key, Option<Key>>)
    ensures
        log_extends(m, spec_discharge(m, provided)),
{
    let i = first_dischargeable(m.chains, provided);
    if i < m.chains.len() {
        let c = m.chains[i];
        let m1 = LambdaV { chains: m.chains.update(i, ChainV { pending: false, discharged_at: Some(m.step), ..c }), ..m };
        lemma_log_step(m1, OpV::CheckDischarge(c.id, c.requirement, provided));
    }
}

proof fn lemma_add_chain_log(m: LambdaV, needed: Map<Key, Option<Key>>)
    ensures
        log_extends(m, spec_add_chain(m, needed)),
{
    let id = m.next_chain_id;
    lemma_log_step(LambdaV { next_chain_id: (id + 1) as usize, ..m }, OpV::MoveIntroduce(id, needed));
}

proof fn lemma_entry_to_node_log(m: LambdaV, e: ValidV)
    ensures
        log_extends(m, spec_entry_to_node(m, e).0),
{
    match e {
        ValidV::Features(fs) => lemma_discharge_log(m, fs),
        ValidV::Moved(fs) => lemma_add_chain_log(m, fs),
        ValidV::Lambda(from, _, _) => match *from {
            ValidV::Features(fs) => lemma_discharge_log(m, fs),
            ValidV::Moved(fs) => lemma_add_chain_log(m, fs),
            ValidV::Lambda(..) => {},
        },
    }
}

/// Applying an entry to an expectation keeps the log as `log_extends` says: it logs
/// nothing unless the model traces.
pub proof fn lemma_push_lexicon_lambda_log(m: LambdaV, from: ValidV, to: NodeV)
    ensures
        log_extends(m, spec_push_lexicon_lambda(m, from, to).0),
    decreases to,
{
    match (from, to) {
        (ValidV::Features(f), NodeV::Value(ValueV::Features(t))) => {
            lemma_discharge_log(m, f);
        },
        (ValidV::Features(f), NodeV::Lambda(_, _)) => {
            lemma_discharge_log(m, f);
        },
        (ValidV::Moved(f), NodeV::Value(ValueV::Features(t))) => {
            lemma_add_chain_log(m, f);
        },
        (ValidV::Moved(f), NodeV::Lambda(_, _)) => {
            lemma_add_chain_log(m, f);
        },
        (ValidV::Lambda(new, from_fs, project), NodeV::Value(ValueV::Features(t))) => {
            lemma_discharge_log(m, from_fs);
            let (m1, r1) = spec_push_lambda_features(m, from_fs, t);
            if let Ok(inserted) = r1 {
                let m2 = if inserted && project {
                    super::model::spec_push(m1, NodeV::Projection(super::valid_entry::right_of(*new)))
                } else {
                    m1
                };
                lemma_entry_to_node_log(m2, *new);
                lemma_log_trans(m, m2, spec_entry_to_node(m2, *new).0);
            }
        },
        (ValidV::Lambda(a, b, project_ab), NodeV::Lambda(c, d)) => {
            lemma_push_lexicon_lambda_log(m, ValidV::Features(b), *d);
            let (m1, r1) = spec_push_lexicon_lambda(m, ValidV::Features(b), *d);
            if let Ok(inserted) = r1 {
                let m2 = if inserted && project_ab {
                    super::model::spec_push(m1, NodeV::Projection(super::valid_entry::right_of(*a)))
                } else {
                    m1
                };
                lemma_entry_to_node_log(m2, *a);
                lemma_log_trans(m, m2, spec_entry_to_node(m2, *a).0);
            }
        },
        _ => {},
    }
}

/// The derivation log only grows: taking in a word or applying an entry keeps every
/// earlier event, never switches tracing on or off, and logs nothing when tracing is off.
pub proof fn law_log_only_grows(m: LambdaV, token: Key, entry: EntryV)
    ensures
        log_extends(m, spec_receive(m, token).0),
        log_extends(m, spec_decide(m, entry).0),
{
    lemma_log_step(super::model::spec_begin_step(m), OpV::MergeToken(token));
    let m1 = super::model::spec_log(super::model::spec_begin_step(m), OpV::MergeEntry(entry));
    lemma_log_step(super::model::spec_begin_step(m), OpV::MergeEntry(entry));
    if m1.expects.len() > 0 {
        let m2 = LambdaV { expects: m1.expects.drop_last(), ..m1 };
        assert(log_extends(m, m2));
        match m1.expects.last() {
            NodeV::Lambda(awaited_from, to) => match (awaited_from, entry) {
                (ValueV::Features(from_fs), EntryV::Functional(node, entry_project)) => {
                    match super::valid_entry::valid_of(node) {
                        Some(v) => {
                            let v1 = match entry_project {
                                Some(ignore) => {
                                    let onto = super::valid_entry::right_of(v);
                                    let p = crate::syntax::feature_set::projected(from_fs, ignore);
                                    super::valid_entry::with_right(
                                        v,
                                        onto.union_prefer_right(crate::syntax::feature_set::before_first_clash(p, onto)),
                                    )
                                },
                                None => v,
                            };
                            lemma_push_lexicon_lambda_log(m2, v1, *to);
                            lemma_log_trans(m, m2, spec_push_lexicon_lambda(m2, v1, *to).0);
                        },
                        None => {},
                    }
                },
                (ValueV::Item(_), EntryV::Lexical(node)) => {
                    match super::valid_entry::valid_of(node) {
                        Some(v) => {
                            lemma_push_lexicon_lambda_log(m2, v, *to);
                            lemma_log_trans(m, m2, spec_push_lexicon_lambda(m2, v, *to).0);
                        },
                        None => {},
                    }
                },
                _ => {},
            },
            _ => {},
        }
    }
}

/// The pending requirements number the pending chains.
proof fn lemma_pending_requirements_len(cs: Seq<ChainV>)
    ensures
        pending_requirements(cs).len() == pending_count(cs),
    decreases cs.len(),
{
    if cs.len() > 0 {
        lemma_pending_requirements_len(cs.drop_last());
    }
}

/// The pending counts agree: in a model whose chains are numbered in order of
/// introduction (every model built from a new one), the chain records come in the
/// order of the chains, so as many records are pending as `pending_chain_count` says
/// and as there are unresolved requirements.
pub proof fn law_pending_counts_agree(m: LambdaV)
    requires
        chains_ordered(m),
    ensures
        sort_by_id(m.chains) == m.chains,
        pending_count(sort_by_id(m.chains)) == pending_count(m.chains),
        pending_requirements(m.chains).len() == pending_count(m.chains),
{
    lemma_sort_by_id_increasing(m.chains);
    lemma_pending_requirements_len(m.chains);
}

/// What a pending chain needs to be discharged: its requirement's categories all
/// appear among the provided features, or the two share a category (values are not
/// compared). A chain with such a requirement is discharged, which lowers the number
/// of pending chains by one; when no pending chain has one, the chains stay as they were.
pub proof fn law_shared_category_discharges(m: LambdaV, provided: Map<Key, Option<Key>>)
    ensures
        (exists|i: int| 0 <= i < m.chains.len() && (#[trigger] m.chains[i]).pending && (
            (forall|k: Key| m.chains[i].requirement.contains_key(k) ==> provided.contains_key(k))
            || (exists|k: Key| m.chains[i].requirement.contains_key(k) && provided.contains_key(k))))
            ==> pending_count(spec_discharge(m, provided).chains) + 1 == pending_count(m.chains),
        !(exists|i: int| 0 <= i < m.chains.len() && (#[trigger] m.chains[i]).pending && (
            (forall|k: Key| m.chains[i].requirement.contains_key(k) ==> provided.contains_key(k))
            || (exists|k: Key| m.chains[i].requirement.contains_key(k) && provided.contains_key(k))))
            ==> spec_discharge(m, provided).chains == m.chains,
{
    lemma_discharge_chains(m, provided);
    if exists|i: int| 0 <= i < m.chains.len() && (#[trigger] m.chains[i]).pending && (
        (forall|k: Key| m.chains[i].requirement.contains_key(k) ==> provided.contains_key(k))
        || (exists|k: Key| m.chains[i].requirement.contains_key(k) && provided.contains_key(k))) {
        let i = choose|i: int| 0 <= i < m.chains.len() && (#[trigger] m.chains[i]).pending && (
            (forall|k: Key| m.chains[i].requirement.contains_key(k) ==> provided.contains_key(k))
            || (exists|k: Key| m.chains[i].requirement.contains_key(k) && provided.contains_key(k)));
        if exists|k: Key| m.chains[i].requirement.contains_key(k) && provided.contains_key(k) {
            let k = choose|k: Key| m.chains[i].requirement.contains_key(k) && provided.contains_key(k);
            assert(crate::syntax::feature_set::categories_overlap(m.chains[i].requirement, provided));
        } else {
            assert(crate::syntax::feature_set::categories_subset(m.chains[i].requirement, provided));
        }
        assert(dischargeable(m.chains[i], provided));
        assert(some_dischargeable(m, provided));
    } else {
        if some_dischargeable(m, provided) {
            let i = choose|i: int| 0 <= i < m.chains.len() && dischargeable(#[trigger] m.chains[i], provided);
            if crate::syntax::feature_set::categories_overlap(m.chains[i].requirement, provided) {
                let k = choose|k: Key| #[trigger] m.chains[i].requirement.contains_key(k) && provided.contains_key(k);
                assert(m.chains[i].requirement.contains_key(k) && provided.contains_key(k));
            }
            assert(false);
        }
    }
}

/// Features meet an expectation only with the same values: when some category of the
/// expected `to` is missing from `from` or has another value there, a function
/// awaiting `from` that then expects `to` is pushed and `Ok(true)` returned; when
/// `from` holds every feature of `to` with its value, nothing is pushed to await it
/// and the answer is never `Ok(true)`.
pub proof fn law_features_meet_expectation_with_same_values(m: LambdaV, from: Map<Key, Option<Key>>, to: Map<Key, Option<Key>>)
    ensures
        (exists|k: Key| #[trigger] to.contains_key(k) && !(from.contains_key(k) && from[k] == to[k]))
            ==> spec_push_lambda_features(m, from, to) == (
            super::model::spec_push(
                spec_discharge(m, from),
                NodeV::Lambda(ValueV::Features(from), Box::new(NodeV::Value(ValueV::Features(to)))),
            ),
            Ok::<bool, crate::error::LambdaError>(true),
        ),
        (forall|k: Key| #[trigger] to.contains_key(k) ==> from.contains_key(k) && from[k] == to[k])
            ==> spec_push_lambda_features(m, from, to).1 != Ok::<bool, crate::error::LambdaError>(true)
                && spec_push_lambda_features(m, from, to).0.expects.len() <= m.expects.len(),
{
    if exists|k: Key| #[trigger] to.contains_key(k) && !(from.contains_key(k) && from[k] == to[k]) {
        let k = choose|k: Key| #[trigger] to.contains_key(k) && !(from.contains_key(k) && from[k] == to[k]);
        assert(!crate::syntax::feature_set::map_subset(to, from));
    }
    lemma_discharge_chains(m, from);
}

/// Applying a functional entry whose features to leave out are `ignore` to a function
/// awaiting `from` passes up onto the entry's right-hand features every feature of
/// `from` that `ignore` does not hold with the same value: when none of them is already
/// a category there, it does what applying, without leaving anything out, an entry whose
/// right-hand features already hold them does; otherwise it fails with
/// `CategoryAlreadyHasValue`.
pub proof fn law_functional_entry_passes_features_up(
    m: LambdaV,
    from: Map<Key, Option<Key>>,
    to: NodeV,
    node: crate::lexicon::LexNodeV,
    ignore: Map<Key, Option<Key>>,
    node2: crate::lexicon::LexNodeV,
)
    requires
        m.expects.len() > 0,
        m.expects.last() == NodeV::Lambda(ValueV::Features(from), Box::new(to)),
        super::valid_entry::valid_of(node) is Some,
        super::valid_entry::valid_of(node2) == Some(super::valid_entry::with_right(
            super::valid_entry::valid_of(node)->Some_0,
            Map::new(
                |k: Key| super::valid_entry::right_of(super::valid_entry::valid_of(node)->Some_0).contains_key(k)
                    || (from.contains_key(k) && !(ignore.contains_key(k) && ignore[k] == from[k])),
                |k: Key| if super::valid_entry::right_of(super::valid_entry::valid_of(node)->Some_0).contains_key(k) {
                    super::valid_entry::right_of(super::valid_entry::valid_of(node)->Some_0)[k]
                } else {
                    from[k]
                },
            ),
        )),
    ensures
        (forall|k: Key| #[trigger] from.contains_key(k) && !(ignore.contains_key(k) && ignore[k] == from[k])
            ==> !super::valid_entry::right_of(super::valid_entry::valid_of(node)->Some_0).contains_key(k)) ==> {
            &&& super::trace_laws::twins(
                spec_decide(m, EntryV::Functional(node, Some(ignore))).0,
                spec_decide(m, EntryV::Functional(node2, None)).0,
            )
            &&& spec_decide(m, EntryV::Functional(node, Some(ignore))).1 == spec_decide(m, EntryV::Functional(node2, None)).1
        },
        (exists|k: Key| #[trigger] from.contains_key(k) && !(ignore.contains_key(k) && ignore[k] == from[k])
            && super::valid_entry::right_of(super::valid_entry::valid_of(node)->Some_0).contains_key(k))
            ==> spec_decide(m, EntryV::Functional(node, Some(ignore))).1 == Err::<(), crate::error::LambdaError>(
                crate::error::LambdaError::Syntax(crate::error::SyntaxError::CategoryAlreadyHasValue),
            ),
{
    let v = super::valid_entry::valid_of(node)->Some_0;
    let onto = super::valid_entry::right_of(v);
    let p = crate::syntax::feature_set::projected(from, ignore);
    let e1 = EntryV::Functional(node, Some(ignore));
    let e2 = EntryV::Functional(node2, None);
    let a1 = spec_log(super::model::spec_begin_step(m), OpV::MergeEntry(e1));
    let b1 = spec_log(super::model::spec_begin_step(m), OpV::MergeEntry(e2));
    let a2 = LambdaV { expects: a1.expects.drop_last(), ..a1 };
    let b2 = LambdaV { expects: b1.expects.drop_last(), ..b1 };
    assert(super::trace_laws::twins(a2, b2));
    if forall|k: Key| #[trigger] from.contains_key(k) && !(ignore.contains_key(k) && ignore[k] == from[k])
        ==> !onto.contains_key(k) {
        assert(!crate::syntax::feature_set::categories_overlap(p, onto)) by {
            if crate::syntax::feature_set::categories_overlap(p, onto) {
                let k = choose|k: Key| #[trigger] p.contains_key(k) && onto.contains_key(k);
                assert(from.contains_key(k) && !(ignore.contains_key(k) && ignore[k] == from[k]));
            }
        }
        assert(crate::syntax::feature_set::before_first_clash(p, onto) =~= p);
        let r = Map::new(
            |k: Key| onto.contains_key(k) || (from.contains_key(k) && !(ignore.contains_key(k) && ignore[k] == from[k])),
            |k: Key| if onto.contains_key(k) { onto[k] } else { from[k] },
        );
        assert(onto.union_prefer_right(p) =~= r);
        let v1 = super::valid_entry::with_right(v, r);
        super::trace_laws::law_tracing_pushes_alike(a2, b2, v1, to);
    } else {
        let k = choose|k: Key| #[trigger] from.contains_key(k) && !(ignore.contains_key(k) && ignore[k] == from[k])
            && onto.contains_key(k);
        assert(p.contains_key(k));
        assert(crate::syntax::feature_set::categories_overlap(p, onto));
    }
}

} // verus!
