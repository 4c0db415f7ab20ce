use super::node::{left_features, with_left, Node, NodeV};
use super::valid_entry::{right_of, valid_of, with_right, ValidEntry, ValidV};
use crate::error::{LambdaError, SyntaxError};
use crate::lexicon::{EntryV, LexiconEntry};
use crate::syntax::feature_set::{before_first_clash, categories_overlap, categories_subset, map_subset, projected};
use crate::syntax::{FeatureSet, Key, SyntaxValue, ValueV};
use super::records::{
    insert_by_id, is_chain_record, is_step_record, lemma_insert_by_id_at, op_detail, sort_by_id,
    ChainLifecycleRecord, DerivationStepRecord,
};
use crate::interner::Interner;
use crate::syntax::render::{bytes_to_string, fs_text, key_bytes};
use crate::text::{append_bytes, byte_views, bytes_order, decimal_bytes, join_sep, join_with, sort_texts, str_bytes};
use super::render::node_text;
use vstd::prelude::*;
use vstd::string::StringSliceAdditionalSpecFns;

verus! {

/// The mathematical value of a movement chain.
pub ghost struct ChainV {
    pub id: usize,
    pub requirement: Map<Key, Option<Key>>,
    pub introduced_at: usize,
    pub discharged_at: Option<usize>,
    pub pending: bool,
}

/// The mathematical value of a derivation operation.
pub ghost enum OpV {
    MergeToken(Key),
    MergeEntry(EntryV),
    MoveIntroduce(usize, Map<Key, Option<Key>>),
    CheckDischarge(usize, Map<Key, Option<Key>>, Map<Key, Option<Key>>),
}

/// The mathematical value of a derivation event: an operation at a step.
pub ghost struct EventV {
    pub step: usize,
    pub op: OpV,
}

/// The mathematical value of a lambda model.
pub ghost struct LambdaV {
    /// The expectations, the last one on top.
    pub expects: Seq<NodeV>,
    /// The movement chains, in the order they were introduced.
    pub chains: Seq<ChainV>,
    pub next_chain_id: usize,
    pub step: usize,
    pub events: Seq<EventV>,
    pub trace: bool,
}

#[derive(Debug, Clone, Copy, PartialEq, Eq, Structural)]
enum ChainStatus {
    Pending,
    Discharged,
}

#[derive(Debug)]
struct MovementChain {
    id: usize,
    requirement: FeatureSet,
    introduced_at: usize,
    discharged_at: Option<usize>,
    status: ChainStatus,
}

#[derive(Debug)]
enum DerivationOp {
    MergeToken { token: Key },
    MergeEntry { entry: LexiconEntry },
    MoveIntroduce { chain_id: usize, requirement: FeatureSet },
    CheckDischarge { chain_id: usize, requirement: FeatureSet, provided: FeatureSet },
}

#[derive(Debug)]
struct DerivationEvent {
    step: usize,
    op: DerivationOp,
}

spec fn chain_view(c: MovementChain) -> ChainV {
    ChainV {
        id: c.id,
        requirement: c.requirement@,
        introduced_at: c.introduced_at,
        discharged_at: c.discharged_at,
        pending: c.status == ChainStatus::Pending,
    }
}

spec fn op_view(op: DerivationOp) -> OpV {
    match op {
        DerivationOp::MergeToken { token } => OpV::MergeToken(token),
        DerivationOp::MergeEntry { entry } => OpV::MergeEntry(entry@),
        DerivationOp::MoveIntroduce { chain_id, requirement } => OpV::MoveIntroduce(chain_id, requirement@),
        DerivationOp::CheckDischarge { chain_id, requirement, provided } => OpV::CheckDischarge(
            chain_id,
            requirement@,
            provided@,
        ),
    }
}

spec fn event_view(e: DerivationEvent) -> EventV {
    EventV { step: e.step, op: op_view(e.op) }
}

/// The listener as a stack of expectations (a lambda calculus of features),
/// with the movement chains that gaps have opened and, when tracing, a log of
/// the derivation.
#[derive(Debug)]
pub struct LambdaModel {
    expects: Vec<Node>,
    chains: Vec<MovementChain>,
    next_chain_id: usize,
    step_counter: usize,
    derivation_events: Vec<DerivationEvent>,
    trace_enabled: bool,
}

impl View for LambdaModel {
    type V = LambdaV;

    closed spec fn view(&self) -> LambdaV {
        LambdaV {
            expects: self.expects@.map_values(|n: Node| n@),
            chains: self.chains@.map_values(|c: MovementChain| chain_view(c)),
            next_chain_id: self.next_chain_id,
            step: self.step_counter,
            events: self.derivation_events@.map_values(|e: DerivationEvent| event_view(e)),
            trace: self.trace_enabled,
        }
    }
}

// ---------------------------------------------------------------------------
// The transitions of the model, stated over its mathematical value.
// ---------------------------------------------------------------------------

/// The model that expects `target` and nothing else.
/// The requirements of the chains still pending, in the order of the chains.
pub open spec fn pending_requirements(cs: Seq<ChainV>) -> Seq<Map<Key, Option<Key>>>
    decreases cs.len(),
{
    if cs.len() == 0 {
        Seq::empty()
    } else if cs.last().pending {
        pending_requirements(cs.drop_last()).push(cs.last().requirement)
    } else {
        pending_requirements(cs.drop_last())
    }
}

/// Two models are in the same search state: the same expectations, and the same
/// requirements pending, counted with repeats and in any order.
pub open spec fn same_search_state(m1: LambdaV, m2: LambdaV) -> bool {
    &&& m1.expects == m2.expects
    &&& pending_requirements(m1.chains).to_multiset() == pending_requirements(m2.chains).to_multiset()
}

pub open spec fn spec_init(target: Map<Key, Option<Key>>) -> LambdaV {
    LambdaV {
        expects: Seq::empty().push(NodeV::Value(ValueV::Features(target))),
        chains: Seq::empty(),
        next_chain_id: 1,
        step: 0,
        events: Seq::empty(),
        trace: false,
    }
}

pub open spec fn spec_push(m: LambdaV, n: NodeV) -> LambdaV {
    LambdaV { expects: m.expects.push(n), ..m }
}

pub open spec fn spec_begin_step(m: LambdaV) -> LambdaV {
    LambdaV { step: (m.step + 1) as usize, ..m }
}

/// Records `op` at the current step when tracing is on.
pub open spec fn spec_log(m: LambdaV, op: OpV) -> LambdaV {
    if m.trace {
        LambdaV { events: m.events.push(EventV { step: m.step, op }), ..m }
    } else {
        m
    }
}

/// Opens a pending chain that requires `needed`, under the next chain id.
pub open spec fn spec_add_chain(m: LambdaV, needed: Map<Key, Option<Key>>) -> LambdaV {
    let id = m.next_chain_id;
    let m1 = spec_log(LambdaV { next_chain_id: (id + 1) as usize, ..m }, OpV::MoveIntroduce(id, needed));
    LambdaV {
        chains: m1.chains.push(
            ChainV { id, requirement: needed, introduced_at: m1.step, discharged_at: None, pending: true },
        ),
        ..m1
    }
}

/// A pending chain is discharged by `provided` when its categories are all among
/// those of `provided`, or when it shares a category with `provided`.
pub open spec fn dischargeable(c: ChainV, provided: Map<Key, Option<Key>>) -> bool {
    c.pending && (categories_subset(c.requirement, provided) || categories_overlap(c.requirement, provided))
}

/// The position of the first chain that `provided` discharges, or the length when none.
pub open spec fn first_dischargeable(chains: Seq<ChainV>, provided: Map<Key, Option<Key>>) -> int
    decreases chains.len(),
{
    if chains.len() == 0 {
        0
    } else {
        let i = first_dischargeable(chains.drop_last(), provided);
        if i < chains.len() - 1 {
            i
        } else if dischargeable(chains.last(), provided) {
            chains.len() - 1
        } else {
            chains.len() as int
        }
    }
}

/// Discharges the first pending chain that `provided` satisfies, if any.
pub open spec fn spec_discharge(m: LambdaV, provided: Map<Key, Option<Key>>) -> LambdaV {
    let i = first_dischargeable(m.chains, provided);
    if i < m.chains.len() {
        let c = m.chains[i];
        let m1 = LambdaV {
            chains: m.chains.update(i, ChainV { pending: false, discharged_at: Some(m.step), ..c }),
            ..m
        };
        spec_log(m1, OpV::CheckDischarge(c.id, c.requirement, provided))
    } else {
        m
    }
}

/// The id of the chain that `provided` discharges, if any.
pub open spec fn spec_discharged_id(m: LambdaV, provided: Map<Key, Option<Key>>) -> Option<usize> {
    let i = first_dischargeable(m.chains, provided);
    if i < m.chains.len() {
        Some(m.chains[i].id)
    } else {
        None
    }
}

/// When a projection marker is on top, removes it and passes `from` (less the marker's
/// ignored features) onto the left features of the expectation below it.
pub open spec fn spec_possibly_project(m: LambdaV, from: Map<Key, Option<Key>>) -> (LambdaV, Result<(), LambdaError>) {
    if m.expects.len() > 0 && m.expects.last() is Projection {
        let ignore = m.expects.last()->Projection_0;
        let m1 = LambdaV { expects: m.expects.drop_last(), ..m };
        if m1.expects.len() > 0 && left_features(m1.expects.last()) is Some {
            let onto = left_features(m1.expects.last())->Some_0;
            let p = projected(from, ignore);
            let m2 = LambdaV {
                expects: m1.expects.update(
                    m1.expects.len() - 1,
                    with_left(m1.expects.last(), onto.union_prefer_right(before_first_clash(p, onto))),
                ),
                ..m1
            };
            if categories_overlap(p, onto) {
                (m2, Err(LambdaError::Syntax(SyntaxError::CategoryAlreadyHasValue)))
            } else {
                (m2, Ok(()))
            }
        } else {
            (m1, Ok(()))
        }
    } else {
        (m, Ok(()))
    }
}

/// Awaits `from` before expecting `to`; when `to` is already contained in `from`
/// nothing is awaited and `from` passes up instead (result `false`).
pub open spec fn spec_push_lambda_features(m: LambdaV, from: Map<Key, Option<Key>>, to: Map<Key, Option<Key>>) -> (LambdaV, Result<bool, LambdaError>) {
    let m1 = spec_discharge(m, from);
    if map_subset(to, from) {
        let (m2, r) = spec_possibly_project(m1, from);
        (m2, match r { Ok(_) => Ok(false), Err(e) => Err(e) })
    } else {
        (spec_push(m1, NodeV::Lambda(ValueV::Features(from), Box::new(NodeV::Value(ValueV::Features(to))))), Ok(true))
    }
}

/// The expectation that an entry becomes, with the chain work it triggers: plain
/// features discharge a chain, a moved constituent opens one.
pub open spec fn spec_entry_to_node(m: LambdaV, e: ValidV) -> (LambdaV, Result<NodeV, LambdaError>) {
    match e {
        ValidV::Features(fs) => (spec_discharge(m, fs), Ok(NodeV::Value(ValueV::Features(fs)))),
        ValidV::Moved(fs) => (spec_add_chain(m, fs), Ok(NodeV::Value(ValueV::Features(fs)))),
        ValidV::Lambda(from, to, _) => match *from {
            ValidV::Features(ffs) => (
                spec_discharge(m, ffs),
                Ok(NodeV::Lambda(ValueV::Features(ffs), Box::new(NodeV::Value(ValueV::Features(to))))),
            ),
            ValidV::Moved(mfs) => (
                spec_add_chain(m, mfs),
                Ok(NodeV::Lambda(ValueV::Features(mfs), Box::new(NodeV::Value(ValueV::Features(to))))),
            ),
            ValidV::Lambda(..) => (m, Err(LambdaError::TypeConversion)),
        },
    }
}

/// Combines an entry with the expectation `to` that it answers.
pub open spec fn spec_push_lexicon_lambda(m: LambdaV, from: ValidV, to: NodeV) -> (LambdaV, Result<bool, LambdaError>)
    decreases to,
{
    match (from, to) {
        (ValidV::Features(f), NodeV::Value(ValueV::Features(t))) => spec_push_lambda_features(m, f, t),
        (ValidV::Features(_), NodeV::Value(ValueV::Item(_))) => (m, Err(LambdaError::LambdaToMustBeFeatures)),
        (ValidV::Features(f), NodeV::Lambda(_, _)) => (
            spec_push(spec_discharge(m, f), NodeV::Lambda(ValueV::Features(f), Box::new(to))),
            Ok(true),
        ),
        (ValidV::Moved(f), NodeV::Value(ValueV::Features(t))) => {
            let m1 = spec_add_chain(m, f);
            if map_subset(t, f) {
                let (m2, r) = spec_possibly_project(m1, f);
                (m2, match r { Ok(_) => Ok(false), Err(e) => Err(e) })
            } else {
                (spec_push(m1, NodeV::Lambda(ValueV::Features(f), Box::new(NodeV::Value(ValueV::Features(t))))), Ok(true))
            }
        },
        (ValidV::Moved(f), NodeV::Lambda(_, _)) => (
            spec_push(spec_add_chain(m, f), NodeV::Lambda(ValueV::Features(f), Box::new(to))),
            Ok(true),
        ),
        (ValidV::Moved(_), _) => (m, Err(LambdaError::LambdaToMustBeFeatures)),
        (ValidV::Lambda(new, from_fs, project), NodeV::Value(v)) => match v {
            ValueV::Features(t) => {
                let (m1, r1) = spec_push_lambda_features(m, from_fs, t);
                match r1 {
                    Err(e) => (m1, Err(e)),
                    Ok(inserted) => {
                        let m2 = if inserted && project {
                            spec_push(m1, NodeV::Projection(right_of(*new)))
                        } else {
                            m1
                        };
                        let (m3, rn) = spec_entry_to_node(m2, *new);
                        match rn {
                            Err(e) => (m3, Err(e)),
                            Ok(n) => (spec_push(m3, n), Ok(true)),
                        }
                    },
                }
            },
            ValueV::Item(_) => (m, Err(LambdaError::LambdaToMustBeFeatures)),
        },
        (ValidV::Lambda(a, b, project_ab), NodeV::Lambda(c, d)) => {
            let (m1, r1) = spec_push_lexicon_lambda(m, ValidV::Features(b), *d);
            match r1 {
                Err(e) => (m1, Err(e)),
                Ok(inserted) => {
                    let m2 = if inserted && project_ab {
                        spec_push(m1, NodeV::Projection(right_of(*a)))
                    } else {
                        m1
                    };
                    let (m3, ra) = spec_entry_to_node(m2, *a);
                    match ra {
                        Err(e) => (m3, Err(e)),
                        Ok(n) => (spec_push(m3, NodeV::Lambda(c, Box::new(n))), Ok(true)),
                    }
                },
            }
        },
        (_, NodeV::Projection(_)) => (m, Err(LambdaError::LambdaToMustBeFeatures)),
    }
}

/// Takes in the word `token`: the expectation on top now awaits it.
pub open spec fn spec_receive(m: LambdaV, token: Key) -> (LambdaV, Result<(), LambdaError>) {
    let m1 = spec_log(spec_begin_step(m), OpV::MergeToken(token));
    if m1.expects.len() == 0 {
        (m1, Err(LambdaError::NoExpectation))
    } else {
        let top = m1.expects.last();
        (spec_push(LambdaV { expects: m1.expects.drop_last(), ..m1 }, NodeV::Lambda(ValueV::Item(token), Box::new(top))), Ok(()))
    }
}

/// Applies a lexicon entry to the function on top, which awaits what the entry answers.
pub open spec fn spec_decide(m: LambdaV, entry: EntryV) -> (LambdaV, Result<(), LambdaError>) {
    let m1 = spec_log(spec_begin_step(m), OpV::MergeEntry(entry));
    if m1.expects.len() == 0 {
        (m1, Err(LambdaError::NoExpectation))
    } else {
        let target = m1.expects.last();
        let m2 = LambdaV { expects: m1.expects.drop_last(), ..m1 };
        match target {
            NodeV::Lambda(awaited_from, to) => match (awaited_from, entry) {
                (ValueV::Features(from_fs), EntryV::Functional(node, entry_project)) => match valid_of(node) {
                    None => (m2, Err(LambdaError::TypeConversion)),
                    Some(v) => {
                        let (v1, ok) = match entry_project {
                            Some(ignore) => {
                                let onto = right_of(v);
                                let p = projected(from_fs, ignore);
                                (with_right(v, onto.union_prefer_right(before_first_clash(p, onto))), !categories_overlap(p, onto))
                            },
                            None => (v, true),
                        };
                        if !ok {
                            (m2, Err(LambdaError::Syntax(SyntaxError::CategoryAlreadyHasValue)))
                        } else {
                            let (m3, r) = spec_push_lexicon_lambda(m2, v1, *to);
                            (m3, match r { Ok(_) => Ok(()), Err(e) => Err(e) })
                        }
                    },
                },
                (ValueV::Item(_), EntryV::Lexical(node)) => match valid_of(node) {
                    None => (m2, Err(LambdaError::TypeConversion)),
                    Some(v) => {
                        let (m3, r) = spec_push_lexicon_lambda(m2, v, *to);
                        (m3, match r { Ok(_) => Ok(()), Err(e) => Err(e) })
                    },
                },
                _ => (m2, Err(LambdaError::QueryAndEntryTypeMismatch)),
            },
            _ => (m2, Err(LambdaError::ApplyEntryToNonLambda)),
        }
    }
}

/// The number of chains still pending.
pub open spec fn pending_count(chains: Seq<ChainV>) -> nat
    decreases chains.len(),
{
    if chains.len() == 0 {
        0
    } else {
        pending_count(chains.drop_last()) + if chains.last().pending { 1nat } else { 0nat }
    }
}

} // verus!

verus! {

pub proof fn lemma_first_dischargeable(chains: Seq<ChainV>, provided: Map<Key, Option<Key>>, i: int)
    requires
        0 <= i <= chains.len(),
        forall|j: int| 0 <= j < i ==> !dischargeable(#[trigger] chains[j], provided),
        i < chains.len() ==> dischargeable(chains[i], provided),
    ensures
        first_dischargeable(chains, provided) == i,
    decreases chains.len(),
{
    if chains.len() > 0 {
        let s = chains.drop_last();
        if i < chains.len() - 1 {
            lemma_first_dischargeable(s, provided, i);
        } else {
            assert forall|j: int| 0 <= j < chains.len() - 1 implies !dischargeable(#[trigger] s[j], provided) by {
                assert(s[j] == chains[j]);
            }
            lemma_first_dischargeable(s, provided, chains.len() - 1);
        }
    }
}

pub proof fn lemma_pending_count_update(chains: Seq<ChainV>, i: int, c: ChainV)
    requires
        0 <= i < chains.len(),
        chains[i].pending,
        !c.pending,
    ensures
        pending_count(chains.update(i, c)) + 1 == pending_count(chains),
    decreases chains.len(),
{
    let u = chains.update(i, c);
    if i < chains.len() - 1 {
        assert(u.drop_last() =~= chains.drop_last().update(i, c));
        lemma_pending_count_update(chains.drop_last(), i, c);
    } else {
        assert(u.drop_last() =~= chains.drop_last());
    }
}

impl LambdaModel {
    /// A model that expects nothing yet.
    pub fn new() -> (r: Self)
        ensures
            r@ == (LambdaV {
                expects: Seq::empty(),
                chains: Seq::empty(),
                next_chain_id: 1,
                step: 0,
                events: Seq::empty(),
                trace: false,
            }),
    {
        let r = LambdaModel {
            expects: Vec::new(),
            chains: Vec::new(),
            next_chain_id: 1,
            step_counter: 0,
            derivation_events: Vec::new(),
            trace_enabled: false,
        };
        assert(r@.expects =~= Seq::empty());
        assert(r@.chains =~= Seq::empty());
        assert(r@.events =~= Seq::empty());
        r
    }

    /// The model that expects a constituent of category `target`.
    pub fn init(target: FeatureSet) -> (r: Self)
        ensures
            r@ == spec_init(target@),
    {
        let mut model = Self::new();
        model.push(Node::from_features(target));
        assert(model@.expects =~= spec_init(target@).expects);
        model
    }

    /// The id the next chain will get.
    pub fn next_chain_id(&self) -> (r: usize)
        ensures
            r == self@.next_chain_id,
    {
        self.next_chain_id
    }

    /// The number of steps taken so far.
    pub fn step_count(&self) -> (r: usize)
        ensures
            r == self@.step,
    {
        self.step_counter
    }

    /// Whether nothing more is expected.
    pub fn is_empty(&self) -> (r: bool)
        ensures
            r == (self@.expects.len() == 0),
    {
        self.expects.len() == 0
    }

    /// Whether the input has been understood: nothing more is expected.
    pub fn understood(&self) -> (r: bool)
        ensures
            r == (self@.expects.len() == 0),
    {
        self.is_empty()
    }

    /// Whether the model can take in a word now: the top expectation is a value or a function.
    pub fn demand(&self) -> (r: bool)
        ensures
            r == (self@.expects.len() > 0 && !(self@.expects.last() is Projection)),
    {
        let n = self.expects.len();
        if n == 0 {
            return false;
        }
        match &self.expects[n - 1] {
            Node::Value { .. } => true,
            Node::Lambda { .. } => true,
            Node::Projection { .. } => false,
        }
    }

    /// What the function on top awaits, if the top expectation is a function.
    pub fn wonder(&self) -> (r: Option<&SyntaxValue>)
        ensures
            match r {
                Some(v) => self@.expects.len() > 0 && (self@.expects.last() matches NodeV::Lambda(f, _) && f == v@),
                None => !(self@.expects.len() > 0 && self@.expects.last() is Lambda),
            },
    {
        let n = self.expects.len();
        if n == 0 {
            return None;
        }
        match &self.expects[n - 1] {
            Node::Lambda { from, .. } => Some(from),
            _ => None,
        }
    }

    /// The top expectation.
    pub fn peek(&self) -> (r: Option<&Node>)
        ensures
            match r {
                Some(n) => self@.expects.len() > 0 && n@ == self@.expects.last(),
                None => self@.expects.len() == 0,
            },
    {
        let n = self.expects.len();
        if n == 0 {
            None
        } else {
            Some(&self.expects[n - 1])
        }
    }

    /// Puts `expect` on top of the expectations.
    pub fn push(&mut self, expect: Node)
        ensures
            final(self)@ == spec_push(old(self)@, expect@),
    {
        self.expects.push(expect);
        assert(self@.expects =~= old(self)@.expects.push(expect@));
    }

    fn push_lambda(&mut self, from: SyntaxValue, to: Node)
        ensures
            final(self)@ == spec_push(old(self)@, NodeV::Lambda(from@, Box::new(to@))),
    {
        let ghost tv = to@;
        let n = Node::Lambda { from, to: Box::new(to) };
        assert(n@ == NodeV::Lambda(from@, Box::new(tv)));
        self.push(n);
    }

    fn push_projection(&mut self, ignore: FeatureSet)
        ensures
            final(self)@ == spec_push(old(self)@, NodeV::Projection(ignore@)),
    {
        self.push(Node::Projection { ignore });
    }

    /// Removes and returns the top expectation.
    pub fn pop(&mut self) -> (r: Option<Node>)
        ensures
            old(self)@.expects.len() == 0 ==> r is None && final(self)@ == old(self)@,
            old(self)@.expects.len() > 0 ==> (r matches Some(n) && n@ == old(self)@.expects.last()
                && final(self)@ == (LambdaV { expects: old(self)@.expects.drop_last(), ..old(self)@ })),
    {
        let r = self.expects.pop();
        if r.is_some() {
            assert(self@.expects =~= old(self)@.expects.drop_last());
        }
        r
    }

    fn pop_node(&mut self) -> (r: Result<Node, LambdaError>)
        ensures
            old(self)@.expects.len() == 0 ==> r == Err::<Node, LambdaError>(LambdaError::NoExpectation)
                && final(self)@ == old(self)@,
            old(self)@.expects.len() > 0 ==> (r matches Ok(n) && n@ == old(self)@.expects.last()
                && final(self)@ == (LambdaV { expects: old(self)@.expects.drop_last(), ..old(self)@ })),
    {
        match self.pop() {
            Some(n) => Ok(n),
            None => Err(LambdaError::NoExpectation),
        }
    }

    fn begin_step(&mut self)
        requires
            old(self)@.step < usize::MAX,
        ensures
            final(self)@ == spec_begin_step(old(self)@),
    {
        self.step_counter = self.step_counter + 1;
    }

    fn log_event(&mut self, op: DerivationOp)
        ensures
            final(self)@ == spec_log(old(self)@, op_view(op)),
    {
        if self.trace_enabled {
            let ghost ov = op_view(op);
            let ev = DerivationEvent { step: self.step_counter, op };
            self.derivation_events.push(ev);
            assert(self@.events =~= old(self)@.events.push(EventV { step: old(self)@.step, op: ov }));
        }
    }

    /// Opens a pending chain that requires `needed`, and returns its id.
    fn add_pending_chain(&mut self, needed: FeatureSet) -> (r: usize)
        requires
            old(self)@.next_chain_id < usize::MAX,
        ensures
            final(self)@ == spec_add_chain(old(self)@, needed@),
            r == old(self)@.next_chain_id,
    {
        let chain_id = self.next_chain_id;
        self.next_chain_id = self.next_chain_id + 1;
        self.log_event(DerivationOp::MoveIntroduce { chain_id, requirement: needed.duplicate() });
        let ghost nv = needed@;
        let c = MovementChain {
            id: chain_id,
            requirement: needed,
            introduced_at: self.step_counter,
            discharged_at: None,
            status: ChainStatus::Pending,
        };
        let ghost before = self@;
        self.chains.push(c);
        assert(self@.chains =~= before.chains.push(
            ChainV { id: chain_id, requirement: nv, introduced_at: before.step, discharged_at: None, pending: true },
        ));
        chain_id
    }

    /// Discharges the first pending chain that `provided` satisfies; returns its id.
    fn discharge_pending_chain_with(&mut self, provided: &FeatureSet) -> (r: Option<usize>)
        ensures
            final(self)@ == spec_discharge(old(self)@, provided@),
            r == spec_discharged_id(old(self)@, provided@),
    {
        let mut i: usize = 0;
        let n = self.chains.len();
        while i < n
            invariant
                n == self.chains@.len(),
                0 <= i <= n,
                self@ == old(self)@,
                forall|j: int| 0 <= j < i ==> !dischargeable(#[trigger] self@.chains[j], provided@),
            decreases n - i,
        {
            let hit = self.chains[i].status == ChainStatus::Pending && (
                self.chains[i].requirement.is_feature_compatible_subset(provided)
                    || self.chains[i].requirement.overlaps_category(provided));
            assert(self@.chains[i as int] == chain_view(self.chains@[i as int]));
            if hit {
                proof {
                    lemma_first_dischargeable(self@.chains, provided@, i as int);
                }
                let ghost before = self@;
                let chain_id = self.chains[i].id;
                let requirement = self.chains[i].requirement.duplicate();
                let updated = MovementChain {
                    id: chain_id,
                    requirement: self.chains[i].requirement.duplicate(),
                    introduced_at: self.chains[i].introduced_at,
                    discharged_at: Some(self.step_counter),
                    status: ChainStatus::Discharged,
                };
                self.chains.set(i, updated);
                assert(self@.chains =~= before.chains.update(
                    i as int,
                    ChainV { pending: false, discharged_at: Some(before.step), ..before.chains[i as int] },
                ));
                self.log_event(DerivationOp::CheckDischarge { chain_id, requirement, provided: provided.duplicate() });
                return Some(chain_id);
            }
            i = i + 1;
        }
        proof {
            lemma_first_dischargeable(self@.chains, provided@, n as int);
        }
        None
    }

    /// The number of chains still pending.
    pub fn count_pending_chains(&self) -> (r: usize)
        ensures
            r == pending_count(self@.chains),
    {
        let mut count: usize = 0;
        let mut i: usize = 0;
        while i < self.chains.len()
            invariant
                0 <= i <= self.chains@.len(),
                count == pending_count(self@.chains.take(i as int)),
                count <= i,
            decreases self.chains@.len() - i,
        {
            assert(self@.chains.take(i + 1).drop_last() =~= self@.chains.take(i as int));
            assert(self@.chains[i as int] == chain_view(self.chains@[i as int]));
            if self.chains[i].status == ChainStatus::Pending {
                count = count + 1;
            }
            i = i + 1;
        }
        assert(self@.chains.take(self@.chains.len() as int) =~= self@.chains);
        count
    }

    /// The number of chains still pending.
    pub fn pending_chain_count(&self) -> (r: usize)
        ensures
            r == pending_count(self@.chains),
    {
        self.count_pending_chains()
    }

    fn possibly_project(&mut self, from: &FeatureSet) -> (r: Result<(), LambdaError>)
        ensures
            (final(self)@, r) == spec_possibly_project(old(self)@, from@),
    {
        let n = self.expects.len();
        if n == 0 {
            return Ok(());
        }
        let is_projection = match &self.expects[n - 1] {
            Node::Projection { .. } => true,
            _ => false,
        };
        if !is_projection {
            return Ok(());
        }
        let top = self.pop();
        let ignore = match top {
            Some(Node::Projection { ignore }) => ignore,
            _ => {
                proof {
                    assert(false);
                }
                return Ok(());
            },
        };
        let ghost m1 = self@;
        let len = self.expects.len();
        if len == 0 {
            return Ok(());
        }
        let popped = self.pop();
        let mut node = match popped {
            Some(node) => node,
            None => {
                return Ok(());
            },
        };
        let ghost node_before = node@;
        let res = match node.get_features_left_mut() {
            Some(onto) => FeatureSet::project(from, onto, &ignore),
            None => Ok(()),
        };
        let ghost node_after = node@;
        self.push(node);
        assert(self@.expects =~= m1.expects.update(m1.expects.len() - 1, node_after));
        proof {
            assert(node_before == m1.expects.last());
            if left_features(node_before) is None {
                assert(self@.expects =~= m1.expects);
            }
        }
        match res {
            Err(e) => Err(LambdaError::Syntax(e)),
            Ok(()) => Ok(()),
        }
    }

    fn push_lambda_features_inner(&mut self, from: FeatureSet, to: FeatureSet) -> (r: Result<bool, LambdaError>)
        ensures
            (final(self)@, r) == spec_push_lambda_features(old(self)@, from@, to@),
    {
        self.discharge_pending_chain_with(&from);
        if to.is_subset(&from) {
            self.possibly_project(&from)?;
            Ok(false)
        } else {
            let ghost tv = to@;
            self.push_lambda(SyntaxValue::Features(from), Node::from_features(to));
            Ok(true)
        }
    }

    /// Awaits `from` before expecting `to`, having first discharged a chain that `from`
    /// satisfies; when `to` is contained in `from` nothing is awaited, `from` passes up
    /// through a projection marker on top, and the result is `false`.
    pub fn push_lambda_features(&mut self, from: FeatureSet, to: FeatureSet) -> (r: Result<bool, LambdaError>)
        ensures
            (final(self)@, r) == spec_push_lambda_features(old(self)@, from@, to@),
    {
        self.push_lambda_features_inner(from, to)
    }

    fn valid_entry_to_node(&mut self, entry: ValidEntry) -> (r: Result<Node, LambdaError>)
        requires
            old(self)@.next_chain_id < usize::MAX,
        ensures
            ({
                let (m, rv) = spec_entry_to_node(old(self)@, entry@);
                &&& final(self)@ == m
                &&& match rv {
                    Ok(n) => r matches Ok(node) && node@ == n,
                    Err(e) => r == Err::<Node, LambdaError>(e),
                }
            }),
    {
        match entry {
            ValidEntry::Features(fs) => {
                self.discharge_pending_chain_with(&fs);
                Ok(Node::from_features(fs))
            },
            ValidEntry::Moved { from } => {
                self.add_pending_chain(from.duplicate());
                Ok(Node::from_features(from))
            },
            ValidEntry::Lambda { from, to, project: _ } => {
                let ghost fv = (*from)@;
                match *from {
                    ValidEntry::Features(from_fs) => {
                        self.discharge_pending_chain_with(&from_fs);
                        Ok(Node::Lambda {
                            from: SyntaxValue::Features(from_fs),
                            to: Box::new(Node::from_features(to)),
                        })
                    },
                    ValidEntry::Moved { from: moved_need } => {
                        self.add_pending_chain(moved_need.duplicate());
                        Ok(Node::Lambda {
                            from: SyntaxValue::Features(moved_need),
                            to: Box::new(Node::from_features(to)),
                        })
                    },
                    ValidEntry::Lambda { .. } => Err(LambdaError::TypeConversion),
                }
            },
        }
    }

    /// Combines the entry `from` with the expectation `to` that it answers, pushing
    /// what is expected next; the result says whether an expectation was added.
    pub fn push_lexicon_lambda(&mut self, from: ValidEntry, to: Node) -> (r: Result<bool, LambdaError>)
        requires
            old(self)@.next_chain_id < usize::MAX,
        ensures
            (final(self)@, r) == spec_push_lexicon_lambda(old(self)@, from@, to@),
        decreases to,
    {
        let ghost fv = from@;
        let ghost tv = to@;
        match from {
            ValidEntry::Features(f) => match to {
                Node::Value { value } => match value {
                    SyntaxValue::Features(t) => self.push_lambda_features_inner(f, t),
                    SyntaxValue::Item(_) => Err(LambdaError::LambdaToMustBeFeatures),
                },
                Node::Lambda { from: c, to: d } => {
                    let lam = Node::Lambda { from: c, to: d };
                    assert(lam@ == tv);
                    self.discharge_pending_chain_with(&f);
                    self.push_lambda(SyntaxValue::Features(f), lam);
                    Ok(true)
                },
                Node::Projection { .. } => Err(LambdaError::LambdaToMustBeFeatures),
            },
            ValidEntry::Moved { from: f } => match to {
                Node::Value { value: SyntaxValue::Features(t) } => {
                    self.add_pending_chain(f.duplicate());
                    if t.is_subset(&f) {
                        self.possibly_project(&f)?;
                        Ok(false)
                    } else {
                        self.push_lambda(SyntaxValue::Features(f), Node::from_features(t));
                        Ok(true)
                    }
                },
                Node::Lambda { from: c, to: d } => {
                    let lam = Node::Lambda { from: c, to: d };
                    assert(lam@ == tv);
                    self.add_pending_chain(f.duplicate());
                    self.push_lambda(SyntaxValue::Features(f), lam);
                    Ok(true)
                },
                _ => Err(LambdaError::LambdaToMustBeFeatures),
            },
            ValidEntry::Lambda { from: new, to: from_fs, project } => match to {
                Node::Value { value } => {
                    let t = match value {
                        SyntaxValue::Features(t) => t,
                        SyntaxValue::Item(_) => {
                            return Err(LambdaError::LambdaToMustBeFeatures);
                        },
                    };
                    let inserted = self.push_lambda_features_inner(from_fs, t)?;
                    if inserted && project {
                        let ignore = (*new).get_features_right().duplicate();
                        self.push_projection(ignore);
                    }
                    let node = self.valid_entry_to_node(*new)?;
                    self.push(node);
                    Ok(true)
                },
                Node::Lambda { from: c, to: d } => {
                    let ghost dv = (*d)@;
                    let b = ValidEntry::from_features(from_fs);
                    let inserted = self.push_lexicon_lambda(b, *d)?;
                    if inserted && project {
                        let ignore = (*new).get_features_right().duplicate();
                        self.push_projection(ignore);
                    }
                    let a = self.valid_entry_to_node(*new)?;
                    self.push_lambda(c, a);
                    Ok(true)
                },
                Node::Projection { .. } => Err(LambdaError::LambdaToMustBeFeatures),
            },
        }
    }

    /// Takes in the word `token`: the expectation on top now awaits it.
    pub fn receive(&mut self, token: Key) -> (r: Result<(), LambdaError>)
        requires
            old(self)@.step < usize::MAX,
        ensures
            (final(self)@, r) == spec_receive(old(self)@, token),
    {
        self.begin_step();
        self.log_event(DerivationOp::MergeToken { token });
        let to = self.pop_node()?;
        self.push_lambda(SyntaxValue::Item(token), to);
        Ok(())
    }

    /// Applies `entry` to the function on top, which must await what the entry answers.
    pub fn decide(&mut self, entry: LexiconEntry) -> (r: Result<(), LambdaError>)
        requires
            old(self)@.step < usize::MAX,
            old(self)@.next_chain_id < usize::MAX,
        ensures
            (final(self)@, r) == spec_decide(old(self)@, entry@),
    {
        self.begin_step();
        self.log_event(DerivationOp::MergeEntry { entry: entry.duplicate() });
        let target = self.pop_node()?;
        match target {
            Node::Lambda { from: awaited_from, to } => match (awaited_from, entry) {
                (SyntaxValue::Features(from_fs), LexiconEntry::Functional { to: from, project: entry_project }) => {
                    let mut from = ValidEntry::try_from(from)?;
                    if let Some(ignore_fs) = entry_project {
                        let onto_fs = from.get_features_right_mut();
                        let res = FeatureSet::project(&from_fs, onto_fs, &ignore_fs);
                        if let Err(e) = res {
                            return Err(LambdaError::Syntax(e));
                        }
                    }
                    self.push_lexicon_lambda(from, *to)?;
                    Ok(())
                },
                (SyntaxValue::Item(_), LexiconEntry::Lexical(from)) => {
                    let from = ValidEntry::try_from(from)?;
                    self.push_lexicon_lambda(from, *to)?;
                    Ok(())
                },
                _ => Err(LambdaError::QueryAndEntryTypeMismatch),
            },
            _ => Err(LambdaError::ApplyEntryToNonLambda),
        }
    }

    /// Turns on the log of derivation events.
    pub fn enable_trace(&mut self)
        ensures
            final(self)@ == (LambdaV { trace: true, ..old(self)@ }),
    {
        self.trace_enabled = true;
    }

    /// A copy with the same view.
    pub fn duplicate(&self) -> (r: Self)
        ensures
            r@ == self@,
    {
        let mut expects: Vec<Node> = Vec::new();
        let mut i: usize = 0;
        while i < self.expects.len()
            invariant
                0 <= i <= self.expects@.len(),
                expects@.map_values(|n: Node| n@) == self@.expects.take(i as int),
            decreases self.expects@.len() - i,
        {
            assert(self@.expects[i as int] == self.expects@[i as int]@);
            let d = self.expects[i].duplicate();
            let ghost prev = expects@;
            expects.push(d);
            assert(expects@.map_values(|n: Node| n@) =~= prev.map_values(|n: Node| n@).push(self@.expects[i as int]));
            assert(self@.expects.take(i + 1) =~= self@.expects.take(i as int).push(self@.expects[i as int]));
            i = i + 1;
        }
        let mut chains: Vec<MovementChain> = Vec::new();
        let mut j: usize = 0;
        while j < self.chains.len()
            invariant
                0 <= j <= self.chains@.len(),
                chains@.map_values(|c: MovementChain| chain_view(c)) == self@.chains.take(j as int),
            decreases self.chains@.len() - j,
        {
            let c = &self.chains[j];
            assert(self@.chains[j as int] == chain_view(self.chains@[j as int]));
            let nc = MovementChain {
                id: c.id,
                requirement: c.requirement.duplicate(),
                introduced_at: c.introduced_at,
                discharged_at: c.discharged_at,
                status: c.status,
            };
            assert(chain_view(nc) == self@.chains[j as int]);
            let ghost prev = chains@;
            chains.push(nc);
            assert(chains@.map_values(|c: MovementChain| chain_view(c)) =~= prev.map_values(|c: MovementChain| chain_view(c)).push(self@.chains[j as int]));
            assert(self@.chains.take(j + 1) =~= self@.chains.take(j as int).push(self@.chains[j as int]));
            j = j + 1;
        }
        let mut events: Vec<DerivationEvent> = Vec::new();
        let mut k: usize = 0;
        while k < self.derivation_events.len()
            invariant
                0 <= k <= self.derivation_events@.len(),
                events@.map_values(|e: DerivationEvent| event_view(e)) == self@.events.take(k as int),
            decreases self.derivation_events@.len() - k,
        {
            let e = &self.derivation_events[k];
            let op = match &e.op {
                DerivationOp::MergeToken { token } => DerivationOp::MergeToken { token: *token },
                DerivationOp::MergeEntry { entry } => DerivationOp::MergeEntry { entry: entry.duplicate() },
                DerivationOp::MoveIntroduce { chain_id, requirement } => DerivationOp::MoveIntroduce {
                    chain_id: *chain_id,
                    requirement: requirement.duplicate(),
                },
                DerivationOp::CheckDischarge { chain_id, requirement, provided } => DerivationOp::CheckDischarge {
                    chain_id: *chain_id,
                    requirement: requirement.duplicate(),
                    provided: provided.duplicate(),
                },
            };
            assert(self@.events[k as int] == event_view(self.derivation_events@[k as int]));
            let ne = DerivationEvent { step: e.step, op };
            assert(event_view(ne) == self@.events[k as int]);
            let ghost prev = events@;
            events.push(ne);
            assert(events@.map_values(|e: DerivationEvent| event_view(e)) =~= prev.map_values(|e: DerivationEvent| event_view(e)).push(self@.events[k as int]));
            assert(self@.events.take(k + 1) =~= self@.events.take(k as int).push(self@.events[k as int]));
            k = k + 1;
        }
        assert(self@.expects.take(self@.expects.len() as int) =~= self@.expects);
        assert(self@.chains.take(self@.chains.len() as int) =~= self@.chains);
        assert(self@.events.take(self@.events.len() as int) =~= self@.events);
        LambdaModel {
            expects,
            chains,
            next_chain_id: self.next_chain_id,
            step_counter: self.step_counter,
            derivation_events: events,
            trace_enabled: self.trace_enabled,
        }
    }

    /// The requirements of the chains still pending, in the order the chains were introduced.
    fn pending_chain_requirements(&self) -> (r: Vec<&FeatureSet>)
        ensures
            r@.map_values(|f: &FeatureSet| f@) == pending_requirements(self@.chains),
    {
        let mut out: Vec<&FeatureSet> = Vec::new();
        let mut i: usize = 0;
        while i < self.chains.len()
            invariant
                0 <= i <= self.chains@.len(),
                out@.map_values(|f: &FeatureSet| f@) == pending_requirements(self@.chains.take(i as int)),
            decreases self.chains@.len() - i,
        {
            let ghost prev = out@;
            assert(self@.chains.take(i + 1).drop_last() =~= self@.chains.take(i as int));
            assert(self@.chains[i as int] == chain_view(self.chains@[i as int]));
            if self.chains[i].status == ChainStatus::Pending {
                out.push(&self.chains[i].requirement);
                assert(out@.map_values(|f: &FeatureSet| f@) =~= prev.map_values(|f: &FeatureSet| f@).push(self@.chains[i as int].requirement));
            }
            i = i + 1;
        }
        assert(self@.chains.take(self@.chains.len() as int) =~= self@.chains);
        out
    }

    /// Whether two models are in the same state for the search: the same expectations,
    /// and the same requirements pending, in any order.
    pub(crate) fn same_state(&self, other: &LambdaModel) -> (r: bool)
        ensures
            r == same_search_state(self@, other@),
    {
        if self.expects.len() != other.expects.len() {
            assert(self@.expects.len() != other@.expects.len());
            return false;
        }
        let mut i: usize = 0;
        while i < self.expects.len()
            invariant
                self.expects@.len() == other.expects@.len(),
                0 <= i <= self.expects@.len(),
                forall|j: int| 0 <= j < i ==> #[trigger] self@.expects[j] == other@.expects[j],
            decreases self.expects@.len() - i,
        {
            if !self.expects[i].same_as(&other.expects[i]) {
                assert(self@.expects[i as int] != other@.expects[i as int]);
                return false;
            }
            i = i + 1;
        }
        assert(self@.expects =~= other@.expects);
        let mine = self.pending_chain_requirements();
        let mut theirs = other.pending_chain_requirements();
        let ghost mv = mine@.map_values(|f: &FeatureSet| f@);
        let ghost tv0 = theirs@.map_values(|f: &FeatureSet| f@);
        proof {
            broadcast use vstd::multiset::group_multiset_axioms;
            assert(mv.take(0) =~= Seq::<Map<Key, Option<Key>>>::empty());
            lemma_empty_to_multiset(mv.take(0));
            assert(mv.take(0).to_multiset().add(tv0.to_multiset()) =~= tv0.to_multiset());
        }
        if mine.len() != theirs.len() {
            proof {
                mv.to_multiset_ensures();
                tv0.to_multiset_ensures();
            }
            return false;
        }
        let mut a: usize = 0;
        while a < mine.len()
            invariant
                0 <= a <= mine@.len(),
                self@.expects == other@.expects,
                mv == mine@.map_values(|f: &FeatureSet| f@),
                mv == pending_requirements(self@.chains),
                tv0 == pending_requirements(other@.chains),
                mv.take(a as int).to_multiset().add(theirs@.map_values(|f: &FeatureSet| f@).to_multiset()) == tv0.to_multiset(),
                theirs@.len() + a == mine@.len(),
            decreases mine@.len() - a,
        {
            let ghost tv = theirs@.map_values(|f: &FeatureSet| f@);
            let mut found: Option<usize> = None;
            let mut b: usize = 0;
            while b < theirs.len()
                invariant
                    0 <= b <= theirs@.len(),
                    0 <= a < mine@.len(),
                    tv == theirs@.map_values(|f: &FeatureSet| f@),
                    mv == mine@.map_values(|f: &FeatureSet| f@),
                    match found {
                        Some(x) => x < theirs@.len() && tv[x as int] == mv[a as int],
                        None => forall|y: int| 0 <= y < b ==> tv[y] != mv[a as int],
                    },
                decreases theirs@.len() - b,
            {
                if found.is_none() && mine[a].same_as(theirs[b]) {
                    found = Some(b);
                }
                b = b + 1;
            }
            match found {
                None => {
                    proof {
                        lemma_multiset_mismatch(mv, tv0, tv, a as int);
                    }
                    return false;
                },
                Some(x) => {
                    theirs.remove(x);
                    proof {
                        let tv2 = theirs@.map_values(|f: &FeatureSet| f@);
                        assert(tv2 =~= tv.remove(x as int));
                        tv.to_multiset_ensures();
                        lemma_remove_to_multiset(tv, x as int);
                        assert(mv.take(a + 1) =~= mv.take(a as int).push(mv[a as int]));
                        mv.take(a as int).to_multiset_ensures();
                        assert(mv.take(a + 1).to_multiset() =~= mv.take(a as int).to_multiset().insert(mv[a as int]));
                        assert(mv.take(a + 1).to_multiset().add(tv2.to_multiset()) =~= mv.take(a as int).to_multiset().add(tv.to_multiset()));
                    }
                },
            }
            a = a + 1;
        }
        proof {
            assert(mv.take(mv.len() as int) =~= mv);
            let tv = theirs@.map_values(|f: &FeatureSet| f@);
            assert(tv.len() == 0);
            lemma_empty_to_multiset(tv);
            broadcast use vstd::multiset::group_multiset_axioms;
            assert(mv.to_multiset() =~= tv0.to_multiset());
        }
        theirs.len() == 0
    }
}

/// An empty sequence has the empty multiset.
proof fn lemma_empty_to_multiset<A>(s: Seq<A>)
    requires
        s.len() == 0,
    ensures
        s.to_multiset() == vstd::multiset::Multiset::<A>::empty(),
{
    broadcast use vstd::multiset::group_multiset_axioms;
    s.to_multiset_ensures();
    assert(s.to_multiset() =~= vstd::multiset::Multiset::<A>::empty());
}

/// Removing one element of a sequence removes one of it from its multiset.
proof fn lemma_remove_to_multiset<A>(s: Seq<A>, x: int)
    requires
        0 <= x < s.len(),
    ensures
        s.remove(x).to_multiset().insert(s[x]) == s.to_multiset(),
{
    broadcast use vstd::multiset::group_multiset_axioms;
    s.to_multiset_ensures();
    assert(s.contains(s[x]));
    assert(s.remove(x).to_multiset() =~= s.to_multiset().remove(s[x]));
    assert(s.remove(x).to_multiset().insert(s[x]) =~= s.to_multiset());
}

/// An element missing from what is left of `theirs` makes the multisets differ.
proof fn lemma_multiset_mismatch<A>(mv: Seq<A>, tv0: Seq<A>, tv: Seq<A>, a: int)
    requires
        0 <= a < mv.len(),
        mv.take(a).to_multiset().add(tv.to_multiset()) == tv0.to_multiset(),
        forall|y: int| 0 <= y < tv.len() ==> tv[y] != mv[a],
    ensures
        mv.to_multiset() != tv0.to_multiset(),
{
    broadcast use vstd::multiset::group_multiset_axioms;
    let v = mv[a];
    tv.to_multiset_ensures();
    assert(!tv.contains(v));
    assert(tv.to_multiset().count(v) == 0);
    assert(mv =~= mv.take(a) + mv.skip(a));
    vstd::seq_lib::lemma_multiset_commutative(mv.take(a), mv.skip(a));
    mv.skip(a).to_multiset_ensures();
    assert(mv.skip(a)[0] == v);
    assert(mv.skip(a).contains(v));
    assert(mv.skip(a).to_multiset().count(v) > 0);
    assert(mv.to_multiset().count(v) == mv.take(a).to_multiset().count(v) + mv.skip(a).to_multiset().count(v));
    assert(tv0.to_multiset().count(v) == mv.take(a).to_multiset().count(v) + tv.to_multiset().count(v));
}

/// The text of the operation's subject, as bytes.
fn op_detail_bytes(op: &DerivationOp, names: &Interner) -> (r: Vec<u8>)
    ensures
        r@ == op_detail(names@, op_view(*op)),
{
    match op {
        DerivationOp::MergeToken { token } => {
            let mut out = str_bytes("token ");
            let w = key_bytes(names, *token);
            append_bytes(&mut out, w.as_slice());
            out
        },
        DerivationOp::MergeEntry { entry } => {
            let mut out = str_bytes("entry ");
            let w = entry.text_bytes(names);
            append_bytes(&mut out, w.as_slice());
            out
        },
        DerivationOp::MoveIntroduce { chain_id, requirement } => {
            let mut out = str_bytes("CH");
            let d = decimal_bytes(*chain_id);
            append_bytes(&mut out, d.as_slice());
            let mid = str_bytes(" introduced for ");
            append_bytes(&mut out, mid.as_slice());
            let f = requirement.text_bytes(names);
            append_bytes(&mut out, f.as_slice());
            out
        },
        DerivationOp::CheckDischarge { chain_id, requirement, provided } => {
            let mut out = str_bytes("CH");
            let d = decimal_bytes(*chain_id);
            append_bytes(&mut out, d.as_slice());
            let colon = str_bytes(": ");
            append_bytes(&mut out, colon.as_slice());
            let f = requirement.text_bytes(names);
            append_bytes(&mut out, f.as_slice());
            let le = str_bytes(" <= ");
            append_bytes(&mut out, le.as_slice());
            let g = provided.text_bytes(names);
            append_bytes(&mut out, g.as_slice());
            out
        },
    }
}

/// The texts of the requirements of the chains still pending, in the order the
/// chains were introduced.
pub open spec fn pending_texts(t: Seq<Seq<u8>>, chains: Seq<ChainV>) -> Seq<Seq<u8>>
    decreases chains.len(),
{
    if chains.len() == 0 {
        Seq::empty()
    } else if chains.last().pending {
        pending_texts(t, chains.drop_last()).push(fs_text(t, chains.last().requirement))
    } else {
        pending_texts(t, chains.drop_last())
    }
}

/// With a table of valid UTF-8 words, the requirement texts are valid UTF-8.
pub proof fn lemma_pending_texts_valid(t: Seq<Seq<u8>>, chains: Seq<ChainV>)
    requires
        crate::utf8::all_valid(t),
    ensures
        crate::utf8::all_valid(pending_texts(t, chains)),
    decreases chains.len(),
{
    if chains.len() > 0 {
        lemma_pending_texts_valid(t, chains.drop_last());
        if chains.last().pending {
            crate::syntax::render::lemma_fs_text_valid(t, chains.last().requirement);
            crate::utf8::lemma_all_valid_push(pending_texts(t, chains.drop_last()), fs_text(t, chains.last().requirement));
        }
    }
}

proof fn lemma_pending_texts_len(t: Seq<Seq<u8>>, chains: Seq<ChainV>)
    ensures
        pending_texts(t, chains).len() == pending_count(chains),
    decreases chains.len(),
{
    if chains.len() > 0 {
        lemma_pending_texts_len(t, chains.drop_last());
    }
}

proof fn lemma_insert_by_id_len(c: ChainV, s: Seq<ChainV>)
    ensures
        insert_by_id(c, s).len() == s.len() + 1,
    decreases s.len(),
{
    if s.len() > 0 && s.last().id > c.id {
        lemma_insert_by_id_len(c, s.drop_last());
    }
}

impl LambdaModel {
    /// The derivation log, one record per event, in the order the events happened.
    pub fn derivation_step_records(&self, names: &Interner) -> (r: Vec<DerivationStepRecord>)
        requires
            names.wf(),
        ensures
            r@.len() == self@.events.len(),
            forall|i: int| 0 <= i < r@.len() ==> is_step_record(names@, #[trigger] self@.events[i], r@[i]),
    {
        let mut out: Vec<DerivationStepRecord> = Vec::new();
        let mut i: usize = 0;
        while i < self.derivation_events.len()
            invariant
                0 <= i <= self.derivation_events@.len(),
                out@.len() == i,
                names.wf(),
                forall|k: int| 0 <= k < i ==> is_step_record(names@, #[trigger] self@.events[k], out@[k]),
            decreases self.derivation_events@.len() - i,
        {
            let e = &self.derivation_events[i];
            assert(self@.events[i as int] == event_view(*e));
            let operation = match &e.op {
                DerivationOp::MergeToken { .. } => "merge".to_owned(),
                DerivationOp::MergeEntry { .. } => "merge".to_owned(),
                DerivationOp::MoveIntroduce { .. } => "move".to_owned(),
                DerivationOp::CheckDischarge { .. } => "check".to_owned(),
            };
            proof {
                super::records::lemma_op_detail_valid(names@, event_view(*e).op);
            }
            let detail = bytes_to_string(op_detail_bytes(&e.op, names));
            let rec = DerivationStepRecord { step: e.step, operation, detail };
            assert(is_step_record(names@, self@.events[i as int], rec));
            out.push(rec);
            i = i + 1;
        }
        out
    }

    /// The movement chains, one record each, ordered by chain id.
    pub fn chain_lifecycle_records(&self, names: &Interner) -> (r: Vec<ChainLifecycleRecord>)
        requires
            names.wf(),
        ensures
            r@.len() == self@.chains.len(),
            sort_by_id(self@.chains).len() == self@.chains.len(),
            forall|i: int| 0 <= i < r@.len() ==> is_chain_record(names@, #[trigger] sort_by_id(self@.chains)[i], r@[i]),
    {
        let mut out: Vec<ChainLifecycleRecord> = Vec::new();
        let ghost mut g: Seq<ChainV> = Seq::empty();
        let mut i: usize = 0;
        assert(self@.chains.take(0) =~= Seq::<ChainV>::empty());
        while i < self.chains.len()
            invariant
                0 <= i <= self.chains@.len(),
                g == sort_by_id(self@.chains.take(i as int)),
                g.len() == i,
                names.wf(),
                out@.len() == g.len(),
                forall|k: int| 0 <= k < g.len() ==> is_chain_record(names@, #[trigger] g[k], out@[k]),
            decreases self.chains@.len() - i,
        {
            let c = &self.chains[i];
            let ghost cv = chain_view(*c);
            assert(self@.chains[i as int] == cv);
            let status = match c.status {
                ChainStatus::Pending => "pending".to_owned(),
                ChainStatus::Discharged => "discharged".to_owned(),
            };
            proof {
                crate::syntax::render::lemma_fs_text_valid(names@, cv.requirement);
            }
            let rec = ChainLifecycleRecord {
                chain_id: c.id,
                requirement: bytes_to_string(c.requirement.text_bytes(names)),
                introduced_at: c.introduced_at,
                discharged_at: c.discharged_at,
                status,
            };
            assert(is_chain_record(names@, cv, rec));
            let mut pos: usize = out.len();
            while pos > 0 && out[pos - 1].chain_id > c.id
                invariant
                    0 <= pos <= out@.len(),
                    out@.len() == g.len(),
                    forall|k: int| 0 <= k < g.len() ==> is_chain_record(names@, #[trigger] g[k], out@[k]),
                    forall|k: int| pos <= k < g.len() ==> #[trigger] g[k].id > cv.id,
                    cv.id == c.id,
                decreases pos,
            {
                assert(is_chain_record(names@, g[pos - 1], out@[pos - 1]));
                pos = pos - 1;
            }
            if pos > 0 {
                assert(is_chain_record(names@, g[pos - 1], out@[pos - 1]));
            }
            let ghost before = out@;
            out.insert(pos, rec);
            proof {
                lemma_insert_by_id_at(cv, g, pos as int);
                let t1 = self@.chains.take(i + 1);
                assert(t1.drop_last() =~= self@.chains.take(i as int));
                assert(t1.last() == cv);
                let g2 = g.insert(pos as int, cv);
                assert forall|k: int| 0 <= k < g2.len() implies is_chain_record(names@, #[trigger] g2[k], out@[k]) by {
                    if k < pos {
                        assert(g2[k] == g[k] && out@[k] == before[k]);
                    } else if k > pos {
                        assert(g2[k] == g[k - 1] && out@[k] == before[k - 1]);
                    }
                }
                g = g2;
            }
            i = i + 1;
        }
        assert(self@.chains.take(self@.chains.len() as int) =~= self@.chains);
        out
    }

    /// The requirements of the chains still pending, as text, in byte-wise order.
    pub fn unresolved_chain_requirements(&self, names: &Interner) -> (r: Vec<String>)
        requires
            names.wf(),
        ensures
            r@.len() == pending_count(self@.chains),
            pending_texts(names@, self@.chains).sort_by(bytes_order()).len() == r@.len(),
            forall|i: int|
                0 <= i < r@.len() ==> r@[i]@ == vstd::utf8::decode_utf8(
                    #[trigger] pending_texts(names@, self@.chains).sort_by(bytes_order())[i],
                ),
    {
        let mut texts: Vec<Vec<u8>> = Vec::new();
        let mut i: usize = 0;
        assert(self@.chains.take(0) =~= Seq::<ChainV>::empty());
        while i < self.chains.len()
            invariant
                0 <= i <= self.chains@.len(),
                byte_views(texts@) == pending_texts(names@, self@.chains.take(i as int)),
            decreases self.chains@.len() - i,
        {
            let c = &self.chains[i];
            assert(self@.chains[i as int] == chain_view(*c));
            let t1 = Ghost(self@.chains.take(i + 1));
            assert(t1@.drop_last() =~= self@.chains.take(i as int));
            if c.status == ChainStatus::Pending {
                let w = c.requirement.text_bytes(names);
                let ghost prev = byte_views(texts@);
                texts.push(w);
                assert(byte_views(texts@) =~= prev.push(w@));
            }
            i = i + 1;
        }
        assert(self@.chains.take(self@.chains.len() as int) =~= self@.chains);
        let sorted = sort_texts(texts);
        let ghost want = pending_texts(names@, self@.chains).sort_by(bytes_order());
        proof {
            broadcast use vstd::seq_lib::group_to_multiset_ensures;
            lemma_pending_texts_len(names@, self@.chains);
            crate::text::lemma_bytes_order_total();
            pending_texts(names@, self@.chains).lemma_sort_by_ensures(bytes_order());
            assert(want.to_multiset().len() == pending_texts(names@, self@.chains).to_multiset().len());
            lemma_pending_texts_valid(names@, self@.chains);
            crate::utf8::lemma_sorted_valid(pending_texts(names@, self@.chains));
        }
        let mut out: Vec<String> = Vec::new();
        let mut j: usize = 0;
        while j < sorted.len()
            invariant
                0 <= j <= sorted@.len(),
                byte_views(sorted@) == want,
                out@.len() == j,
                crate::utf8::all_valid(want),
                forall|k: int| 0 <= k < j ==> out@[k]@ == vstd::utf8::decode_utf8(#[trigger] want[k]),
            decreases sorted@.len() - j,
        {
            let w = crate::text::copy_bytes(sorted[j].as_slice());
            assert(w@ == want[j as int]);
            assert(vstd::utf8::valid_utf8(want[j as int]));
            out.push(bytes_to_string(w));
            j = j + 1;
        }
        out
    }
}


/// The texts of the expectations, top first.
pub open spec fn expects_texts(t: Seq<Seq<u8>>, expects: Seq<NodeV>) -> Seq<Seq<u8>> {
    Seq::new(expects.len(), |i: int| node_text(t, expects[expects.len() - 1 - i]))
}

/// The text of a model: its expectations, top first, joined by `, `; then, when
/// chains are pending, ` | pending: ` and their requirements in byte-wise order
/// joined by ` || `.
pub open spec fn model_text(t: Seq<Seq<u8>>, m: LambdaV) -> Seq<u8> {
    let formatted = join_sep(expects_texts(t, m.expects), ", ".spec_bytes());
    let pending = pending_texts(t, m.chains).sort_by(bytes_order());
    if pending.len() == 0 {
        formatted
    } else {
        formatted + " | pending: ".spec_bytes() + join_sep(pending, " || ".spec_bytes())
    }
}

/// With a table of valid UTF-8 words, the text of a model is valid UTF-8.
pub proof fn lemma_model_text_valid(t: Seq<Seq<u8>>, m: LambdaV)
    requires
        crate::utf8::all_valid(t),
    ensures
        vstd::utf8::valid_utf8(model_text(t, m)),
{
    let et = expects_texts(t, m.expects);
    assert forall|i: int| 0 <= i < et.len() implies vstd::utf8::valid_utf8(#[trigger] et[i]) by {
        super::render::lemma_node_text_valid(t, m.expects[m.expects.len() - 1 - i]);
    }
    crate::utf8::lemma_str_valid(", ");
    crate::utf8::lemma_join_valid(et, ", ".spec_bytes());
    lemma_pending_texts_valid(t, m.chains);
    crate::utf8::lemma_sorted_valid(pending_texts(t, m.chains));
    crate::utf8::lemma_str_valid(" || ");
    crate::utf8::lemma_join_valid(pending_texts(t, m.chains).sort_by(bytes_order()), " || ".spec_bytes());
    crate::utf8::lemma_str_valid(" | pending: ");
    crate::utf8::lemma_concat3(
        join_sep(et, ", ".spec_bytes()),
        " | pending: ".spec_bytes(),
        join_sep(pending_texts(t, m.chains).sort_by(bytes_order()), " || ".spec_bytes()),
    );
}

impl LambdaModel {
    /// The text of the model, as bytes (see `model_text`).
    pub fn text_bytes(&self, names: &Interner) -> (r: Vec<u8>)
        ensures
            r@ == model_text(names@, self@),
    {
        let mut texts: Vec<Vec<u8>> = Vec::new();
        let n = self.expects.len();
        let mut i: usize = 0;
        while i < n
            invariant
                n == self.expects@.len(),
                0 <= i <= n,
                byte_views(texts@) == expects_texts(names@, self@.expects).take(i as int),
            decreases n - i,
        {
            let e = &self.expects[n - 1 - i];
            assert(self@.expects[n - 1 - i] == e@);
            let w = e.text_bytes(names);
            let ghost prev = byte_views(texts@);
            texts.push(w);
            assert(expects_texts(names@, self@.expects)[i as int] == node_text(names@, self@.expects[n - 1 - i]));
            assert(byte_views(texts@) =~= prev.push(w@));
            assert(expects_texts(names@, self@.expects).take(i + 1) =~= expects_texts(names@, self@.expects).take(i as int).push(w@));
            i = i + 1;
        }
        assert(expects_texts(names@, self@.expects).take(n as int) =~= expects_texts(names@, self@.expects));
        let comma = str_bytes(", ");
        let mut out = join_with(&texts, comma.as_slice());
        let mut pending: Vec<Vec<u8>> = Vec::new();
        let mut j: usize = 0;
        assert(self@.chains.take(0) =~= Seq::<ChainV>::empty());
        while j < self.chains.len()
            invariant
                0 <= j <= self.chains@.len(),
                byte_views(pending@) == pending_texts(names@, self@.chains.take(j as int)),
            decreases self.chains@.len() - j,
        {
            let c = &self.chains[j];
            assert(self@.chains[j as int] == chain_view(*c));
            assert(self@.chains.take(j + 1).drop_last() =~= self@.chains.take(j as int));
            if c.status == ChainStatus::Pending {
                let w = c.requirement.text_bytes(names);
                let ghost prev = byte_views(pending@);
                pending.push(w);
                assert(byte_views(pending@) =~= prev.push(w@));
            }
            j = j + 1;
        }
        assert(self@.chains.take(self@.chains.len() as int) =~= self@.chains);
        let sorted = sort_texts(pending);
        if sorted.len() > 0 {
            let sep = str_bytes(" | pending: ");
            append_bytes(&mut out, sep.as_slice());
            let bars = str_bytes(" || ");
            let joined = join_with(&sorted, bars.as_slice());
            append_bytes(&mut out, joined.as_slice());
        }
        out
    }

    /// The text of the model (see `model_text`).
    pub fn to_text(&self, names: &Interner) -> (r: String)
        requires
            names.wf(),
        ensures
            r@ == vstd::utf8::decode_utf8(model_text(names@, self@)),
    {
        proof {
            lemma_model_text_valid(names@, self@);
        }
        bytes_to_string(self.text_bytes(names))
    }
}

} // verus!
