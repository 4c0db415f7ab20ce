use super::action::{actions_view, Action, ActionV};
use super::follow::{category, label_key_of, lambda_step, replay_lambda};
use crate::interner::key_or_next;
use super::interpret::derives;
use crate::cognitive::lambda::chain_laws::law_decide_keeps_discharged_chains;
use crate::cognitive::lambda::laws::{lemma_decide_expects, lemma_receive_expects};
use crate::cognitive::lambda::model::{pending_count, pending_texts, spec_decide, spec_init, spec_receive, LambdaV};
use crate::lexicon::EntryV;
use crate::cognitive::lambda::records::{is_chain_record, is_step_record, sort_by_id};
use crate::cognitive::lambda::{ChainLifecycleRecord, DerivationStepRecord};
use crate::cognitive::LambdaModel;
use crate::error::InterpretError;
use crate::interner::Interner;
use crate::syntax::render::{bytes_to_string, key_bytes, key_text};
use crate::syntax::{FeatureSet, Key, ValueV};
use crate::text::bytes_order;
use vstd::prelude::*;
use vstd::string::StringSliceAdditionalSpecFns;

verus! {

/// The record of one derivation: the sentence and target, which parse it is, the
/// words taken in, the log of the derivation, the life of each movement chain,
/// whether it is well formed, and the requirements of the chains left pending.
#[derive(Debug, Clone, PartialEq, Eq)]
pub struct DerivationArtifact {
    pub sentence: String,
    pub target: String,
    pub parse_index: usize,
    pub tokens: Vec<String>,
    pub derivation_steps: Vec<DerivationStepRecord>,
    pub chain_events: Vec<ChainLifecycleRecord>,
    pub well_formed: bool,
    pub unresolved_chains: Vec<String>,
}

/// The words that `acts` takes in, in order.
pub open spec fn added_tokens(acts: Seq<ActionV>) -> Seq<Key>
    decreases acts.len(),
{
    if acts.len() == 0 {
        Seq::empty()
    } else {
        match acts.last() {
            ActionV::AddToken(k) => added_tokens(acts.drop_last()).push(k),
            ActionV::ApplyEntry(_) => added_tokens(acts.drop_last()),
        }
    }
}

/// The model that expects the category `k`, with its log turned on.
pub open spec fn traced_init(k: Key) -> LambdaV {
    LambdaV { trace: true, ..spec_init(category(k)) }
}

/// `a` records the replay of `acts` that ended in the model `m`.
pub open spec fn is_artifact_of(
    t: Seq<Seq<u8>>,
    sentence: Seq<char>,
    target: Seq<char>,
    parse_index: usize,
    acts: Seq<ActionV>,
    m: LambdaV,
    a: DerivationArtifact,
) -> bool {
    &&& a.sentence@ == sentence
    &&& a.target@ == target
    &&& a.parse_index == parse_index
    &&& a.tokens@.len() == added_tokens(acts).len()
    &&& forall|i: int|
        0 <= i < a.tokens@.len() ==> a.tokens@[i]@ == vstd::utf8::decode_utf8(key_text(t, #[trigger] added_tokens(acts)[i]))
    &&& a.derivation_steps@.len() == m.events.len()
    &&& forall|i: int| 0 <= i < m.events.len() ==> is_step_record(t, #[trigger] m.events[i], a.derivation_steps@[i])
    &&& a.chain_events@.len() == m.chains.len()
    &&& sort_by_id(m.chains).len() == m.chains.len()
    &&& forall|i: int|
        0 <= i < m.chains.len() ==> is_chain_record(t, #[trigger] sort_by_id(m.chains)[i], a.chain_events@[i])
    &&& a.unresolved_chains@.len() == pending_count(m.chains)
    &&& pending_texts(t, m.chains).sort_by(bytes_order()).len() == pending_count(m.chains)
    &&& forall|i: int|
        0 <= i < a.unresolved_chains@.len() ==> a.unresolved_chains@[i]@ == vstd::utf8::decode_utf8(
            #[trigger] pending_texts(t, m.chains).sort_by(bytes_order())[i],
        )
    &&& a.well_formed == (m.expects.len() == 0 && pending_count(m.chains) == 0)
}

/// Replays the derivation `actions` of `sentence` as a `target` on a lambda model
/// with its log on, and records it (see `is_artifact_of`); the first failing step
/// of the replay is the error.
pub fn build_derivation_artifact(
    names: &Interner,
    sentence: &str,
    target: &str,
    parse_index: usize,
    actions: &Vec<Action>,
) -> (r: Result<DerivationArtifact, InterpretError>)
    requires
        names.wf(),
    ensures
        match replay_lambda(traced_init(key_or_next(names@, target.spec_bytes())), actions_view(actions@)) {
            Ok(m) => r matches Ok(a) && is_artifact_of(
                names@,
                sentence@,
                target@,
                parse_index,
                actions_view(actions@),
                m,
                a,
            ),
            Err(e) => r == Err::<DerivationArtifact, InterpretError>(e),
        },
{
    let key = label_key_of(names, target);
    let mut model = LambdaModel::init(FeatureSet::from_category(key));
    model.enable_trace();
    let ghost acts = actions_view(actions@);
    let ghost want = replay_lambda(traced_init(key), acts);
    assert(acts.skip(0) =~= acts);
    assert(acts.take(0) =~= Seq::<ActionV>::empty());
    let mut tokens: Vec<String> = Vec::new();
    let mut i: usize = 0;
    while i < actions.len()
        invariant
            0 <= i <= actions@.len(),
            acts == actions_view(actions@),
            key == key_or_next(names@, target.spec_bytes()),
            want == replay_lambda(traced_init(key), acts),
            replay_lambda(model@, acts.skip(i as int)) == want,
            tokens@.len() == added_tokens(acts.take(i as int)).len(),
            names.wf(),
            forall|k: int|
                0 <= k < tokens@.len() ==> tokens@[k]@ == vstd::utf8::decode_utf8(
                    key_text(names@, #[trigger] added_tokens(acts.take(i as int))[k]),
                ),
        decreases actions@.len() - i,
    {
        assert(acts.skip(i as int)[0] == actions@[i as int]@);
        assert(acts.skip(i as int).drop_first() =~= acts.skip(i + 1));
        assert(acts.take(i + 1).drop_last() =~= acts.take(i as int));
        assert(acts.take(i + 1).last() == actions@[i as int]@);
        let ghost before = model@;
        match &actions[i] {
            Action::AddToken(token) => {
                proof {
                    crate::syntax::render::lemma_key_text_valid(names@, *token);
                }
                let w = bytes_to_string(key_bytes(names, *token));
                tokens.push(w);
                if model.step_count() == usize::MAX {
                    return Err(InterpretError::CounterLimit);
                }
                if let Err(e) = model.receive(*token) {
                    return Err(InterpretError::Lambda(e));
                }
            },
            Action::ApplyEntry(entry) => {
                if model.step_count() == usize::MAX || model.next_chain_id() == usize::MAX {
                    return Err(InterpretError::CounterLimit);
                }
                if let Err(e) = model.decide(entry.duplicate()) {
                    return Err(InterpretError::Lambda(e));
                }
            },
        }
        assert(lambda_step(before, actions@[i as int]@) == Ok::<LambdaV, InterpretError>(model@));
        i = i + 1;
    }
    assert(acts.skip(actions@.len() as int) =~= Seq::<ActionV>::empty());
    assert(acts.take(actions@.len() as int) =~= acts);
    let unresolved_chains = model.unresolved_chain_requirements(names);
    let derivation_steps = model.derivation_step_records(names);
    let chain_events = model.chain_lifecycle_records(names);
    let well_formed = model.understood() && unresolved_chains.len() == 0;
    Ok(DerivationArtifact {
        sentence: sentence.to_owned(),
        target: target.to_owned(),
        parse_index,
        tokens,
        derivation_steps,
        chain_events,
        well_formed,
        unresolved_chains,
    })
}

/// The replay of a derivation from `m` on a model `m1` with the same expectations
/// succeeds and ends with nothing expected, while the counters have room.
proof fn lemma_derivation_replays(
    lex: Seq<(ValueV, EntryV)>,
    m: LambdaV,
    m1: LambdaV,
    toks: Seq<Option<Key>>,
    acts: Seq<ActionV>,
)
    requires
        derives(lex, m, toks, acts),
        m1.expects == m.expects,
        m1.step + acts.len() < usize::MAX,
        m1.next_chain_id + acts.len() < usize::MAX,
    ensures
        replay_lambda(m1, acts) matches Ok(end) && end.expects.len() == 0,
    decreases acts.len(),
{
    if acts.len() > 0 {
        match acts[0] {
            ActionV::AddToken(k) => {
                lemma_receive_expects(m, m1, k);
                lemma_derivation_replays(lex, spec_receive(m, k).0, spec_receive(m1, k).0, toks.drop_first(), acts.drop_first());
            },
            ActionV::ApplyEntry(e) => {
                lemma_decide_expects(m, m1, e);
                law_decide_keeps_discharged_chains(m1, e);
                lemma_derivation_replays(lex, spec_decide(m, e).0, spec_decide(m1, e).0, toks, acts.drop_first());
            },
        }
    }
}

/// A derivation that the search accepts replays without error on a traced model of
/// its target, and the replay ends with nothing expected; so its artifact is well
/// formed exactly when no movement chain is left pending.
pub proof fn law_found_derivation_replays(lex: Seq<(ValueV, EntryV)>, target: Key, toks: Seq<Option<Key>>, acts: Seq<ActionV>)
    requires
        derives(lex, spec_init(category(target)), toks, acts),
        acts.len() + 1 < usize::MAX,
    ensures
        replay_lambda(traced_init(target), acts) matches Ok(end) && end.expects.len() == 0,
{
    lemma_derivation_replays(lex, spec_init(category(target)), traced_init(target), toks, acts);
}

} // verus!
