use super::action::{actions_view, prepend, Action, ActionV};
use super::normalize::{normalize_english_questions_for_legacy_grammar, normalized_question};
use crate::cognitive::lambda::laws::{lemma_decide_expects, lemma_receive_expects};
use crate::cognitive::lambda::model::{same_search_state, spec_decide, spec_init, spec_receive, LambdaV};
use crate::cognitive::lambda::chain_laws::{law_decide_keeps_discharged_chains, law_receive_keeps_chains};
use super::runs::{act_step, cycle_free, run, run_states, same_place, simple_runs_for, states_distinct, lemma_back_edge_loops, lemma_cycle_free_expects, lemma_cycle_free_step, lemma_reaches_self, lemma_reaches_step, reaches};
use crate::cognitive::lambda::node::NodeV;
use crate::cognitive::LambdaModel;
use crate::dialect::Dialect;
use crate::error::InterpretError;
use crate::interner::{key_of, Interner};
use crate::lexicon::entry::{answers_distinct, entries_for};
use crate::lexicon::{EntryV, SimpleLexicon};
use crate::syntax::{FeatureSet, Key, ValueV};
use crate::text::{bytes_equal, str_bytes};
use crate::tokenizer::{tokenize, tokens, views};
use vstd::prelude::*;
use vstd::string::StringSliceAdditionalSpecFns;

verus! {

/// The model can take in a word: something other than a projection marker is on top.
pub open spec fn spec_demand(m: LambdaV) -> bool {
    m.expects.len() > 0 && !(m.expects.last() is Projection)
}

/// What the function on top awaits, if a function is on top.
pub open spec fn spec_wonder(m: LambdaV) -> Option<ValueV> {
    if m.expects.len() > 0 {
        match m.expects.last() {
            NodeV::Lambda(f, _) => Some(f),
            _ => None,
        }
    } else {
        None
    }
}

/// `acts` is a derivation from `m` over the words `toks` with the rules `lex`: each
/// word is taken in, in order, when the model can take in a word; each rule applied is
/// one of those that answer what the function on top awaits; no step fails; and at the
/// end every word is taken in and nothing more is expected.
pub open spec fn derives(lex: Seq<(ValueV, EntryV)>, m: LambdaV, toks: Seq<Option<Key>>, acts: Seq<ActionV>) -> bool
    decreases acts.len(),
{
    if acts.len() == 0 {
        toks.len() == 0 && m.expects.len() == 0
    } else {
        match acts[0] {
            ActionV::AddToken(k) => {
                &&& toks.len() > 0
                &&& toks[0] == Some(k)
                &&& spec_demand(m)
                &&& spec_receive(m, k).1 is Ok
                &&& derives(lex, spec_receive(m, k).0, toks.drop_first(), acts.drop_first())
            },
            ActionV::ApplyEntry(e) => {
                &&& spec_wonder(m) is Some
                &&& entries_for(lex, spec_wonder(m)->Some_0).contains(e)
                &&& spec_decide(m, e).1 is Ok
                &&& derives(lex, spec_decide(m, e).0, toks, acts.drop_first())
            },
        }
    }
}

/// A derivation depends on the expectations of the model alone.
pub proof fn lemma_derives_expects(lex: Seq<(ValueV, EntryV)>, m1: LambdaV, m2: LambdaV, toks: Seq<Option<Key>>, acts: Seq<ActionV>)
    requires
        m1.expects == m2.expects,
        derives(lex, m1, toks, acts),
    ensures
        derives(lex, m2, toks, acts),
    decreases acts.len(),
{
    if acts.len() > 0 {
        match acts[0] {
            ActionV::AddToken(k) => {
                lemma_receive_expects(m1, m2, k);
                lemma_derives_expects(lex, spec_receive(m1, k).0, spec_receive(m2, k).0, toks.drop_first(), acts.drop_first());
            },
            ActionV::ApplyEntry(e) => {
                lemma_decide_expects(m1, m2, e);
                lemma_derives_expects(lex, spec_decide(m1, e).0, spec_decide(m2, e).0, toks, acts.drop_first());
            },
        }
    }
}

/// The symbols of the words of `text` in the table `t`; a word the table lacks has none.
pub open spec fn token_keys(t: Seq<Seq<u8>>, text: Seq<u8>) -> Seq<Option<Key>> {
    tokens(text).map_values(|w: Seq<u8>| key_of(t, w))
}

/// A remembered search state: the results found from `model` at word `offset`.
struct MemoEntry {
    offset: usize,
    model: LambdaModel,
    results: Vec<Vec<Action>>,
}

/// The model that a search for category `t` starts from.
pub open spec fn target_init(t: Key) -> LambdaV {
    spec_init(Map::<Key, Option<Key>>::empty().insert(t, None))
}

/// A search for category `t` over `toks` gives `rv`: every member is a derivation of
/// the words; where the lexicon answers each value with distinct entries, none occurs
/// twice; and where no loop can be reached from the start, every derivation is there.
pub open spec fn search_outcome(lex: Seq<(ValueV, EntryV)>, t: Key, toks: Seq<Option<Key>>, rv: Seq<Seq<ActionV>>) -> bool {
    &&& forall|i: int| 0 <= i < rv.len() ==> derives(lex, target_init(t), toks, #[trigger] rv[i])
    &&& holds_all_derivations(lex, target_init(t), toks, rv)
    &&& answers_distinct(lex) ==> no_repeats(rv)
    &&& answers_distinct(lex) ==> in_search_order(lex, toks, 0, target_init(t), rv)
}

/// The search for category `t` over `toks` may give up only where some run of actions
/// from the start, passing no state twice, is as long as the bound on the search.
pub open spec fn too_deep(lex: Seq<(ValueV, EntryV)>, t: Key, toks: Seq<Option<Key>>) -> bool {
    simple_runs_for(lex, toks, 0, target_init(t), SEARCH_DEPTH as nat)
}

/// The derivations of a search result, or its error.
pub open spec fn outcome_view(r: Result<Vec<Vec<Action>>, InterpretError>) -> Result<Seq<Seq<ActionV>>, InterpretError> {
    match r {
        Ok(rs) => Ok(results_view(rs@)),
        Err(e) => Err(e),
    }
}

/// What a search for the category with key `key` over `toks` may give: it gives up
/// only where the bound is reached; it finds nothing for an unknown category; otherwise
/// it gives a search outcome.
pub open spec fn search_gives(
    lex: Seq<(ValueV, EntryV)>,
    key: Option<Key>,
    toks: Seq<Option<Key>>,
    o: Result<Seq<Seq<ActionV>>, InterpretError>,
) -> bool {
    match o {
        Err(e) => e == InterpretError::SearchTooDeep && key is Some && too_deep(lex, key->Some_0, toks),
        Ok(v) => match key {
            Some(t) => search_outcome(lex, t, toks, v),
            None => v.len() == 0,
        },
    }
}

/// The rewritten question searched first: for an English sentence, the declarative
/// order of a question, where it differs from the text.
pub open spec fn rewritten(name: Seq<u8>, label: Seq<u8>, text: Seq<u8>) -> Option<Seq<u8>> {
    if name == "English".spec_bytes() && label == "Sentence".spec_bytes() {
        match normalized_question(text) {
            Some(n) => if n != text { Some(n) } else { None },
            None => None,
        }
    } else {
        None
    }
}

/// Where no loop can be reached from `m` at the first word, `rv` holds every
/// derivation of `toks` from `m`.
pub open spec fn holds_all_derivations(lex: Seq<(ValueV, EntryV)>, m: LambdaV, toks: Seq<Option<Key>>, rv: Seq<Seq<ActionV>>) -> bool {
    cycle_free(lex, toks, 0, m) ==> forall|d: Seq<ActionV>| #[trigger] derives(lex, m, toks, d) ==> rv.contains(d)
}

/// The place of the first `x` in `es`, or the length of `es` when it holds none.
pub open spec fn rank_in(es: Seq<EntryV>, x: EntryV) -> int
    decreases es.len(),
{
    if es.len() == 0 {
        0
    } else if es[0] == x {
        0
    } else {
        1 + rank_in(es.drop_first(), x)
    }
}

/// At model `m`, the search tries `a1` before `a2`: it takes in a word before it
/// applies an entry, and applies the entries that answer what the function on top
/// awaits in the order of the lexicon's rules.
pub open spec fn action_before(lex: Seq<(ValueV, EntryV)>, m: LambdaV, a1: ActionV, a2: ActionV) -> bool {
    match (a1, a2) {
        (ActionV::AddToken(_), ActionV::ApplyEntry(_)) => true,
        (ActionV::ApplyEntry(x), ActionV::ApplyEntry(y)) => spec_wonder(m) matches Some(v)
            && rank_in(entries_for(lex, v), x) < rank_in(entries_for(lex, v), y),
        _ => false,
    }
}

/// From word `o` in model `m`, the derivation `d1` comes before `d2`: at the first
/// action where they part, the action of `d1` is tried first.
pub open spec fn deriv_before(lex: Seq<(ValueV, EntryV)>, toks: Seq<Option<Key>>, o: int, m: LambdaV, d1: Seq<ActionV>, d2: Seq<ActionV>) -> bool
    decreases d1.len(),
{
    if d1.len() == 0 || d2.len() == 0 {
        false
    } else if d1[0] == d2[0] {
        match act_step(lex, toks, o, m, d1[0]) {
            Some((o1, m1)) => deriv_before(lex, toks, o1, m1, d1.drop_first(), d2.drop_first()),
            None => false,
        }
    } else {
        action_before(lex, m, d1[0], d2[0])
    }
}

/// The derivations `rv` from word `o` in model `m` come in the order the search tries them.
pub open spec fn in_search_order(lex: Seq<(ValueV, EntryV)>, toks: Seq<Option<Key>>, o: int, m: LambdaV, rv: Seq<Seq<ActionV>>) -> bool {
    forall|i: int, j: int| 0 <= i < j < rv.len() ==> deriv_before(lex, toks, o, m, #[trigger] rv[i], #[trigger] rv[j])
}

/// The order of derivations depends on the expectations of the model alone.
proof fn lemma_before_expects(lex: Seq<(ValueV, EntryV)>, toks: Seq<Option<Key>>, o: int, m1: LambdaV, m2: LambdaV, d1: Seq<ActionV>, d2: Seq<ActionV>)
    requires
        m1.expects == m2.expects,
    ensures
        deriv_before(lex, toks, o, m1, d1, d2) == deriv_before(lex, toks, o, m2, d1, d2),
    decreases d1.len(),
{
    if d1.len() > 0 && d2.len() > 0 && d1[0] == d2[0] {
        match d1[0] {
            ActionV::AddToken(k) => {
                lemma_receive_expects(m1, m2, k);
                lemma_before_expects(lex, toks, o + 1, spec_receive(m1, k).0, spec_receive(m2, k).0, d1.drop_first(), d2.drop_first());
            },
            ActionV::ApplyEntry(e) => {
                lemma_decide_expects(m1, m2, e);
                lemma_before_expects(lex, toks, o, spec_decide(m1, e).0, spec_decide(m2, e).0, d1.drop_first(), d2.drop_first());
            },
        }
    }
}

/// In a list without repeats, an element's rank is its place.
proof fn lemma_rank_in(es: Seq<EntryV>, k: int)
    requires
        es.no_duplicates(),
        0 <= k < es.len(),
    ensures
        rank_in(es, es[k]) == k,
    decreases es.len(),
{
    if k > 0 {
        assert(es[0] != es[k]);
        assert(es.drop_first().no_duplicates());
        assert(es.drop_first()[k - 1] == es[k]);
        lemma_rank_in(es.drop_first(), k - 1);
    }
}

/// Putting one action before derivations in search order, after derivations tried
/// before that action, keeps the search order.
proof fn lemma_extended_in_order(
    lex: Seq<(ValueV, EntryV)>,
    toks: Seq<Option<Key>>,
    o: int,
    m: LambdaV,
    rv: Seq<Seq<ActionV>>,
    a: ActionV,
    o1: int,
    m1: LambdaV,
    sfx: Seq<Seq<ActionV>>,
    j: int,
)
    requires
        0 <= j <= sfx.len(),
        act_step(lex, toks, o, m, a) == Some((o1, m1)),
        in_search_order(lex, toks, o, m, rv),
        in_search_order(lex, toks, o1, m1, sfx),
        forall|r: int| 0 <= r < rv.len() ==> #[trigger] rv[r].len() > 0 && rv[r][0] != a && action_before(lex, m, rv[r][0], a),
    ensures
        in_search_order(lex, toks, o, m, extended(rv, a, sfx, j)),
{
    let x = extended(rv, a, sfx, j);
    assert forall|p: int, q: int| 0 <= p < q < x.len() implies deriv_before(lex, toks, o, m, #[trigger] x[p], #[trigger] x[q]) by {
        if q >= rv.len() {
            assert(x[q] == seq![a] + sfx[q - rv.len()]);
            assert(x[q][0] == a);
            if p >= rv.len() {
                assert(x[p] == seq![a] + sfx[p - rv.len()]);
                assert(x[p].drop_first() =~= sfx[p - rv.len()]);
                assert(x[q].drop_first() =~= sfx[q - rv.len()]);
                assert(deriv_before(lex, toks, o1, m1, sfx[p - rv.len()], sfx[q - rv.len()]));
            } else {
                assert(x[p] == rv[p]);
            }
        } else {
            assert(x[p] == rv[p]);
            assert(x[q] == rv[q]);
        }
    }
}

/// The views of a list of derivations.
pub open spec fn results_view(rs: Seq<Vec<Action>>) -> Seq<Seq<ActionV>> {
    rs.map_values(|v: Vec<Action>| actions_view(v@))
}

/// Every remembered result is a derivation from its state over the words left.
spec fn memo_sound(lex: Seq<(ValueV, EntryV)>, toks: Seq<Option<Key>>, memo: Seq<MemoEntry>) -> bool {
    forall|i: int| 0 <= i < memo.len() ==> {
        &&& #[trigger] memo[i].offset <= toks.len()
        &&& forall|j: int| 0 <= j < memo[i].results@.len() ==> derives(
            lex,
            memo[i].model@,
            toks.skip(memo[i].offset as int),
            actions_view(#[trigger] memo[i].results@[j]@),
        )
    }
}

/// Where no loop can be reached from a remembered state, its results hold every
/// derivation from it.
spec fn entry_complete(lex: Seq<(ValueV, EntryV)>, toks: Seq<Option<Key>>, e: MemoEntry) -> bool {
    cycle_free(lex, toks, e.offset as int, e.model@) ==> forall|d: Seq<ActionV>|
        #[trigger] derives(lex, e.model@, toks.skip(e.offset as int), d) ==> results_view(e.results@).contains(d)
}

/// Every remembered state without reachable loops has all its derivations.
spec fn memo_complete(lex: Seq<(ValueV, EntryV)>, toks: Seq<Option<Key>>, memo: Seq<MemoEntry>) -> bool {
    forall|i: int| 0 <= i < memo.len() ==> entry_complete(lex, toks, #[trigger] memo[i])
}

/// A remembered state is the state at word `o` in model `m`.
spec fn memo_match(e: MemoEntry, o: usize, m: LambdaV) -> bool {
    e.offset == o && same_search_state(e.model@, m)
}

/// A state under exploration is the state at word `o` in model `m`.
spec fn visit_match(v: (usize, LambdaModel), o: usize, m: LambdaV) -> bool {
    v.0 == o && same_search_state(v.1@, m)
}

/// The state at word `o` in model `m` is remembered.
spec fn memo_has(memo: Seq<MemoEntry>, o: usize, m: LambdaV) -> bool {
    exists|i: int| 0 <= i < memo.len() && #[trigger] memo_match(memo[i], o, m)
}

/// The state at word `o` in model `m` is under exploration.
spec fn visiting_has(visiting: Seq<(usize, LambdaModel)>, o: usize, m: LambdaV) -> bool {
    exists|i: int| 0 <= i < visiting.len() && #[trigger] visit_match(visiting[i], o, m)
}

/// Where no loop can be reached, `rv` holds every derivation that starts by taking in a word.
spec fn covers_tokens(lex: Seq<(ValueV, EntryV)>, toks: Seq<Option<Key>>, o: int, m: LambdaV, rv: Seq<Seq<ActionV>>) -> bool {
    cycle_free(lex, toks, o, m) ==> forall|d: Seq<ActionV>|
        #[trigger] derives(lex, m, toks.skip(o), d) && d.len() > 0 && d[0] is AddToken ==> rv.contains(d)
}

/// Where no loop can be reached, `rv` holds every derivation that starts by applying one
/// of the entries `es`.
spec fn covers_entries(lex: Seq<(ValueV, EntryV)>, toks: Seq<Option<Key>>, o: int, m: LambdaV, rv: Seq<Seq<ActionV>>, es: Seq<EntryV>) -> bool {
    cycle_free(lex, toks, o, m) ==> forall|d: Seq<ActionV>|
        #[trigger] derives(lex, m, toks.skip(o), d) && d.len() > 0 && (d[0] matches ActionV::ApplyEntry(x) && es.contains(x))
            ==> rv.contains(d)
}

/// The first step of a derivation can be taken, and the rest derives from where it leads.
proof fn lemma_derives_first(lex: Seq<(ValueV, EntryV)>, toks: Seq<Option<Key>>, o: int, m: LambdaV, d: Seq<ActionV>)
    requires
        0 <= o <= toks.len(),
        derives(lex, m, toks.skip(o), d),
        d.len() > 0,
    ensures
        act_step(lex, toks, o, m, d[0]) matches Some((o1, m1)) && o <= o1 <= toks.len()
            && derives(lex, m1, toks.skip(o1), d.drop_first()),
{
    if d[0] is AddToken {
        assert(toks.skip(o)[0] == toks[o]);
        assert(toks.skip(o).drop_first() =~= toks.skip(o + 1));
    }
}

/// A derivation that starts with `a` is held in `rv` when `rv` holds `a` before every
/// result remembered for where `a` leads.
proof fn lemma_extend_cover(
    lex: Seq<(ValueV, EntryV)>,
    toks: Seq<Option<Key>>,
    o: int,
    m: LambdaV,
    a: ActionV,
    e: MemoEntry,
    rv: Seq<Seq<ActionV>>,
    d: Seq<ActionV>,
)
    requires
        0 <= o <= toks.len(),
        act_step(lex, toks, o, m, a) matches Some((o1, m1)) && e.offset == o1 && e.model@.expects == m1.expects,
        entry_complete(lex, toks, e),
        forall|jj: int| 0 <= jj < e.results@.len() ==> rv.contains(seq![a] + #[trigger] results_view(e.results@)[jj]),
        cycle_free(lex, toks, o, m),
        derives(lex, m, toks.skip(o), d),
        d.len() > 0,
        d[0] == a,
    ensures
        rv.contains(d),
{
    let (o1, m1) = act_step(lex, toks, o, m, a)->Some_0;
    lemma_derives_first(lex, toks, o, m, d);
    lemma_cycle_free_step(lex, toks, o, m, a);
    lemma_cycle_free_expects(lex, toks, o1, m1, e.model@);
    lemma_derives_expects(lex, m1, e.model@, toks.skip(o1), d.drop_first());
    assert(results_view(e.results@).contains(d.drop_first()));
    let jj = choose|jj: int| 0 <= jj < results_view(e.results@).len() && results_view(e.results@)[jj] == d.drop_first();
    assert(seq![a] + results_view(e.results@)[jj] =~= d);
}

/// Where a step leads back to a state under exploration, the state it leaves lies on a loop.
proof fn lemma_cut_means_loop(
    lex: Seq<(ValueV, EntryV)>,
    toks: Seq<Option<Key>>,
    o: int,
    m: LambdaV,
    a: ActionV,
    vis: Seq<(usize, LambdaModel)>,
    o1: usize,
    m1: LambdaV,
)
    requires
        act_step(lex, toks, o, m, a) == Some((o1 as int, m1)),
        visiting_has(vis, o1, m1),
        forall|i: int| 0 <= i < vis.len() ==> reaches(lex, toks, #[trigger] vis[i].0 as int, vis[i].1@, o, m),
    ensures
        !cycle_free(lex, toks, o, m),
{
    let k = choose|k: int| 0 <= k < vis.len() && #[trigger] visit_match(vis[k], o1, m1);
    assert(reaches(lex, toks, vis[k].0 as int, vis[k].1@, o, m));
    lemma_back_edge_loops(lex, toks, o, m, a, vis[k].0 as int, vis[k].1@);
}

/// No derivation occurs twice in `s`.
pub open spec fn no_repeats(s: Seq<Seq<ActionV>>) -> bool {
    forall|i: int, j: int| 0 <= i < j < s.len() ==> s[i] != s[j]
}

/// Every remembered state holds its derivations in the order the search tries them.
spec fn memo_ordered(lex: Seq<(ValueV, EntryV)>, toks: Seq<Option<Key>>, memo: Seq<MemoEntry>) -> bool {
    forall|i: int| 0 <= i < memo.len() ==> in_search_order(lex, toks, (#[trigger] memo[i]).offset as int, memo[i].model@, results_view(memo[i].results@))
}

/// No remembered state holds a derivation twice.
spec fn memo_distinct(memo: Seq<MemoEntry>) -> bool {
    forall|i: int| 0 <= i < memo.len() ==> no_repeats(results_view(#[trigger] memo[i].results@))
}

/// `rv` followed by `a` put before each of the first `j` derivations of `sfx`.
spec fn extended(rv: Seq<Seq<ActionV>>, a: ActionV, sfx: Seq<Seq<ActionV>>, j: int) -> Seq<Seq<ActionV>> {
    rv + Seq::new(j as nat, |jj: int| seq![a] + sfx[jj])
}

/// Putting one action before derivations that are all different, after derivations
/// that start otherwise, repeats nothing.
proof fn lemma_extended_no_repeats(rv: Seq<Seq<ActionV>>, a: ActionV, sfx: Seq<Seq<ActionV>>, j: int)
    requires
        0 <= j <= sfx.len(),
        no_repeats(rv),
        no_repeats(sfx),
        forall|r: int| 0 <= r < rv.len() ==> #[trigger] rv[r].len() > 0 && rv[r][0] != a,
    ensures
        no_repeats(extended(rv, a, sfx, j)),
{
    let x = extended(rv, a, sfx, j);
    assert forall|p: int, q: int| 0 <= p < q < x.len() implies x[p] != x[q] by {
        if q >= rv.len() {
            assert(x[q] == seq![a] + sfx[q - rv.len()]);
            assert(x[q][0] == a);
            if p >= rv.len() {
                assert(x[p] == seq![a] + sfx[p - rv.len()]);
                if x[p] == x[q] {
                    assert(x[p].drop_first() =~= sfx[p - rv.len()]);
                    assert(x[q].drop_first() =~= sfx[q - rv.len()]);
                }
            } else {
                assert(x[p] == rv[p]);
            }
        } else {
            assert(x[p] == rv[p]);
            assert(x[q] == rv[q]);
        }
    }
}

/// No state of `s` is under exploration in `vis`.
spec fn avoids(vis: Seq<(usize, LambdaModel)>, s: Seq<(int, LambdaV)>) -> bool {
    forall|i: int, k: int| 0 <= i < s.len() && 0 <= k < vis.len() ==> !(vis[k].0 == s[i].0 && same_search_state(
        #[trigger] vis[k].1@,
        #[trigger] s[i].1,
    ))
}

/// Some run of `n` actions from word `o` in model `m` passes no state twice and none
/// under exploration.
spec fn deep_from(lex: Seq<(ValueV, EntryV)>, toks: Seq<Option<Key>>, o: int, m: LambdaV, n: nat, vis: Seq<(usize, LambdaModel)>) -> bool {
    exists|p: Seq<ActionV>| p.len() == n && #[trigger] run(lex, toks, o, m, p) is Some
        && states_distinct(run_states(lex, toks, o, m, p)) && avoids(vis, run_states(lex, toks, o, m, p))
}

/// A deep run from where one action leads, avoiding the state it leaves, makes a deep
/// run from that state.
proof fn lemma_deep_step(
    lex: Seq<(ValueV, EntryV)>,
    toks: Seq<Option<Key>>,
    o: int,
    m: LambdaV,
    a: ActionV,
    n: nat,
    vis0: Seq<(usize, LambdaModel)>,
    vis1: Seq<(usize, LambdaModel)>,
)
    requires
        act_step(lex, toks, o, m, a) matches Some((o1, m1)) && deep_from(lex, toks, o1, m1, n, vis1),
        vis1.len() == vis0.len() + 1,
        forall|k: int| 0 <= k < vis0.len() ==> vis1[k] == vis0[k],
        vis1[vis0.len() as int].0 == o,
        vis1[vis0.len() as int].1@ == m,
        forall|k: int| 0 <= k < vis0.len() ==> !#[trigger] visit_match(vis0[k], o as usize, m),
        0 <= o,
    ensures
        deep_from(lex, toks, o, m, n + 1, vis0),
{
    let (o1, m1) = act_step(lex, toks, o, m, a)->Some_0;
    let p = choose|p: Seq<ActionV>| p.len() == n && #[trigger] run(lex, toks, o1, m1, p) is Some
        && states_distinct(run_states(lex, toks, o1, m1, p)) && avoids(vis1, run_states(lex, toks, o1, m1, p));
    let q = seq![a] + p;
    assert(q[0] == a);
    assert(q.drop_first() =~= p);
    assert(run(lex, toks, o, m, q) == run(lex, toks, o1, m1, p));
    let sp = run_states(lex, toks, o1, m1, p);
    let sq = run_states(lex, toks, o, m, q);
    assert(sq == seq![(o, m)] + sp);
    assert forall|i: int, j: int| 0 <= i < j < sq.len() implies !same_place(sq[i], sq[j]) by {
        if i == 0 {
            assert(sq[j] == sp[j - 1]);
            assert(!(vis1[vis0.len() as int].0 == sp[j - 1].0 && same_search_state(vis1[vis0.len() as int].1@, sp[j - 1].1)));
        } else {
            assert(sq[i] == sp[i - 1]);
            assert(sq[j] == sp[j - 1]);
        }
    }
    assert forall|i: int, k: int| 0 <= i < sq.len() && 0 <= k < vis0.len() implies !(vis0[k].0 == sq[i].0 && same_search_state(
        #[trigger] vis0[k].1@,
        #[trigger] sq[i].1,
    )) by {
        if i == 0 {
            assert(!visit_match(vis0[k], o as usize, m));
        } else {
            assert(sq[i] == sp[i - 1]);
            assert(vis1[k] == vis0[k]);
            assert(!(vis1[k].0 == sp[i - 1].0 && same_search_state(vis1[k].1@, sp[i - 1].1)));
        }
    }
}

/// Growing `rv` keeps what it covers.
proof fn lemma_covers_grow(
    lex: Seq<(ValueV, EntryV)>,
    toks: Seq<Option<Key>>,
    o: int,
    m: LambdaV,
    rv: Seq<Seq<ActionV>>,
    rv2: Seq<Seq<ActionV>>,
    es: Seq<EntryV>,
)
    requires
        forall|x: Seq<ActionV>| rv.contains(x) ==> #[trigger] rv2.contains(x),
    ensures
        covers_tokens(lex, toks, o, m, rv) ==> covers_tokens(lex, toks, o, m, rv2),
        covers_entries(lex, toks, o, m, rv, es) ==> covers_entries(lex, toks, o, m, rv2, es),
{
}

fn memo_find(memo: &Vec<MemoEntry>, offset: usize, model: &LambdaModel) -> (r: Option<usize>)
    ensures
        r matches Some(i) ==> i < memo@.len() && memo_match(memo@[i as int], offset, model@),
        r is None ==> forall|i: int| 0 <= i < memo@.len() ==> !#[trigger] memo_match(memo@[i], offset, model@),
{
    let mut i: usize = 0;
    while i < memo.len()
        invariant
            0 <= i <= memo@.len(),
            forall|k: int| 0 <= k < i ==> !#[trigger] memo_match(memo@[k], offset, model@),
        decreases memo@.len() - i,
    {
        if memo[i].offset == offset && memo[i].model.same_state(model) {
            return Some(i);
        }
        i = i + 1;
    }
    None
}

fn visiting_find(visiting: &Vec<(usize, LambdaModel)>, offset: usize, model: &LambdaModel) -> (r: Option<usize>)
    ensures
        r matches Some(i) ==> i < visiting@.len() && visit_match(visiting@[i as int], offset, model@)
            && forall|k: int| 0 <= k < i ==> !#[trigger] visit_match(visiting@[k], offset, model@),
        r is None ==> forall|k: int| 0 <= k < visiting@.len() ==> !#[trigger] visit_match(visiting@[k], offset, model@),
{
    let mut i: usize = 0;
    while i < visiting.len()
        invariant
            0 <= i <= visiting@.len(),
            forall|k: int| 0 <= k < i ==> !#[trigger] visit_match(visiting@[k], offset, model@),
        decreases visiting@.len() - i,
    {
        if visiting[i].0 == offset && visiting[i].1.same_state(model) {
            return Some(i);
        }
        i = i + 1;
    }
    None
}

/// Explores every way to continue from `model` at word `offset`, remembering what it
/// finds; a state already under exploration is not entered again. Once it succeeds,
/// the state is remembered (or was under exploration already), the states under
/// exploration are as they were, and every remembered state from which no loop can be
/// reached holds all its derivations.
#[verifier::rlimit(60)]
fn step(
    lex: &SimpleLexicon,
    toks: &Vec<Option<Key>>,
    model: LambdaModel,
    offset: usize,
    memo: &mut Vec<MemoEntry>,
    visiting: &mut Vec<(usize, LambdaModel)>,
    depth: usize,
) -> (r: Result<(), InterpretError>)
    requires
        offset <= toks@.len(),
        memo_sound(lex@, toks@, old(memo)@),
        memo_complete(lex@, toks@, old(memo)@),
        answers_distinct(lex@) ==> memo_distinct(old(memo)@),
        answers_distinct(lex@) ==> memo_ordered(lex@, toks@, old(memo)@),
        model@.step + depth <= SEARCH_DEPTH,
        model@.next_chain_id + depth <= SEARCH_DEPTH + 1,
        forall|i: int| 0 <= i < old(visiting)@.len() ==> reaches(
            lex@,
            toks@,
            #[trigger] old(visiting)@[i].0 as int,
            old(visiting)@[i].1@,
            offset as int,
            model@,
        ),
    ensures
        memo_sound(lex@, toks@, final(memo)@),
        memo_complete(lex@, toks@, final(memo)@),
        answers_distinct(lex@) ==> memo_distinct(final(memo)@),
        answers_distinct(lex@) ==> memo_ordered(lex@, toks@, final(memo)@),
        r matches Err(e) ==> e == InterpretError::SearchTooDeep && deep_from(lex@, toks@, offset as int, model@, depth as nat, old(visiting)@),
        r is Ok ==> final(visiting)@ == old(visiting)@,
        r is Ok ==> memo_has(final(memo)@, offset, model@) || visiting_has(old(visiting)@, offset, model@),
    decreases depth,
{
    if let Some(i) = memo_find(memo, offset, &model) {
        assert(memo_match(memo@[i as int], offset, model@));
        return Ok(());
    }
    if let Some(i) = visiting_find(visiting, offset, &model) {
        assert(visit_match(visiting@[i as int], offset, model@));
        return Ok(());
    }
    let ghost tail = toks@.skip(offset as int);
    let ghost mv = model@;
    if offset == toks.len() && model.understood() {
        let mut res: Vec<Vec<Action>> = Vec::new();
        res.push(Vec::new());
        proof {
            assert(tail.len() == 0);
            assert(actions_view(res@[0]@) =~= Seq::<ActionV>::empty());
        }
        let ghost old_memo = memo@;
        let entry = MemoEntry { offset, model, results: res };
        proof {
            assert forall|d: Seq<ActionV>| #[trigger] derives(lex@, entry.model@, toks@.skip(entry.offset as int), d)
                implies results_view(entry.results@).contains(d) by {
                if d.len() > 0 {
                    lemma_derives_first(lex@, toks@, offset as int, mv, d);
                }
                assert(d =~= Seq::<ActionV>::empty());
                assert(results_view(entry.results@)[0] == d);
            }
            assert(entry_complete(lex@, toks@, entry));
            assert(memo_match(entry, offset, mv));
        }
        memo.push(entry);
        assert forall|i: int| 0 <= i < memo@.len() implies {
            &&& #[trigger] memo@[i].offset <= toks@.len()
            &&& forall|j: int| 0 <= j < memo@[i].results@.len() ==> derives(
                lex@, memo@[i].model@, toks@.skip(memo@[i].offset as int), actions_view(#[trigger] memo@[i].results@[j]@))
        } by {
            if i < old_memo.len() {
                assert(memo@[i] == old_memo[i]);
            }
        }
        assert forall|i: int| 0 <= i < memo@.len() implies entry_complete(lex@, toks@, #[trigger] memo@[i]) by {
            if i < old_memo.len() {
                assert(memo@[i] == old_memo[i]);
            }
        }
        assert forall|i: int| answers_distinct(lex@) && 0 <= i < memo@.len() implies no_repeats(results_view(#[trigger] memo@[i].results@)) by {
            if i < old_memo.len() {
                assert(memo@[i] == old_memo[i]);
            }
        }
        assert forall|i: int| answers_distinct(lex@) && 0 <= i < memo@.len() implies in_search_order(lex@, toks@, (#[trigger] memo@[i]).offset as int, memo@[i].model@, results_view(memo@[i].results@)) by {
            if i < old_memo.len() {
                assert(memo@[i] == old_memo[i]);
            }
        }
        assert(memo_match(memo@[memo@.len() - 1], offset, mv));
        return Ok(());
    }
    if depth == 0 {
        proof {
            let p = Seq::<ActionV>::empty();
            assert(run(lex@, toks@, offset as int, mv, p) is Some);
            assert(run_states(lex@, toks@, offset as int, mv, p) == seq![(offset as int, mv)]);
            assert(avoids(visiting@, run_states(lex@, toks@, offset as int, mv, p))) by {
                assert forall|i: int, k: int| 0 <= i < 1 && 0 <= k < visiting@.len() implies !(visiting@[k].0 == run_states(lex@, toks@, offset as int, mv, p)[i].0
                    && same_search_state(#[trigger] visiting@[k].1@, #[trigger] run_states(lex@, toks@, offset as int, mv, p)[i].1)) by {
                    assert(!visit_match(visiting@[k], offset, mv));
                }
            }
        }
        return Err(InterpretError::SearchTooDeep);
    }
    let ghost vis0 = visiting@;
    visiting.push((offset, model.duplicate()));
    let ghost vis1 = visiting@;
    proof {
        lemma_reaches_self(lex@, toks@, offset as int, mv);
        assert forall|i: int| 0 <= i < vis1.len() implies reaches(lex@, toks@, #[trigger] vis1[i].0 as int, vis1[i].1@, offset as int, mv) by {
            if i < vis0.len() {
                assert(vis1[i] == vis0[i]);
            }
        }
    }
    let mut res: Vec<Vec<Action>> = Vec::new();
    proof {
        assert(results_view(res@) =~= Seq::<Seq<ActionV>>::empty());
    }
    if model.demand() && offset < toks.len() {
        if let Some(tok) = toks[offset] {
            if model.step_count() < usize::MAX {
                let mut next = model.duplicate();
                if next.receive(tok).is_ok() {
                    let ghost a = ActionV::AddToken(tok);
                    proof {
                        law_receive_keeps_chains(mv, tok);
                        assert(act_step(lex@, toks@, offset as int, mv, a) == Some(((offset + 1) as int, next@)));
                        assert forall|i: int| 0 <= i < vis1.len() implies reaches(lex@, toks@, #[trigger] vis1[i].0 as int, vis1[i].1@, offset + 1, next@) by {
                            lemma_reaches_step(lex@, toks@, vis1[i].0 as int, vis1[i].1@, offset as int, mv, a);
                        }
                    }
                    match step(lex, toks, next.duplicate(), offset + 1, memo, visiting, depth - 1) {
                        Err(err) => {
                            proof {
                                lemma_deep_step(lex@, toks@, offset as int, mv, a, (depth - 1) as nat, vis0, vis1);
                            }
                            return Err(err);
                        },
                        Ok(()) => {},
                    }
                    match memo_find(memo, offset + 1, &next) {
                        Some(idx) => {
                            let n = memo[idx].results.len();
                            let mut j: usize = 0;
                            while j < n
                                invariant
                                    0 <= j <= n,
                                    idx < memo@.len(),
                                    n == memo@[idx as int].results@.len(),
                                    memo_sound(lex@, toks@, memo@),
                                    memo_complete(lex@, toks@, memo@),
                                    memo@[idx as int].offset == offset + 1,
                                    memo@[idx as int].model@.expects == next@.expects,
                                    offset < toks@.len(),
                                    toks@[offset as int] == Some(tok),
                                    spec_demand(model@),
                                    model@ == mv,
                                    a == ActionV::AddToken(tok),
                                    spec_receive(model@, tok) == (next@, Ok::<(), crate::error::LambdaError>(())),
                                    forall|b: int| 0 <= b < res@.len() ==> derives(
                                        lex@, model@, toks@.skip(offset as int), actions_view(#[trigger] res@[b]@)),
                                    forall|jj: int| 0 <= jj < j ==> results_view(res@).contains(
                                        seq![a] + #[trigger] results_view(memo@[idx as int].results@)[jj]),
                                    answers_distinct(lex@) ==> memo_distinct(memo@),
                                    answers_distinct(lex@) ==> memo_ordered(lex@, toks@, memo@),
                                    results_view(res@) == extended(Seq::empty(), a, results_view(memo@[idx as int].results@), j as int),
                                decreases n - j,
                            {
                                let suffix = &memo[idx].results[j];
                                let acts = prepend(Action::AddToken(tok), suffix);
                                proof {
                                    let sv = actions_view(suffix@);
                                    assert(derives(lex@, memo@[idx as int].model@, toks@.skip(offset + 1), sv));
                                    lemma_derives_expects(lex@, memo@[idx as int].model@, next@, toks@.skip(offset + 1), sv);
                                    let av = actions_view(acts@);
                                    assert(av[0] == ActionV::AddToken(tok));
                                    assert(av.drop_first() =~= sv);
                                    assert(toks@.skip(offset as int).drop_first() =~= toks@.skip(offset + 1));
                                }
                                let ghost rv_before = results_view(res@);
                                res.push(acts);
                                proof {
                                    broadcast use vstd::seq_lib::lemma_seq_contains_after_push;
                                    assert(results_view(res@) =~= rv_before.push(actions_view(acts@)));
                                    assert(results_view(memo@[idx as int].results@)[j as int] == actions_view(suffix@));
                                    assert(results_view(res@) =~= extended(Seq::empty(), a, results_view(memo@[idx as int].results@), j + 1));
                                }
                                j = j + 1;
                            }
                            proof {
                                if answers_distinct(lex@) {
                                    let sfx = results_view(memo@[idx as int].results@);
                                    assert(no_repeats(sfx));
                                    lemma_extended_no_repeats(Seq::empty(), a, sfx, n as int);
                                    assert(in_search_order(lex@, toks@, offset + 1, memo@[idx as int].model@, sfx));
                                    assert forall|p: int, q: int| 0 <= p < q < sfx.len() implies deriv_before(lex@, toks@, offset + 1, next@, #[trigger] sfx[p], #[trigger] sfx[q]) by {
                                        lemma_before_expects(lex@, toks@, offset + 1, memo@[idx as int].model@, next@, sfx[p], sfx[q]);
                                    }
                                    lemma_extended_in_order(lex@, toks@, offset as int, mv, Seq::empty(), a, offset + 1, next@, sfx, n as int);
                                }
                                assert forall|r: int| 0 <= r < results_view(res@).len() implies #[trigger] results_view(res@)[r].len() > 0
                                    && results_view(res@)[r][0] is AddToken by {
                                    assert(results_view(res@)[r] == seq![a] + results_view(memo@[idx as int].results@)[r]);
                                }
                                assert forall|d: Seq<ActionV>| #[trigger] derives(lex@, mv, toks@.skip(offset as int), d) && d.len() > 0
                                    && d[0] is AddToken && cycle_free(lex@, toks@, offset as int, mv) implies results_view(res@).contains(d) by {
                                    lemma_derives_first(lex@, toks@, offset as int, mv, d);
                                    assert(toks@.skip(offset as int)[0] == toks@[offset as int]);
                                    assert(memo_complete(lex@, toks@, memo@));
                                    assert(entry_complete(lex@, toks@, memo@[idx as int]));
                                    lemma_extend_cover(lex@, toks@, offset as int, mv, a, memo@[idx as int], results_view(res@), d);
                                }
                                assert(covers_tokens(lex@, toks@, offset as int, mv, results_view(res@)));
                            }
                        },
                        None => {
                            proof {
                                if !visiting_has(vis1, (offset + 1) as usize, next@) {
                                    assert(!memo_has(memo@, (offset + 1) as usize, next@));
                                }
                                lemma_cut_means_loop(lex@, toks@, offset as int, mv, a, vis1, (offset + 1) as usize, next@);
                                assert(covers_tokens(lex@, toks@, offset as int, mv, results_view(res@)));
                            }
                        },
                    }
                }
            }
        }
    }
    proof {
        assert forall|d: Seq<ActionV>| #[trigger] derives(lex@, mv, toks@.skip(offset as int), d) && d.len() > 0
            && d[0] is AddToken && cycle_free(lex@, toks@, offset as int, mv) implies results_view(res@).contains(d) by {
            lemma_derives_first(lex@, toks@, offset as int, mv, d);
            if !covers_tokens(lex@, toks@, offset as int, mv, results_view(res@)) {
                assert(false);
            }
        }
        assert(covers_tokens(lex@, toks@, offset as int, mv, results_view(res@)));
    }
    let ghost rv_tokens = results_view(res@);
    let mut entries_covered = false;
    if let Some(value) = model.wonder() {
        let entries = lex.get_entries(value);
        let ghost es = entries@.map_values(|x: crate::lexicon::LexiconEntry| x@);
        let mut e: usize = 0;
        proof {
            assert(es.take(0) =~= Seq::<EntryV>::empty());
        }
        while e < entries.len()
            invariant
                0 <= e <= entries@.len(),
                es == entries@.map_values(|x: crate::lexicon::LexiconEntry| x@),
                es == entries_for(lex@, value@),
                spec_wonder(model@) == Some(value@),
                model@ == mv,
                offset <= toks@.len(),
                depth > 0,
                model@.step + depth <= SEARCH_DEPTH,
                model@.next_chain_id + depth <= SEARCH_DEPTH + 1,
                memo_sound(lex@, toks@, memo@),
                memo_complete(lex@, toks@, memo@),
                visiting@ == vis1,
                vis0 == old(visiting)@,
                vis1.len() == vis0.len() + 1,
                forall|k: int| 0 <= k < vis0.len() ==> vis1[k] == vis0[k],
                vis1[vis0.len() as int].0 == offset,
                vis1[vis0.len() as int].1@ == mv,
                forall|k: int| 0 <= k < vis0.len() ==> !#[trigger] visit_match(vis0[k], offset, mv),
                forall|i: int| 0 <= i < vis1.len() ==> reaches(lex@, toks@, #[trigger] vis1[i].0 as int, vis1[i].1@, offset as int, mv),
                forall|a: int| 0 <= a < res@.len() ==> derives(
                    lex@, model@, toks@.skip(offset as int), actions_view(#[trigger] res@[a]@)),
                covers_tokens(lex@, toks@, offset as int, mv, results_view(res@)),
                covers_entries(lex@, toks@, offset as int, mv, results_view(res@), es.take(e as int)),
                answers_distinct(lex@) ==> memo_distinct(memo@),
                answers_distinct(lex@) ==> memo_ordered(lex@, toks@, memo@),
                answers_distinct(lex@) ==> no_repeats(results_view(res@)),
                answers_distinct(lex@) ==> in_search_order(lex@, toks@, offset as int, mv, results_view(res@)),
                forall|r: int| 0 <= r < results_view(res@).len() ==> #[trigger] results_view(res@)[r].len() > 0
                    && (results_view(res@)[r][0] matches ActionV::ApplyEntry(x) ==> es.take(e as int).contains(x)),
            decreases entries@.len() - e,
        {
            let ghost rv_e = results_view(res@);
            if model.step_count() < usize::MAX && model.next_chain_id() < usize::MAX {
                let mut next = model.duplicate();
                let entry = entries[e].duplicate();
                assert(entries_for(lex@, value@)[e as int] == entries@[e as int]@);
                if next.decide(entry).is_ok() {
                    let ghost a = ActionV::ApplyEntry(es[e as int]);
                    proof {
                        law_decide_keeps_discharged_chains(mv, es[e as int]);
                        assert(entries_for(lex@, value@).contains(es[e as int]));
                        assert(act_step(lex@, toks@, offset as int, mv, a) == Some((offset as int, next@)));
                        assert forall|i: int| 0 <= i < vis1.len() implies reaches(lex@, toks@, #[trigger] vis1[i].0 as int, vis1[i].1@, offset as int, next@) by {
                            lemma_reaches_step(lex@, toks@, vis1[i].0 as int, vis1[i].1@, offset as int, mv, a);
                        }
                    }
                    match step(lex, toks, next.duplicate(), offset, memo, visiting, depth - 1) {
                        Err(err) => {
                            proof {
                                lemma_deep_step(lex@, toks@, offset as int, mv, a, (depth - 1) as nat, vis0, vis1);
                            }
                            return Err(err);
                        },
                        Ok(()) => {},
                    }
                    match memo_find(memo, offset, &next) {
                        Some(idx) => {
                            let n = memo[idx].results.len();
                            let mut j: usize = 0;
                            while j < n
                                invariant
                                    0 <= j <= n,
                                    e < entries@.len(),
                                    idx < memo@.len(),
                                    n == memo@[idx as int].results@.len(),
                                    memo_sound(lex@, toks@, memo@),
                                    memo_complete(lex@, toks@, memo@),
                                    memo@[idx as int].offset == offset,
                                    memo@[idx as int].model@.expects == next@.expects,
                                    offset <= toks@.len(),
                                    model@ == mv,
                                    es == entries@.map_values(|x: crate::lexicon::LexiconEntry| x@),
                                    a == ActionV::ApplyEntry(es[e as int]),
                                    spec_wonder(model@) == Some(value@),
                                    entries_for(lex@, value@).contains(entries@[e as int]@),
                                    spec_decide(model@, entries@[e as int]@) == (next@, Ok::<(), crate::error::LambdaError>(())),
                                    forall|b: int| 0 <= b < res@.len() ==> derives(
                                        lex@, model@, toks@.skip(offset as int), actions_view(#[trigger] res@[b]@)),
                                    forall|x: Seq<ActionV>| rv_e.contains(x) ==> #[trigger] results_view(res@).contains(x),
                                    forall|jj: int| 0 <= jj < j ==> results_view(res@).contains(
                                        seq![a] + #[trigger] results_view(memo@[idx as int].results@)[jj]),
                                    answers_distinct(lex@) ==> memo_distinct(memo@),
                                    answers_distinct(lex@) ==> memo_ordered(lex@, toks@, memo@),
                                    results_view(res@) == extended(rv_e, a, results_view(memo@[idx as int].results@), j as int),
                                decreases n - j,
                            {
                                let suffix = &memo[idx].results[j];
                                let acts = prepend(Action::ApplyEntry(entries[e].duplicate()), suffix);
                                proof {
                                    let sv = actions_view(suffix@);
                                    assert(derives(lex@, memo@[idx as int].model@, toks@.skip(offset as int), sv));
                                    lemma_derives_expects(lex@, memo@[idx as int].model@, next@, toks@.skip(offset as int), sv);
                                    let av = actions_view(acts@);
                                    assert(av.drop_first() =~= sv);
                                }
                                let ghost rv_before = results_view(res@);
                                res.push(acts);
                                proof {
                                    broadcast use vstd::seq_lib::lemma_seq_contains_after_push;
                                    assert(results_view(res@) =~= rv_before.push(actions_view(acts@)));
                                    assert(results_view(memo@[idx as int].results@)[j as int] == actions_view(suffix@));
                                    assert(results_view(res@) =~= extended(rv_e, a, results_view(memo@[idx as int].results@), j + 1));
                                }
                                j = j + 1;
                            }
                            proof {
                                let sfx = results_view(memo@[idx as int].results@);
                                if answers_distinct(lex@) {
                                    assert(entries_for(lex@, value@).no_duplicates());
                                    assert(no_repeats(sfx));
                                    assert forall|r: int| 0 <= r < rv_e.len() implies #[trigger] rv_e[r].len() > 0 && rv_e[r][0] != a by {
                                        if rv_e[r][0] == a {
                                            let w = choose|w: int| 0 <= w < es.take(e as int).len() && #[trigger] es.take(e as int)[w] == es[e as int];
                                            assert(es[w] == es[e as int]);
                                        }
                                    }
                                    lemma_extended_no_repeats(rv_e, a, sfx, n as int);
                                    assert(es.no_duplicates());
                                    lemma_rank_in(es, e as int);
                                    assert forall|r: int| 0 <= r < rv_e.len() implies #[trigger] rv_e[r].len() > 0 && rv_e[r][0] != a
                                        && action_before(lex@, mv, rv_e[r][0], a) by {
                                        if let ActionV::ApplyEntry(x) = rv_e[r][0] {
                                            let w = choose|w: int| 0 <= w < es.take(e as int).len() && #[trigger] es.take(e as int)[w] == x;
                                            assert(es[w] == x);
                                            lemma_rank_in(es, w);
                                        }
                                    }
                                    assert(in_search_order(lex@, toks@, offset as int, memo@[idx as int].model@, sfx));
                                    assert forall|p: int, q: int| 0 <= p < q < sfx.len() implies deriv_before(lex@, toks@, offset as int, next@, #[trigger] sfx[p], #[trigger] sfx[q]) by {
                                        lemma_before_expects(lex@, toks@, offset as int, memo@[idx as int].model@, next@, sfx[p], sfx[q]);
                                    }
                                    lemma_extended_in_order(lex@, toks@, offset as int, mv, rv_e, a, offset as int, next@, sfx, n as int);
                                }
                                assert forall|r: int| 0 <= r < results_view(res@).len() implies #[trigger] results_view(res@)[r].len() > 0
                                    && (results_view(res@)[r][0] matches ActionV::ApplyEntry(x) ==> es.take(e + 1).contains(x)) by {
                                    assert(es.take(e + 1)[e as int] == es[e as int]);
                                    if r < rv_e.len() {
                                        assert(results_view(res@)[r] == rv_e[r]);
                                        if let ActionV::ApplyEntry(x) = rv_e[r][0] {
                                            let w = choose|w: int| 0 <= w < es.take(e as int).len() && #[trigger] es.take(e as int)[w] == x;
                                            assert(es.take(e + 1)[w] == x);
                                        }
                                    } else {
                                        assert(results_view(res@)[r] == seq![a] + sfx[r - rv_e.len()]);
                                    }
                                }
                                lemma_covers_grow(lex@, toks@, offset as int, mv, rv_e, results_view(res@), es.take(e as int));
                                assert forall|d: Seq<ActionV>| #[trigger] derives(lex@, mv, toks@.skip(offset as int), d) && d.len() > 0
                                    && d[0] == a && cycle_free(lex@, toks@, offset as int, mv) implies results_view(res@).contains(d) by {
                                    assert(entry_complete(lex@, toks@, memo@[idx as int]));
                                    lemma_extend_cover(lex@, toks@, offset as int, mv, a, memo@[idx as int], results_view(res@), d);
                                }
                            }
                        },
                        None => {
                            proof {
                                if !visiting_has(vis1, offset, next@) {
                                    assert(!memo_has(memo@, offset, next@));
                                }
                                lemma_cut_means_loop(lex@, toks@, offset as int, mv, a, vis1, offset, next@);
                            }
                        },
                    }
                }
            }
            proof {
                let rvn = results_view(res@);
                assert(es.take(e + 1) =~= es.take(e as int).push(es[e as int]));
                if rvn == rv_e {
                    assert forall|r: int| 0 <= r < rvn.len() implies #[trigger] rvn[r].len() > 0
                        && (rvn[r][0] matches ActionV::ApplyEntry(x) ==> es.take(e + 1).contains(x)) by {
                        if let ActionV::ApplyEntry(x) = rvn[r][0] {
                            let w = choose|w: int| 0 <= w < es.take(e as int).len() && #[trigger] es.take(e as int)[w] == x;
                            assert(es.take(e + 1)[w] == x);
                        }
                    }
                }
                assert forall|d: Seq<ActionV>| #[trigger] derives(lex@, mv, toks@.skip(offset as int), d) && d.len() > 0
                    && (d[0] matches ActionV::ApplyEntry(x) && es.take(e + 1).contains(x)) && cycle_free(lex@, toks@, offset as int, mv)
                    implies rvn.contains(d) by {
                    lemma_derives_first(lex@, toks@, offset as int, mv, d);
                    let x = d[0]->ApplyEntry_0;
                    if x == es[e as int] {
                        assert(d[0] == ActionV::ApplyEntry(es[e as int]));
                    } else {
                        assert(es.take(e as int).contains(x)) by {
                            let w = choose|w: int| 0 <= w < es.take(e + 1).len() && #[trigger] es.take(e + 1)[w] == x;
                            assert(es.take(e as int)[w] == x);
                        }
                    }
                }
            }
            e = e + 1;
        }
        proof {
            assert(es.take(es.len() as int) =~= es);
            assert forall|d: Seq<ActionV>| #[trigger] derives(lex@, mv, toks@.skip(offset as int), d) && d.len() > 0
                && d[0] is ApplyEntry && cycle_free(lex@, toks@, offset as int, mv) implies results_view(res@).contains(d) by {
                lemma_derives_first(lex@, toks@, offset as int, mv, d);
                assert(es.contains(d[0]->ApplyEntry_0));
            }
        }
        entries_covered = true;
    }
    proof {
        assert forall|d: Seq<ActionV>| #[trigger] derives(lex@, mv, toks@.skip(offset as int), d) && cycle_free(lex@, toks@, offset as int, mv)
            implies results_view(res@).contains(d) by {
            if d.len() == 0 {
                assert(false);
            } else {
                lemma_derives_first(lex@, toks@, offset as int, mv, d);
                if d[0] is AddToken {
                    assert(covers_tokens(lex@, toks@, offset as int, mv, results_view(res@)));
                } else {
                    assert(entries_covered);
                }
            }
        }
    }
    let ghost old_memo = memo@;
    let entry = MemoEntry { offset, model, results: res };
    proof {
        assert(entry_complete(lex@, toks@, entry));
        assert(memo_match(entry, offset, mv));
    }
    memo.push(entry);
    assert forall|i: int| 0 <= i < memo@.len() implies {
        &&& #[trigger] memo@[i].offset <= toks@.len()
        &&& forall|j: int| 0 <= j < memo@[i].results@.len() ==> derives(
            lex@, memo@[i].model@, toks@.skip(memo@[i].offset as int), actions_view(#[trigger] memo@[i].results@[j]@))
    } by {
        if i < old_memo.len() {
            assert(memo@[i] == old_memo[i]);
        }
    }
    assert forall|i: int| 0 <= i < memo@.len() implies entry_complete(lex@, toks@, #[trigger] memo@[i]) by {
        if i < old_memo.len() {
            assert(memo@[i] == old_memo[i]);
        }
    }
    assert forall|i: int| answers_distinct(lex@) && 0 <= i < memo@.len() implies no_repeats(results_view(#[trigger] memo@[i].results@)) by {
        if i < old_memo.len() {
            assert(memo@[i] == old_memo[i]);
        }
    }
    assert forall|i: int| answers_distinct(lex@) && 0 <= i < memo@.len() implies in_search_order(lex@, toks@, (#[trigger] memo@[i]).offset as int, memo@[i].model@, results_view(memo@[i].results@)) by {
        if i < old_memo.len() {
            assert(memo@[i] == old_memo[i]);
        }
    }
    assert(memo_match(memo@[memo@.len() - 1], offset, mv));
    assert(visiting@ == vis1);
    assert(visit_match(visiting@[vis0.len() as int], offset, memo@[memo@.len() - 1].model@));
    if let Some(v) = visiting_find(visiting, offset, &memo[memo.len() - 1].model) {
        proof {
            assert(visit_match(vis1[vis0.len() as int], offset, mv));
            if (v as int) < vis0.len() {
                assert(vis1[v as int] == vis0[v as int]);
            }
        }
        visiting.remove(v);
        assert(visiting@ =~= vis0);
    }
    Ok(())
}

/// How deep the search may go: the longest derivation it explores.
pub const SEARCH_DEPTH: usize = usize::MAX - 1;

/// The symbols of the words of `text`, looked up in `interner`.
fn token_keys_of(interner: &Interner, text: &[u8]) -> (r: Vec<Option<Key>>)
    requires
        interner.wf(),
    ensures
        r@ == token_keys(interner@, text@),
{
    let words = tokenize(text);
    let mut out: Vec<Option<Key>> = Vec::new();
    let mut i: usize = 0;
    while i < words.len()
        invariant
            0 <= i <= words@.len(),
            interner.wf(),
            views(words@) == tokens(text@),
            out@ == token_keys(interner@, text@).take(i as int),
        decreases words@.len() - i,
    {
        let k = interner.lookup(words[i].as_slice());
        assert(views(words@)[i as int] == words@[i as int]@);
        out.push(k);
        assert(out@ =~= token_keys(interner@, text@).take(i + 1));
        i = i + 1;
    }
    assert(token_keys(interner@, text@).take(words@.len() as int) =~= token_keys(interner@, text@));
    out
}

fn copy_results(rs: &Vec<Vec<Action>>) -> (r: Vec<Vec<Action>>)
    ensures
        r@.len() == rs@.len(),
        forall|i: int| 0 <= i < r@.len() ==> actions_view(#[trigger] r@[i]@) == actions_view(rs@[i]@),
{
    let mut out: Vec<Vec<Action>> = Vec::new();
    let mut i: usize = 0;
    while i < rs.len()
        invariant
            0 <= i <= rs@.len(),
            out@.len() == i,
            forall|a: int| 0 <= a < i ==> actions_view(#[trigger] out@[a]@) == actions_view(rs@[a]@),
        decreases rs@.len() - i,
    {
        let mut one: Vec<Action> = Vec::new();
        let mut j: usize = 0;
        while j < rs[i].len()
            invariant
                0 <= j <= rs@[i as int]@.len(),
                i < rs@.len(),
                actions_view(one@) == actions_view(rs@[i as int]@).take(j as int),
            decreases rs@[i as int]@.len() - j,
        {
            let d = rs[i][j].duplicate();
            let ghost prev = one@;
            one.push(d);
            assert(actions_view(one@) =~= actions_view(prev).push(rs@[i as int]@[j as int]@));
            assert(actions_view(rs@[i as int]@).take(j + 1) =~= actions_view(rs@[i as int]@).take(j as int).push(rs@[i as int]@[j as int]@));
            j = j + 1;
        }
        assert(actions_view(rs@[i as int]@).take(rs@[i as int]@.len() as int) =~= actions_view(rs@[i as int]@));
        out.push(one);
        i = i + 1;
    }
    out
}

/// The derivations of `text` as a constituent of category `target`, found by the
/// memoized search; an unknown category has none.
pub fn search(dialect: &Dialect, text: &[u8], target: &str) -> (r: Result<Vec<Vec<Action>>, InterpretError>)
    requires
        dialect.wf(),
    ensures
        search_gives(
            dialect.lexicon_view(),
            key_of(dialect.interner_view(), target.spec_bytes()),
            token_keys(dialect.interner_view(), text@),
            outcome_view(r),
        ),
{
    let interner = dialect.interner();
    let lex = dialect.lexicon();
    let toks = token_keys_of(interner, text);
    let target_key = match interner.lookup(target.as_bytes()) {
        Some(k) => k,
        None => {
            return Ok(Vec::new());
        },
    };
    let model = LambdaModel::init(FeatureSet::from_category(target_key));
    let root = model.duplicate();
    let ghost model_view = model@;
    let mut memo: Vec<MemoEntry> = Vec::new();
    let mut visiting: Vec<(usize, LambdaModel)> = Vec::new();
    match step(lex, &toks, model, 0, &mut memo, &mut visiting, SEARCH_DEPTH) {
        Err(err) => {
            proof {
                let p = choose|p: Seq<ActionV>| p.len() == SEARCH_DEPTH as nat && #[trigger] run(lex@, toks@, 0, model_view, p) is Some
                    && states_distinct(run_states(lex@, toks@, 0, model_view, p)) && avoids(Seq::empty(), run_states(lex@, toks@, 0, model_view, p));
                assert(simple_runs_for(lex@, toks@, 0, model_view, SEARCH_DEPTH as nat));
            }
            return Err(err);
        },
        Ok(()) => {},
    }
    match memo_find(&memo, 0, &root) {
        Some(idx) => {
            let out = copy_results(&memo[idx].results);
            proof {
                assert forall|i: int| 0 <= i < out@.len() implies derives(
                    lex@,
                    spec_init(Map::<Key, Option<Key>>::empty().insert(target_key, None)),
                    toks@,
                    actions_view(#[trigger] out@[i]@),
                ) by {
                    assert(toks@.skip(0) =~= toks@);
                    assert(derives(lex@, memo@[idx as int].model@, toks@.skip(0), actions_view(memo@[idx as int].results@[i]@)));
                    lemma_derives_expects(lex@, memo@[idx as int].model@, root@, toks@, actions_view(out@[i]@));
                }
                let init = spec_init(Map::<Key, Option<Key>>::empty().insert(target_key, None));
                assert(results_view(out@) =~= results_view(memo@[idx as int].results@));
                if answers_distinct(lex@) {
                    let rv = results_view(memo@[idx as int].results@);
                    assert(no_repeats(rv));
                    assert(in_search_order(lex@, toks@, 0, memo@[idx as int].model@, rv));
                    assert forall|p: int, q: int| 0 <= p < q < rv.len() implies deriv_before(lex@, toks@, 0, init, #[trigger] rv[p], #[trigger] rv[q]) by {
                        lemma_before_expects(lex@, toks@, 0, memo@[idx as int].model@, init, rv[p], rv[q]);
                    }
                }
                assert forall|i: int| 0 <= i < results_view(out@).len() implies derives(lex@, init, toks@, #[trigger] results_view(out@)[i]) by {
                    assert(results_view(out@)[i] == actions_view(out@[i]@));
                }
                if cycle_free(lex@, toks@, 0, init) {
                    assert(toks@.skip(0) =~= toks@);
                    assert(entry_complete(lex@, toks@, memo@[idx as int]));
                    lemma_cycle_free_expects(lex@, toks@, 0, init, memo@[idx as int].model@);
                    assert forall|d: Seq<ActionV>| #[trigger] derives(lex@, init, toks@, d) implies results_view(out@).contains(d) by {
                        lemma_derives_expects(lex@, init, memo@[idx as int].model@, toks@.skip(0), d);
                    }
                }
            }
            Ok(out)
        },
        None => {
            proof {
                let i = choose|i: int| 0 <= i < memo@.len() && #[trigger] memo_match(memo@[i], 0, model_view);
                assert(!memo_match(memo@[i], 0, root@));
            }
            Ok(Vec::new())
        },
    }
}

/// The derivations of `text` as a constituent labelled `target_label` in `dialect`.
/// For English sentences, a question is first rewritten into declarative order (see
/// `normalized_question`); when that finds derivations they are the result, and
/// otherwise the text is searched as it is.
pub fn interpret(dialect: &Dialect, text: &str, target_label: &str) -> (r: Result<Vec<Vec<Action>>, InterpretError>)
    requires
        dialect.wf(),
    ensures
        match rewritten(dialect.name_view(), target_label.spec_bytes(), text.spec_bytes()) {
            None => search_gives(
                dialect.lexicon_view(),
                key_of(dialect.interner_view(), target_label.spec_bytes()),
                token_keys(dialect.interner_view(), text.spec_bytes()),
                outcome_view(r),
            ),
            Some(n) => exists|rn: Result<Seq<Seq<ActionV>>, InterpretError>| {
                &&& #[trigger] search_gives(
                    dialect.lexicon_view(),
                    key_of(dialect.interner_view(), target_label.spec_bytes()),
                    token_keys(dialect.interner_view(), n),
                    rn,
                )
                &&& rn is Err ==> outcome_view(r) == rn
                &&& (rn matches Ok(v) && v.len() > 0) ==> outcome_view(r) == rn
                &&& (rn matches Ok(v) && v.len() == 0) ==> search_gives(
                    dialect.lexicon_view(),
                    key_of(dialect.interner_view(), target_label.spec_bytes()),
                    token_keys(dialect.interner_view(), text.spec_bytes()),
                    outcome_view(r),
                )
            },
        },
{
    let text_bytes = str_bytes(text);
    let english = str_bytes("English");
    let sentence = str_bytes("Sentence");
    let label = str_bytes(target_label);
    if bytes_equal(dialect.name().as_slice(), english.as_slice()) && bytes_equal(label.as_slice(), sentence.as_slice()) {
        if let Some(normalized) = normalize_english_questions_for_legacy_grammar(text_bytes.as_slice()) {
            if !bytes_equal(normalized.as_slice(), text_bytes.as_slice()) {
                let found = search(dialect, normalized.as_slice(), target_label);
                let ghost rn = outcome_view(found);
                proof {
                    assert(rewritten(dialect.name_view(), target_label.spec_bytes(), text.spec_bytes()) == Some(normalized@));
                }
                match found {
                    Err(e) => {
                        return Err(e);
                    },
                    Ok(found) => {
                        if found.len() > 0 {
                            return Ok(found);
                        }
                        let r = search(dialect, text_bytes.as_slice(), target_label);
                        proof {
                            assert(search_gives(
                                dialect.lexicon_view(),
                                key_of(dialect.interner_view(), target_label.spec_bytes()),
                                token_keys(dialect.interner_view(), normalized@),
                                rn,
                            ));
                        }
                        return r;
                    },
                }
            }
        }
    }
    search(dialect, text_bytes.as_slice(), target_label)
}

} // verus!
