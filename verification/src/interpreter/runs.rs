use super::action::ActionV;
use super::interpret::{spec_demand, spec_wonder};
use crate::cognitive::lambda::laws::{lemma_decide_expects, lemma_receive_expects};
use crate::cognitive::lambda::model::{same_search_state, spec_decide, spec_receive, LambdaV};
use crate::lexicon::entry::entries_for;
use crate::lexicon::EntryV;
use crate::syntax::{Key, ValueV};
use vstd::prelude::*;

verus! {

/// One action taken at word `o` of `toks` in model `m`: the word and model it leads
/// to, or `None` where the action cannot be taken there.
pub open spec fn act_step(lex: Seq<(ValueV, EntryV)>, toks: Seq<Option<Key>>, o: int, m: LambdaV, a: ActionV) -> Option<(int, LambdaV)> {
    match a {
        ActionV::AddToken(k) => if 0 <= o < toks.len() && toks[o] == Some(k) && spec_demand(m) && spec_receive(m, k).1 is Ok {
            Some((o + 1, spec_receive(m, k).0))
        } else {
            None
        },
        ActionV::ApplyEntry(e) => if spec_wonder(m) is Some && entries_for(lex, spec_wonder(m)->Some_0).contains(e) && spec_decide(m, e).1 is Ok {
            Some((o, spec_decide(m, e).0))
        } else {
            None
        },
    }
}

/// The actions `acts` taken one after another from word `o` in model `m`.
pub open spec fn run(lex: Seq<(ValueV, EntryV)>, toks: Seq<Option<Key>>, o: int, m: LambdaV, acts: Seq<ActionV>) -> Option<(int, LambdaV)>
    decreases acts.len(),
{
    if acts.len() == 0 {
        Some((o, m))
    } else {
        match act_step(lex, toks, o, m, acts[0]) {
            Some((o2, m2)) => run(lex, toks, o2, m2, acts.drop_first()),
            None => None,
        }
    }
}

/// The nonempty run `c` from word `o` in model `m` comes back to the same word with the
/// same expectations.
pub open spec fn loops(lex: Seq<(ValueV, EntryV)>, toks: Seq<Option<Key>>, o: int, m: LambdaV, c: Seq<ActionV>) -> bool {
    &&& c.len() > 0
    &&& run(lex, toks, o, m, c) matches Some((o2, m2))
    &&& o2 == o
    &&& m2.expects == m.expects
}

/// No state that can be reached from word `o` in model `m` lies on a loop.
pub open spec fn cycle_free(lex: Seq<(ValueV, EntryV)>, toks: Seq<Option<Key>>, o: int, m: LambdaV) -> bool {
    forall|p: Seq<ActionV>, c: Seq<ActionV>|
        run(lex, toks, o, m, p) is Some ==> !#[trigger] loops(
            lex,
            toks,
            run(lex, toks, o, m, p)->Some_0.0,
            run(lex, toks, o, m, p)->Some_0.1,
            c,
        )
}

/// Some run from word `o1` in model `m1` reaches word `o2` with the expectations of `m2`.
pub open spec fn reaches(lex: Seq<(ValueV, EntryV)>, toks: Seq<Option<Key>>, o1: int, m1: LambdaV, o2: int, m2: LambdaV) -> bool {
    exists|p: Seq<ActionV>| #[trigger] run(lex, toks, o1, m1, p) matches Some((oo, mm)) && oo == o2 && mm.expects == m2.expects
}

/// A run of two parts is the second part run from where the first part ends.
pub proof fn lemma_run_concat(lex: Seq<(ValueV, EntryV)>, toks: Seq<Option<Key>>, o: int, m: LambdaV, x: Seq<ActionV>, y: Seq<ActionV>)
    ensures
        run(lex, toks, o, m, x + y) == match run(lex, toks, o, m, x) {
            Some((o1, m1)) => run(lex, toks, o1, m1, y),
            None => None,
        },
    decreases x.len(),
{
    if x.len() > 0 {
        assert((x + y)[0] == x[0]);
        assert((x + y).drop_first() =~= x.drop_first() + y);
        if let Some((o2, m2)) = act_step(lex, toks, o, m, x[0]) {
            lemma_run_concat(lex, toks, o2, m2, x.drop_first(), y);
        }
    } else {
        assert(x + y =~= y);
    }
}

/// A run depends on the expectations of the model alone.
pub proof fn lemma_run_expects(lex: Seq<(ValueV, EntryV)>, toks: Seq<Option<Key>>, o: int, m1: LambdaV, m2: LambdaV, acts: Seq<ActionV>)
    requires
        m1.expects == m2.expects,
    ensures
        run(lex, toks, o, m1, acts) is Some <==> run(lex, toks, o, m2, acts) is Some,
        run(lex, toks, o, m1, acts) is Some ==> run(lex, toks, o, m1, acts)->Some_0.0 == run(lex, toks, o, m2, acts)->Some_0.0
            && run(lex, toks, o, m1, acts)->Some_0.1.expects == run(lex, toks, o, m2, acts)->Some_0.1.expects,
    decreases acts.len(),
{
    if acts.len() > 0 {
        match acts[0] {
            ActionV::AddToken(k) => {
                lemma_receive_expects(m1, m2, k);
                lemma_run_expects(lex, toks, o + 1, spec_receive(m1, k).0, spec_receive(m2, k).0, acts.drop_first());
            },
            ActionV::ApplyEntry(e) => {
                lemma_decide_expects(m1, m2, e);
                lemma_run_expects(lex, toks, o, spec_decide(m1, e).0, spec_decide(m2, e).0, acts.drop_first());
            },
        }
    }
}

/// A state without loops reachable from it is on no loop itself.
pub proof fn lemma_cycle_free_no_loop(lex: Seq<(ValueV, EntryV)>, toks: Seq<Option<Key>>, o: int, m: LambdaV, c: Seq<ActionV>)
    requires
        cycle_free(lex, toks, o, m),
    ensures
        !loops(lex, toks, o, m, c),
{
    let p = Seq::<ActionV>::empty();
    assert(run(lex, toks, o, m, p) == Some((o, m)));
    assert(!loops(lex, toks, run(lex, toks, o, m, p)->Some_0.0, run(lex, toks, o, m, p)->Some_0.1, c));
}

/// Every state reached from a state without loops is without loops.
pub proof fn lemma_cycle_free_step(lex: Seq<(ValueV, EntryV)>, toks: Seq<Option<Key>>, o: int, m: LambdaV, a: ActionV)
    requires
        cycle_free(lex, toks, o, m),
        act_step(lex, toks, o, m, a) is Some,
    ensures
        cycle_free(lex, toks, act_step(lex, toks, o, m, a)->Some_0.0, act_step(lex, toks, o, m, a)->Some_0.1),
{
    let (o1, m1) = act_step(lex, toks, o, m, a)->Some_0;
    assert forall|p: Seq<ActionV>, c: Seq<ActionV>| run(lex, toks, o1, m1, p) is Some implies !#[trigger] loops(
        lex,
        toks,
        run(lex, toks, o1, m1, p)->Some_0.0,
        run(lex, toks, o1, m1, p)->Some_0.1,
        c,
    ) by {
        let q = seq![a] + p;
        assert(q[0] == a);
        assert(q.drop_first() =~= p);
        assert(run(lex, toks, o, m, q) == run(lex, toks, o1, m1, p));
        assert(!loops(lex, toks, run(lex, toks, o, m, q)->Some_0.0, run(lex, toks, o, m, q)->Some_0.1, c));
    }
}

/// Being without loops depends on the expectations of the model alone.
pub proof fn lemma_cycle_free_expects(lex: Seq<(ValueV, EntryV)>, toks: Seq<Option<Key>>, o: int, m1: LambdaV, m2: LambdaV)
    requires
        cycle_free(lex, toks, o, m1),
        m1.expects == m2.expects,
    ensures
        cycle_free(lex, toks, o, m2),
{
    assert forall|p: Seq<ActionV>, c: Seq<ActionV>| run(lex, toks, o, m2, p) is Some implies !#[trigger] loops(
        lex,
        toks,
        run(lex, toks, o, m2, p)->Some_0.0,
        run(lex, toks, o, m2, p)->Some_0.1,
        c,
    ) by {
        lemma_run_expects(lex, toks, o, m1, m2, p);
        let (o1, q1) = run(lex, toks, o, m1, p)->Some_0;
        let (o2, q2) = run(lex, toks, o, m2, p)->Some_0;
        assert(!loops(lex, toks, o1, q1, c));
        lemma_run_expects(lex, toks, o1, q1, q2, c);
    }
}

/// A state that reaches a loop through `T` closes a loop at `T`: where `T` steps by `a`
/// to a state with the position and expectations of `v`, and `v` reaches `T`, the
/// run `a` followed by the way from `v` to `T` comes back to `T`.
pub proof fn lemma_back_edge_loops(
    lex: Seq<(ValueV, EntryV)>,
    toks: Seq<Option<Key>>,
    o: int,
    m: LambdaV,
    a: ActionV,
    vo: int,
    vm: LambdaV,
)
    requires
        act_step(lex, toks, o, m, a) matches Some((o1, m1)) && o1 == vo && m1.expects == vm.expects,
        reaches(lex, toks, vo, vm, o, m),
    ensures
        !cycle_free(lex, toks, o, m),
{
    let (o1, m1) = act_step(lex, toks, o, m, a)->Some_0;
    let p = choose|p: Seq<ActionV>| #[trigger] run(lex, toks, vo, vm, p) matches Some((oo, mm)) && oo == o && mm.expects == m.expects;
    let c = seq![a] + p;
    assert(c[0] == a);
    assert(c.drop_first() =~= p);
    lemma_run_expects(lex, toks, vo, vm, m1, p);
    assert(run(lex, toks, o, m, c) == run(lex, toks, o1, m1, p));
    assert(loops(lex, toks, o, m, c));
    if cycle_free(lex, toks, o, m) {
        lemma_cycle_free_no_loop(lex, toks, o, m, c);
    }
}

/// What reaches `T` reaches where `T` steps by `a`.
pub proof fn lemma_reaches_step(
    lex: Seq<(ValueV, EntryV)>,
    toks: Seq<Option<Key>>,
    vo: int,
    vm: LambdaV,
    o: int,
    m: LambdaV,
    a: ActionV,
)
    requires
        reaches(lex, toks, vo, vm, o, m),
        act_step(lex, toks, o, m, a) is Some,
    ensures
        reaches(lex, toks, vo, vm, act_step(lex, toks, o, m, a)->Some_0.0, act_step(lex, toks, o, m, a)->Some_0.1),
{
    let (o1, m1) = act_step(lex, toks, o, m, a)->Some_0;
    let p = choose|p: Seq<ActionV>| #[trigger] run(lex, toks, vo, vm, p) matches Some((oo, mm)) && oo == o && mm.expects == m.expects;
    let (oo, mm) = run(lex, toks, vo, vm, p)->Some_0;
    lemma_run_concat(lex, toks, vo, vm, p, seq![a]);
    lemma_run_expects(lex, toks, o, mm, m, seq![a]);
    assert(seq![a].drop_first() =~= Seq::<ActionV>::empty());
    assert(run(lex, toks, o1, m1, Seq::<ActionV>::empty()) == Some((o1, m1)));
    assert(run(lex, toks, o, m, seq![a]) == act_step(lex, toks, o, m, a));
    assert(run(lex, toks, vo, vm, p + seq![a]) matches Some((ox, mx)) && ox == o1 && mx.expects == m1.expects);
}

/// Every state reaches itself.
pub proof fn lemma_reaches_self(lex: Seq<(ValueV, EntryV)>, toks: Seq<Option<Key>>, o: int, m: LambdaV)
    ensures
        reaches(lex, toks, o, m, o, m),
{
    assert(run(lex, toks, o, m, Seq::<ActionV>::empty()) == Some((o, m)));
}

/// The states a run passes through, from its start: each a word position and a model.
pub open spec fn run_states(lex: Seq<(ValueV, EntryV)>, toks: Seq<Option<Key>>, o: int, m: LambdaV, p: Seq<ActionV>) -> Seq<(int, LambdaV)>
    decreases p.len(),
{
    if p.len() == 0 {
        seq![(o, m)]
    } else {
        match act_step(lex, toks, o, m, p[0]) {
            Some((o1, m1)) => seq![(o, m)] + run_states(lex, toks, o1, m1, p.drop_first()),
            None => seq![(o, m)],
        }
    }
}

/// Two states count as one for the search: the same word, the same expectations, and
/// the same pending requirements.
pub open spec fn same_place(x: (int, LambdaV), y: (int, LambdaV)) -> bool {
    x.0 == y.0 && same_search_state(x.1, y.1)
}

/// No state occurs twice.
pub open spec fn states_distinct(s: Seq<(int, LambdaV)>) -> bool {
    forall|i: int, j: int| 0 <= i < j < s.len() ==> !same_place(s[i], s[j])
}

/// Some run of exactly `n` actions from word `o` in model `m` never comes back to a
/// state it passed.
pub open spec fn simple_runs_for(lex: Seq<(ValueV, EntryV)>, toks: Seq<Option<Key>>, o: int, m: LambdaV, n: nat) -> bool {
    exists|p: Seq<ActionV>|
        p.len() == n && #[trigger] run(lex, toks, o, m, p) is Some && states_distinct(run_states(lex, toks, o, m, p))
}

} // verus!
