use crate::lexicon::{EntryV, LexiconEntry};
use crate::syntax::Key;
use vstd::prelude::*;

verus! {

/// The mathematical value of an action.
pub ghost enum ActionV {
    AddToken(Key),
    ApplyEntry(EntryV),
}

/// One step of a derivation: take in the next word, or apply a lexicon entry.
#[derive(Debug, PartialEq, Eq)]
pub enum Action {
    AddToken(Key),
    ApplyEntry(LexiconEntry),
}

impl View for Action {
    type V = ActionV;

    open spec fn view(&self) -> ActionV {
        match self {
            Action::AddToken(k) => ActionV::AddToken(*k),
            Action::ApplyEntry(e) => ActionV::ApplyEntry(e@),
        }
    }
}

/// The views of a list of actions.
pub open spec fn actions_view(a: Seq<Action>) -> Seq<ActionV> {
    a.map_values(|x: Action| x@)
}

impl Action {
    /// A copy with the same view.
    pub fn duplicate(&self) -> (r: Self)
        ensures
            r@ == self@,
    {
        match self {
            Action::AddToken(k) => Action::AddToken(*k),
            Action::ApplyEntry(e) => Action::ApplyEntry(e.duplicate()),
        }
    }
}

/// The list `first` followed by a copy of `rest`.
pub fn prepend(first: Action, rest: &Vec<Action>) -> (r: Vec<Action>)
    ensures
        actions_view(r@) == seq![first@] + actions_view(rest@),
{
    let mut out: Vec<Action> = Vec::new();
    let ghost f = first@;
    out.push(first);
    let mut i: usize = 0;
    while i < rest.len()
        invariant
            0 <= i <= rest@.len(),
            actions_view(out@) == seq![f] + actions_view(rest@).take(i as int),
        decreases rest@.len() - i,
    {
        let d = rest[i].duplicate();
        let ghost prev = out@;
        out.push(d);
        assert(actions_view(out@) =~= actions_view(prev).push(rest@[i as int]@));
        assert(actions_view(rest@).take(i + 1) =~= actions_view(rest@).take(i as int).push(rest@[i as int]@));
        i = i + 1;
    }
    assert(actions_view(rest@).take(rest@.len() as int) =~= actions_view(rest@));
    out
}

} // verus!
