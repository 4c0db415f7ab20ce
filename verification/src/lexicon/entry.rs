use crate::syntax::{FeatureSet, Key, SyntaxValue, ValueV};
use crate::syntax::feature_set::map_subset;
use vstd::prelude::*;

verus! {

/// The mathematical value of a `LexiconNode`.
pub ghost enum LexNodeV {
    Value(ValueV),
    Lambda(Box<LexNodeV>, Box<LexNodeV>, bool),
    Moved(Map<Key, Option<Key>>),
}

/// The right-hand side of a lexicon rule: a value, a function from one node to
/// another (`project` says whether the argument's features pass up), or a moved
/// constituent that leaves a gap.
#[derive(Debug, PartialEq, Eq)]
pub enum LexiconNode {
    Value { value: SyntaxValue },
    Lambda { from: Box<LexiconNode>, to: Box<LexiconNode>, project: bool },
    Moved { from: FeatureSet },
}

pub open spec fn lex_node_view(n: LexiconNode) -> LexNodeV
    decreases n,
{
    match n {
        LexiconNode::Value { value } => LexNodeV::Value(value@),
        LexiconNode::Lambda { from, to, project } => LexNodeV::Lambda(
            Box::new(lex_node_view(*from)),
            Box::new(lex_node_view(*to)),
            project,
        ),
        LexiconNode::Moved { from } => LexNodeV::Moved(from@),
    }
}

impl View for LexiconNode {
    type V = LexNodeV;

    open spec fn view(&self) -> LexNodeV {
        lex_node_view(*self)
    }
}

impl LexiconNode {
    /// A copy with the same view.
    pub fn duplicate(&self) -> (r: Self)
        ensures
            r@ == self@,
        decreases self,
    {
        match self {
            LexiconNode::Value { value } => LexiconNode::Value { value: value.duplicate() },
            LexiconNode::Lambda { from, to, project } => {
                let f = (**from).duplicate();
                let t = (**to).duplicate();
                LexiconNode::Lambda { from: Box::new(f), to: Box::new(t), project: *project }
            },
            LexiconNode::Moved { from } => LexiconNode::Moved { from: from.duplicate() },
        }
    }

    /// Whether two nodes are equal as values.
    pub fn same_as(&self, other: &LexiconNode) -> (r: bool)
        ensures
            r == (self@ == other@),
        decreases self,
    {
        match (self, other) {
            (LexiconNode::Value { value: a }, LexiconNode::Value { value: b }) => a.same_as(b),
            (
                LexiconNode::Lambda { from: f1, to: t1, project: p1 },
                LexiconNode::Lambda { from: f2, to: t2, project: p2 },
            ) => {
                if *p1 != *p2 {
                    return false;
                }
                let a = (**f1).same_as(&**f2);
                if !a {
                    return false;
                }
                (**t1).same_as(&**t2)
            },
            (LexiconNode::Moved { from: a }, LexiconNode::Moved { from: b }) => a.same_as(b),
            _ => false,
        }
    }
}

/// The mathematical value of a `LexiconEntry`.
pub ghost enum EntryV {
    Lexical(LexNodeV),
    Functional(LexNodeV, Option<Map<Key, Option<Key>>>),
}

/// A rule of the lexicon: what a word stands for (`Lexical`), or what a bundle of
/// features may be expanded to (`Functional`), with the features to leave out
/// when the expanded node's features pass down.
#[derive(Debug, PartialEq, Eq)]
pub enum LexiconEntry {
    Lexical(LexiconNode),
    Functional { to: LexiconNode, project: Option<FeatureSet> },
}

impl View for LexiconEntry {
    type V = EntryV;

    open spec fn view(&self) -> EntryV {
        match self {
            LexiconEntry::Lexical(n) => EntryV::Lexical(n@),
            LexiconEntry::Functional { to, project } => EntryV::Functional(
                to@,
                match project {
                    Some(fs) => Some(fs@),
                    None => None,
                },
            ),
        }
    }
}

impl LexiconEntry {
    /// A copy with the same view.
    pub fn duplicate(&self) -> (r: Self)
        ensures
            r@ == self@,
    {
        match self {
            LexiconEntry::Lexical(n) => LexiconEntry::Lexical(n.duplicate()),
            LexiconEntry::Functional { to, project } => LexiconEntry::Functional {
                to: to.duplicate(),
                project: match project {
                    Some(fs) => Some(fs.duplicate()),
                    None => None,
                },
            },
        }
    }

    /// Whether two entries are equal as values.
    pub fn same_as(&self, other: &LexiconEntry) -> (r: bool)
        ensures
            r == (self@ == other@),
    {
        match (self, other) {
            (LexiconEntry::Lexical(a), LexiconEntry::Lexical(b)) => a.same_as(b),
            (LexiconEntry::Functional { to: t1, project: p1 }, LexiconEntry::Functional { to: t2, project: p2 }) => {
                let same_to = t1.same_as(t2);
                let same_project = match (p1, p2) {
                    (Some(a), Some(b)) => a.same_as(b),
                    (None, None) => true,
                    _ => false,
                };
                same_to && same_project
            },
            _ => false,
        }
    }
}

/// Whether a rule stored under `key` answers the query `query`: a word answers
/// only itself, and a bundle of features answers every bundle that holds it.
pub open spec fn key_matches(key: ValueV, query: ValueV) -> bool {
    match (key, query) {
        (ValueV::Item(a), ValueV::Item(b)) => a == b,
        (ValueV::Features(k), ValueV::Features(q)) => map_subset(k, q),
        _ => false,
    }
}

/// The entries of the rules in `rules` that answer `query`, in the order of the rules.
pub open spec fn entries_for(rules: Seq<(ValueV, EntryV)>, query: ValueV) -> Seq<EntryV>
    decreases rules.len(),
{
    if rules.len() == 0 {
        Seq::empty()
    } else {
        let rest = entries_for(rules.drop_last(), query);
        if key_matches(rules.last().0, query) {
            rest.push(rules.last().1)
        } else {
            rest
        }
    }
}

/// The entry that a rule from `from` to `to` adds.
pub open spec fn entry_of_rule(from: ValueV, to: LexNodeV) -> EntryV {
    match from {
        ValueV::Item(_) => EntryV::Lexical(to),
        ValueV::Features(fs) => EntryV::Functional(to, Some(fs)),
    }
}

/// The lexicon `lex` with the rule from `from` to `to` added, unless it is there already.
pub open spec fn lexicon_add(lex: Seq<(ValueV, EntryV)>, from: ValueV, to: LexNodeV) -> Seq<(ValueV, EntryV)> {
    let e = (from, entry_of_rule(from, to));
    if lex.contains(e) {
        lex
    } else {
        lex.push(e)
    }
}

proof fn lemma_entries_for_contains(rules: Seq<(ValueV, EntryV)>, i: int, query: ValueV)
    requires
        0 <= i < rules.len(),
        key_matches(rules[i].0, query),
    ensures
        entries_for(rules, query).contains(rules[i].1),
    decreases rules.len(),
{
    let rest = entries_for(rules.drop_last(), query);
    if i == rules.len() - 1 {
        assert(entries_for(rules, query).last() == rules[i].1);
    } else {
        assert(rules.drop_last()[i] == rules[i]);
        lemma_entries_for_contains(rules.drop_last(), i, query);
        let j = choose|j: int| 0 <= j < rest.len() && rest[j] == rules[i].1;
        if key_matches(rules.last().0, query) {
            assert(entries_for(rules, query)[j] == rest[j]);
        }
    }
}

/// What a lookup gives back of an addition: once a rule is added, its entry is among
/// the entries that answer its own key; and adding a rule a second time changes nothing.
pub proof fn law_added_rule_answers_its_key(lex: Seq<(ValueV, EntryV)>, from: ValueV, to: LexNodeV)
    ensures
        entries_for(lexicon_add(lex, from, to), from).contains(entry_of_rule(from, to)),
        lexicon_add(lexicon_add(lex, from, to), from, to) == lexicon_add(lex, from, to),
{
    let e = (from, entry_of_rule(from, to));
    let l2 = lexicon_add(lex, from, to);
    assert(key_matches(from, from));
    if lex.contains(e) {
        let i = choose|i: int| 0 <= i < lex.len() && lex[i] == e;
        lemma_entries_for_contains(lex, i, from);
    } else {
        assert(l2[l2.len() - 1] == e);
        lemma_entries_for_contains(l2, l2.len() - 1, from);
        assert(l2.contains(e));
    }
}

/// Every value is answered by entries that are all different.
pub open spec fn answers_distinct(lex: Seq<(ValueV, EntryV)>) -> bool {
    forall|v: ValueV| #[trigger] entries_for(lex, v).no_duplicates()
}

/// A rule has the shape that adding a rule gives it: a word stands for a lexical
/// entry, a bundle of features for a functional entry that leaves those features out.
pub open spec fn rule_shaped(r: (ValueV, EntryV)) -> bool {
    match r.0 {
        ValueV::Item(_) => r.1 is Lexical,
        ValueV::Features(fs) => r.1 matches EntryV::Functional(_, Some(f)) && f == fs,
    }
}

/// An entry that answers a query comes from a rule whose key matches it.
proof fn lemma_entries_for_member(rules: Seq<(ValueV, EntryV)>, query: ValueV, x: EntryV)
    requires
        entries_for(rules, query).contains(x),
    ensures
        exists|i: int| 0 <= i < rules.len() && #[trigger] rules[i].1 == x && key_matches(rules[i].0, query),
    decreases rules.len(),
{
    let rest = entries_for(rules.drop_last(), query);
    if rest.contains(x) {
        lemma_entries_for_member(rules.drop_last(), query, x);
        let i = choose|i: int| 0 <= i < rules.drop_last().len() && #[trigger] rules.drop_last()[i].1 == x
            && key_matches(rules.drop_last()[i].0, query);
        assert(rules[i] == rules.drop_last()[i]);
    } else {
        let w = choose|w: int| 0 <= w < entries_for(rules, query).len() && entries_for(rules, query)[w] == x;
        assert(rules[rules.len() - 1].1 == x);
    }
}

/// Adding rules one by one, as a lexicon is built, answers every value with entries
/// that are all different: the empty lexicon does, and adding a rule keeps it so.
pub proof fn law_added_rules_answer_once(lex: Seq<(ValueV, EntryV)>, from: ValueV, to: LexNodeV)
    requires
        forall|i: int| 0 <= i < lex.len() ==> rule_shaped(#[trigger] lex[i]),
        answers_distinct(lex),
    ensures
        answers_distinct(Seq::<(ValueV, EntryV)>::empty()),
        forall|i: int| 0 <= i < lexicon_add(lex, from, to).len() ==> rule_shaped(#[trigger] lexicon_add(lex, from, to)[i]),
        answers_distinct(lexicon_add(lex, from, to)),
{
    let e = (from, entry_of_rule(from, to));
    let l2 = lexicon_add(lex, from, to);
    assert forall|v: ValueV| #[trigger] entries_for(Seq::<(ValueV, EntryV)>::empty(), v).no_duplicates() by {
        assert(entries_for(Seq::<(ValueV, EntryV)>::empty(), v).len() == 0);
    }
    if !lex.contains(e) {
        assert forall|i: int| 0 <= i < l2.len() implies rule_shaped(#[trigger] l2[i]) by {
            if i < lex.len() {
                assert(l2[i] == lex[i]);
            }
        }
        assert forall|v: ValueV| #[trigger] entries_for(l2, v).no_duplicates() by {
            assert(l2.drop_last() =~= lex);
            assert(entries_for(lex, v).no_duplicates());
            if key_matches(from, v) {
                if entries_for(lex, v).contains(e.1) {
                    lemma_entries_for_member(lex, v, e.1);
                    let i = choose|i: int| 0 <= i < lex.len() && #[trigger] lex[i].1 == e.1 && key_matches(lex[i].0, v);
                    assert(rule_shaped(lex[i]));
                    assert(lex[i] == e);
                }
                let s0 = entries_for(lex, v);
                assert(entries_for(l2, v) == s0.push(e.1));
                assert forall|p: int, q: int| 0 <= p < entries_for(l2, v).len() && 0 <= q < entries_for(l2, v).len() && p != q
                    implies entries_for(l2, v)[p] != entries_for(l2, v)[q] by {
                    if p < s0.len() && q < s0.len() {
                    } else if p < s0.len() {
                        assert(s0.contains(s0[p]));
                    } else {
                        assert(s0.contains(s0[q]));
                    }
                }
            }
        }
    }
}

/// A lexicon: a list of rules, each a key and the entry it stands for.
#[derive(Debug)]
pub struct SimpleLexicon {
    rules: Vec<(SyntaxValue, LexiconEntry)>,
}

impl View for SimpleLexicon {
    type V = Seq<(ValueV, EntryV)>;

    closed spec fn view(&self) -> Seq<(ValueV, EntryV)> {
        self.rules@.map_values(|r: (SyntaxValue, LexiconEntry)| (r.0@, r.1@))
    }
}

impl SimpleLexicon {
    /// An empty lexicon.
    pub fn new() -> (r: Self)
        ensures
            r@ == Seq::<(ValueV, EntryV)>::empty(),
    {
        SimpleLexicon { rules: Vec::new() }
    }

    /// Adds the rule from `from` to `to`; a rule that is already there is not added twice.
    pub fn add_entry(&mut self, from: SyntaxValue, to: LexiconNode)
        ensures
            final(self)@ == lexicon_add(old(self)@, from@, to@),
    {
        let ghost to_view = to@;
        let entry = match &from {
            SyntaxValue::Item(_) => LexiconEntry::Lexical(to),
            SyntaxValue::Features(fs) => LexiconEntry::Functional { to, project: Some(fs.duplicate()) },
        };
        let ghost rule = (from@, entry@);
        let mut i: usize = 0;
        while i < self.rules.len()
            invariant
                0 <= i <= self.rules@.len(),
                self@.len() == self.rules@.len(),
                forall|j: int| 0 <= j < i ==> #[trigger] self@[j] != rule,
                rule == (from@, entry@),
                entry@ == entry_of_rule(from@, to_view),
                to_view == to@,
                self@ == old(self)@,
            decreases self.rules@.len() - i,
        {
            let same_key = self.rules[i].0.same_as(&from);
            let same_entry = self.rules[i].1.same_as(&entry);
            let same = same_key && same_entry;
            assert(self@[i as int] == (self.rules@[i as int].0@, self.rules@[i as int].1@));
            assert(same_key == (self.rules@[i as int].0@ == from@));
            assert(same_entry == (self.rules@[i as int].1@ == entry@));
            assert(rule == (from@, entry@));
            if same {
                assert(self@[i as int] == rule);
                assert(old(self)@.contains(rule));
                return;
            }
            i = i + 1;
        }
        self.rules.push((from, entry));
        proof {
            assert(self@ =~= old(self)@.push(rule));
        }
    }

    /// The entries of the rules that answer `value`, in the order the rules were added.
    pub fn get_entries(&self, value: &SyntaxValue) -> (r: Vec<LexiconEntry>)
        ensures
            r@.map_values(|e: LexiconEntry| e@) == entries_for(self@, value@),
    {
        let mut out: Vec<LexiconEntry> = Vec::new();
        let mut i: usize = 0;
        while i < self.rules.len()
            invariant
                0 <= i <= self.rules@.len(),
                self@.len() == self.rules@.len(),
                out@.map_values(|e: LexiconEntry| e@) == entries_for(self@.take(i as int), value@),
            decreases self.rules@.len() - i,
        {
            let hit = rule_answers(&self.rules[i].0, value);
            proof {
                assert(self@.take(i + 1).drop_last() =~= self@.take(i as int));
            }
            if hit {
                out.push(self.rules[i].1.duplicate());
                assert(out@.map_values(|e: LexiconEntry| e@) =~= entries_for(self@.take(i + 1), value@));
            } else {
                assert(out@.map_values(|e: LexiconEntry| e@) =~= entries_for(self@.take(i + 1), value@));
            }
            i = i + 1;
        }
        assert(self@.take(self@.len() as int) =~= self@);
        out
    }
}

/// Whether a rule keyed by `key` answers `query`.
pub fn rule_answers(key: &SyntaxValue, query: &SyntaxValue) -> (r: bool)
    ensures
        r == key_matches(key@, query@),
{
    match (key, query) {
        (SyntaxValue::Item(a), SyntaxValue::Item(b)) => *a == *b,
        (SyntaxValue::Features(k), SyntaxValue::Features(q)) => k.is_subset(q),
        _ => false,
    }
}

} // verus!
