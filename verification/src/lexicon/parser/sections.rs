use super::expand::{expand_fset, expand_node, keys_of, parse_feature_set, parse_syntax_node, parse_word, readings_view, SubstitutionTable};
use super::syntax::{read_file, read_lexicon_text, FileAst, LexiconSyntax, NodeAst, NodeSyntax};
use super::topology::{ft_insert, FeatureTopology};
use crate::interner::{key_or_next, Interner};
use crate::lexicon::entry::{lexicon_add, EntryV, LexNodeV, SimpleLexicon};
use crate::syntax::render::bytes_to_string;
use crate::syntax::{Key, SyntaxValue, ValueV};
use crate::text::{append_bytes, decimal, decimal_bytes, str_bytes};
use crate::tokenizer::views;
use vstd::prelude::*;
use vstd::string::StringSliceAdditionalSpecFns;

verus! {

// ---------------------------------------------------------------------------
// The words of a file and the table that holds them.
// ---------------------------------------------------------------------------

/// The words of a node, left to right.
pub open spec fn node_words(n: NodeAst) -> Seq<Seq<u8>>
    decreases n,
{
    match n {
        NodeAst::Features(ws) => ws,
        NodeAst::Moved(ws) => ws,
        NodeAst::Lambda(l, r, _) => node_words(*l) + node_words(*r),
    }
}

pub open spec fn feature_words(es: Seq<(Seq<u8>, Seq<Seq<u8>>)>) -> Seq<Seq<u8>>
    decreases es.len(),
{
    if es.len() == 0 {
        Seq::empty()
    } else {
        feature_words(es.drop_last()) + seq![es.last().0] + es.last().1
    }
}

pub open spec fn functional_words(es: Seq<(Seq<Seq<u8>>, NodeAst)>) -> Seq<Seq<u8>>
    decreases es.len(),
{
    if es.len() == 0 {
        Seq::empty()
    } else {
        functional_words(es.drop_last()) + es.last().0 + node_words(es.last().1)
    }
}

pub open spec fn lexical_words(es: Seq<(Seq<u8>, NodeAst)>) -> Seq<Seq<u8>>
    decreases es.len(),
{
    if es.len() == 0 {
        Seq::empty()
    } else {
        lexical_words(es.drop_last()) + seq![es.last().0] + node_words(es.last().1)
    }
}

/// Every word of the file, section by section, entry by entry, left to right.
pub open spec fn file_words(f: FileAst) -> Seq<Seq<u8>> {
    feature_words(f.features) + functional_words(f.functional) + lexical_words(f.lexical)
}

/// The table with `w` added when it lacks it.
pub open spec fn add_word(t: Seq<Seq<u8>>, w: Seq<u8>) -> Seq<Seq<u8>> {
    if t.contains(w) {
        t
    } else {
        t.push(w)
    }
}

/// The table with the words `ws` added in order.
pub open spec fn intern_all(t: Seq<Seq<u8>>, ws: Seq<Seq<u8>>) -> Seq<Seq<u8>>
    decreases ws.len(),
{
    if ws.len() == 0 {
        t
    } else {
        add_word(intern_all(t, ws.drop_last()), ws.last())
    }
}

// ---------------------------------------------------------------------------
// The topology and the rules of a file.
// ---------------------------------------------------------------------------

/// The topology with the values `vs` declared for the category `c`, in order.
pub open spec fn values_into(ft: Seq<(Key, Key)>, c: Key, vs: Seq<Key>) -> Seq<(Key, Key)>
    decreases vs.len(),
{
    if vs.len() == 0 {
        ft
    } else {
        ft_insert(values_into(ft, c, vs.drop_last()), c, vs.last())
    }
}

/// The topology that the feature section declares, words read in the table `t`.
pub open spec fn topology_of(t: Seq<Seq<u8>>, es: Seq<(Seq<u8>, Seq<Seq<u8>>)>) -> Seq<(Key, Key)>
    decreases es.len(),
{
    if es.len() == 0 {
        Seq::empty()
    } else {
        values_into(topology_of(t, es.drop_last()), key_or_next(t, es.last().0), keys_of(t, es.last().1))
    }
}

/// The rules from each reading of a left-hand side to each reading of `rhs` under its bindings.
pub open spec fn from_pairs(
    t: Seq<Seq<u8>>,
    ft: Seq<(Key, Key)>,
    froms: Seq<(Map<Key, Option<Key>>, Map<Key, (Key, Option<Key>)>)>,
    rhs: NodeAst,
) -> Seq<(ValueV, LexNodeV)>
    decreases froms.len(),
{
    if froms.len() == 0 {
        Seq::empty()
    } else {
        let (fs, s) = froms.last();
        from_pairs(t, ft, froms.drop_last(), rhs) + expand_node(t, ft, rhs, s).map_values(
            |q: (LexNodeV, Map<Key, (Key, Option<Key>)>)| (ValueV::Features(fs), q.0),
        )
    }
}

/// The rules of the functional section, in order.
pub open spec fn functional_rules(t: Seq<Seq<u8>>, ft: Seq<(Key, Key)>, es: Seq<(Seq<Seq<u8>>, NodeAst)>) -> Seq<(ValueV, LexNodeV)>
    decreases es.len(),
{
    if es.len() == 0 {
        Seq::empty()
    } else {
        functional_rules(t, ft, es.drop_last()) + from_pairs(
            t,
            ft,
            expand_fset(ft, keys_of(t, es.last().0), Map::empty()),
            es.last().1,
        )
    }
}

/// The rules of the lexical section, in order.
pub open spec fn lexical_rules(t: Seq<Seq<u8>>, ft: Seq<(Key, Key)>, es: Seq<(Seq<u8>, NodeAst)>) -> Seq<(ValueV, LexNodeV)>
    decreases es.len(),
{
    if es.len() == 0 {
        Seq::empty()
    } else {
        lexical_rules(t, ft, es.drop_last()) + expand_node(t, ft, es.last().1, Map::empty()).map_values(
            |q: (LexNodeV, Map<Key, (Key, Option<Key>)>)| (ValueV::Item(key_or_next(t, es.last().0)), q.0),
        )
    }
}

/// Every rule of the file: the functional ones, then the lexical ones.
pub open spec fn file_rules(t: Seq<Seq<u8>>, f: FileAst) -> Seq<(ValueV, LexNodeV)> {
    let ft = topology_of(t, f.features);
    functional_rules(t, ft, f.functional) + lexical_rules(t, ft, f.lexical)
}

/// The lexicon with the rule `r` added, unless it is there already.
pub open spec fn add_rule(lex: Seq<(ValueV, EntryV)>, r: (ValueV, LexNodeV)) -> Seq<(ValueV, EntryV)> {
    lexicon_add(lex, r.0, r.1)
}

/// The lexicon with the rules `rs` added in order.
pub open spec fn add_rules(lex: Seq<(ValueV, EntryV)>, rs: Seq<(ValueV, LexNodeV)>) -> Seq<(ValueV, EntryV)>
    decreases rs.len(),
{
    if rs.len() == 0 {
        lex
    } else {
        add_rule(add_rules(lex, rs.drop_last()), rs.last())
    }
}

/// The message for a file with an error on line `n`.
pub open spec fn line_error_text(n: nat) -> Seq<u8> {
    "syntax error on line ".spec_bytes() + decimal(n)
}

/// What reading the lexicon file `text` does, given the table `t0` and the lexicon
/// `lex0`: the new table, the new lexicon, and the error, if any (`Some(n)` for a
/// syntax error on line `n`, `None` for a table with no room left for the words).
pub open spec fn parse_outcome(text: Seq<u8>, t0: Seq<Seq<u8>>, lex0: Seq<(ValueV, EntryV)>) -> Result<
    (Seq<Seq<u8>>, Seq<(ValueV, EntryV)>),
    Option<nat>,
> {
    match read_file(text) {
        Err(n) => Err(Some(n)),
        Ok(f) => {
            let t = intern_all(t0, file_words(f));
            if t.len() > u64::MAX {
                Err(None)
            } else {
                Ok((t, add_rules(lex0, file_rules(t, f))))
            }
        },
    }
}

// ---------------------------------------------------------------------------
// Lemmas.
// ---------------------------------------------------------------------------

proof fn lemma_add_rules_concat(lex: Seq<(ValueV, EntryV)>, a: Seq<(ValueV, LexNodeV)>, b: Seq<(ValueV, LexNodeV)>)
    ensures
        add_rules(lex, a + b) == add_rules(add_rules(lex, a), b),
    decreases b.len(),
{
    if b.len() == 0 {
        assert(a + b =~= a);
    } else {
        assert((a + b).drop_last() =~= a + b.drop_last());
        lemma_add_rules_concat(lex, a, b.drop_last());
    }
}

proof fn lemma_intern_all_concat(t: Seq<Seq<u8>>, a: Seq<Seq<u8>>, b: Seq<Seq<u8>>)
    ensures
        intern_all(t, a + b) == intern_all(intern_all(t, a), b),
    decreases b.len(),
{
    if b.len() == 0 {
        assert(a + b =~= a);
    } else {
        assert((a + b).drop_last() =~= a + b.drop_last());
        lemma_intern_all_concat(t, a, b.drop_last());
    }
}

proof fn lemma_intern_all_grows(t: Seq<Seq<u8>>, ws: Seq<Seq<u8>>)
    ensures
        t.len() <= intern_all(t, ws).len(),
        forall|i: int| 0 <= i < t.len() ==> #[trigger] intern_all(t, ws)[i] == t[i],
        forall|w: Seq<u8>| t.contains(w) ==> #[trigger] intern_all(t, ws).contains(w),
        forall|i: int| 0 <= i < ws.len() ==> intern_all(t, ws).contains(#[trigger] ws[i]),
    decreases ws.len(),
{
    if ws.len() > 0 {
        lemma_intern_all_grows(t, ws.drop_last());
        let p = intern_all(t, ws.drop_last());
        assert forall|w: Seq<u8>| p.contains(w) implies #[trigger] add_word(p, ws.last()).contains(w) by {
            let j = choose|j: int| 0 <= j < p.len() && p[j] == w;
            assert(add_word(p, ws.last())[j] == w);
        }
        assert forall|i: int| 0 <= i < ws.len() implies add_word(p, ws.last()).contains(#[trigger] ws[i]) by {
            if i < ws.len() - 1 {
                assert(ws.drop_last()[i] == ws[i]);
                assert(p.contains(ws[i]));
            } else if !p.contains(ws.last()) {
                assert(add_word(p, ws.last())[p.len() as int] == ws.last());
            }
        }
    }
}

// ---------------------------------------------------------------------------
// Executable counterparts.
// ---------------------------------------------------------------------------

fn push_words(out: &mut Vec<Vec<u8>>, ws: &Vec<Vec<u8>>)
    ensures
        views(final(out)@) == views(old(out)@) + views(ws@),
{
    let mut i: usize = 0;
    while i < ws.len()
        invariant
            0 <= i <= ws@.len(),
            views(out@) == views(old(out)@) + views(ws@).take(i as int),
        decreases ws@.len() - i,
    {
        let ghost prev = views(out@);
        out.push(crate::text::copy_bytes(ws[i].as_slice()));
        assert(views(out@) =~= prev.push(ws@[i as int]@));
        assert(views(ws@).take(i + 1) =~= views(ws@).take(i as int).push(ws@[i as int]@));
        i = i + 1;
    }
    assert(views(ws@).take(ws@.len() as int) =~= views(ws@));
}

fn push_node_words(out: &mut Vec<Vec<u8>>, n: &NodeSyntax)
    ensures
        views(final(out)@) == views(old(out)@) + node_words(n@),
    decreases n,
{
    match n {
        NodeSyntax::Features(ws) => push_words(out, ws),
        NodeSyntax::Moved(ws) => push_words(out, ws),
        NodeSyntax::Lambda(l, r, _) => {
            push_node_words(out, &**l);
            push_node_words(out, &**r);
            assert(views(out@) =~= views(old(out)@) + node_words(n@));
        },
    }
}

fn push_word(out: &mut Vec<Vec<u8>>, w: &Vec<u8>)
    ensures
        views(final(out)@) == views(old(out)@).push(w@),
{
    out.push(crate::text::copy_bytes(w.as_slice()));
    assert(views(out@) =~= views(old(out)@).push(w@));
}

/// Every word of the file, in order (see `file_words`).
fn collect_words(f: &LexiconSyntax) -> (r: Vec<Vec<u8>>)
    ensures
        views(r@) == file_words(f@),
{
    let mut out: Vec<Vec<u8>> = Vec::new();
    let mut i: usize = 0;
    assert(views(out@) =~= Seq::<Seq<u8>>::empty());
    assert(f@.features.take(0) =~= Seq::<(Seq<u8>, Seq<Seq<u8>>)>::empty());
    while i < f.features.len()
        invariant
            0 <= i <= f.features@.len(),
            views(out@) == feature_words(f@.features.take(i as int)),
        decreases f.features@.len() - i,
    {
        assert(f@.features.take(i + 1).drop_last() =~= f@.features.take(i as int));
        assert(f@.features[i as int] == (f.features@[i as int].0@, views(f.features@[i as int].1@)));
        push_word(&mut out, &f.features[i].0);
        push_words(&mut out, &f.features[i].1);
        assert(views(out@) =~= feature_words(f@.features.take(i + 1)));
        i = i + 1;
    }
    assert(f@.features.take(f.features@.len() as int) =~= f@.features);
    let ghost a = views(out@);
    let mut j: usize = 0;
    assert(f@.functional.take(0) =~= Seq::<(Seq<Seq<u8>>, NodeAst)>::empty());
    while j < f.functional.len()
        invariant
            0 <= j <= f.functional@.len(),
            views(out@) == a + functional_words(f@.functional.take(j as int)),
        decreases f.functional@.len() - j,
    {
        assert(f@.functional.take(j + 1).drop_last() =~= f@.functional.take(j as int));
        assert(f@.functional[j as int] == (views(f.functional@[j as int].0@), f.functional@[j as int].1@));
        push_words(&mut out, &f.functional[j].0);
        push_node_words(&mut out, &f.functional[j].1);
        assert(views(out@) =~= a + functional_words(f@.functional.take(j + 1)));
        j = j + 1;
    }
    assert(f@.functional.take(f.functional@.len() as int) =~= f@.functional);
    let ghost b = views(out@);
    let mut k: usize = 0;
    assert(f@.lexical.take(0) =~= Seq::<(Seq<u8>, NodeAst)>::empty());
    while k < f.lexical.len()
        invariant
            0 <= k <= f.lexical@.len(),
            views(out@) == b + lexical_words(f@.lexical.take(k as int)),
        decreases f.lexical@.len() - k,
    {
        assert(f@.lexical.take(k + 1).drop_last() =~= f@.lexical.take(k as int));
        assert(f@.lexical[k as int] == (f.lexical@[k as int].0@, f.lexical@[k as int].1@));
        push_word(&mut out, &f.lexical[k].0);
        push_node_words(&mut out, &f.lexical[k].1);
        assert(views(out@) =~= b + lexical_words(f@.lexical.take(k + 1)));
        k = k + 1;
    }
    assert(f@.lexical.take(f.lexical@.len() as int) =~= f@.lexical);
    out
}

/// Adds the words to a copy of the table; `None` when the table has no room left.
fn intern_words(names: &Interner, words: &Vec<Vec<u8>>) -> (r: Option<Interner>)
    requires
        names.wf(),
        crate::utf8::all_valid(views(words@)),
    ensures
        intern_all(names@, views(words@)).len() <= u64::MAX ==> (r matches Some(t) && t@ == intern_all(
            names@,
            views(words@),
        ) && t.wf()),
        intern_all(names@, views(words@)).len() > u64::MAX ==> r is None,
{
    let ghost ws = views(words@);
    let mut t = names.duplicate();
    let mut i: usize = 0;
    assert(ws.take(0) =~= Seq::<Seq<u8>>::empty());
    while i < words.len()
        invariant
            0 <= i <= words@.len(),
            ws == views(words@),
            crate::utf8::all_valid(ws),
            t.wf(),
            t@ == intern_all(names@, ws.take(i as int)),
        decreases words@.len() - i,
    {
        assert(ws.take(i + 1).drop_last() =~= ws.take(i as int));
        assert(ws[i as int] == words@[i as int]@);
        assert(vstd::utf8::valid_utf8(ws[i as int]));
        if t.lookup(words[i].as_slice()).is_none() {
            if t.len() as u64 == u64::MAX {
                proof {
                    assert(!t@.contains(ws[i as int]));
                    assert(intern_all(names@, ws.take(i + 1)).len() == u64::MAX + 1);
                    lemma_intern_all_concat(names@, ws.take(i + 1), ws.skip(i + 1));
                    assert(ws.take(i + 1) + ws.skip(i + 1) =~= ws);
                    lemma_intern_all_grows(intern_all(names@, ws.take(i + 1)), ws.skip(i + 1));
                }
                return None;
            }
            t.intern(words[i].as_slice());
        } else {
            assert(t@.contains(ws[i as int]));
        }
        i = i + 1;
    }
    assert(ws.take(words@.len() as int) =~= ws);
    Some(t)
}

/// Builds the topology that the feature entries declare (see `topology_of`).
pub fn parse_feature_entries(ft: &mut FeatureTopology, names: &Interner, entries: &Vec<(Vec<u8>, Vec<Vec<u8>>)>)
    requires
        names.wf(),
        old(ft)@ == Seq::<(Key, Key)>::empty(),
    ensures
        final(ft)@ == topology_of(names@, entries@.map_values(|e: (Vec<u8>, Vec<Vec<u8>>)| (e.0@, views(e.1@)))),
{
    let ghost es = entries@.map_values(|e: (Vec<u8>, Vec<Vec<u8>>)| (e.0@, views(e.1@)));
    let mut i: usize = 0;
    assert(es.take(0) =~= Seq::<(Seq<u8>, Seq<Seq<u8>>)>::empty());
    while i < entries.len()
        invariant
            0 <= i <= entries@.len(),
            es == entries@.map_values(|e: (Vec<u8>, Vec<Vec<u8>>)| (e.0@, views(e.1@))),
            ft@ == topology_of(names@, es.take(i as int)),
            names.wf(),
        decreases entries@.len() - i,
    {
        assert(es.take(i + 1).drop_last() =~= es.take(i as int));
        assert(es[i as int] == (entries@[i as int].0@, views(entries@[i as int].1@)));
        let category = parse_word(names, entries[i].0.as_slice());
        let vals = &entries[i].1;
        let ghost base = ft@;
        let ghost ks = keys_of(names@, views(vals@));
        let mut j: usize = 0;
        assert(ks.take(0) =~= Seq::<Key>::empty());
        while j < vals.len()
            invariant
                0 <= j <= vals@.len(),
                ks == keys_of(names@, views(vals@)),
                ks.len() == vals@.len(),
                ft@ == values_into(base, category, ks.take(j as int)),
                names.wf(),
            decreases vals@.len() - j,
        {
            assert(ks.take(j + 1).drop_last() =~= ks.take(j as int));
            assert(ks[j as int] == key_or_next(names@, vals@[j as int]@));
            let v = parse_word(names, vals[j].as_slice());
            ft.insert(category, v);
            j = j + 1;
        }
        assert(ks.take(vals@.len() as int) =~= ks);
        i = i + 1;
    }
    assert(es.take(entries@.len() as int) =~= es);
}

/// Adds the rules of the functional entries to the lexicon (see `functional_rules`).
pub fn parse_functional_entries(
    lexicon: &mut SimpleLexicon,
    names: &Interner,
    entries: &Vec<(Vec<Vec<u8>>, NodeSyntax)>,
    ft: &FeatureTopology,
)
    requires
        names.wf(),
    ensures
        final(lexicon)@ == add_rules(
            old(lexicon)@,
            functional_rules(names@, ft@, entries@.map_values(|e: (Vec<Vec<u8>>, NodeSyntax)| (views(e.0@), e.1@))),
        ),
{
    let ghost es = entries@.map_values(|e: (Vec<Vec<u8>>, NodeSyntax)| (views(e.0@), e.1@));
    let mut i: usize = 0;
    assert(es.take(0) =~= Seq::<(Seq<Seq<u8>>, NodeAst)>::empty());
    while i < entries.len()
        invariant
            0 <= i <= entries@.len(),
            es == entries@.map_values(|e: (Vec<Vec<u8>>, NodeSyntax)| (views(e.0@), e.1@)),
            lexicon@ == add_rules(old(lexicon)@, functional_rules(names@, ft@, es.take(i as int))),
            names.wf(),
        decreases entries@.len() - i,
    {
        assert(es.take(i + 1).drop_last() =~= es.take(i as int));
        assert(es[i as int] == (views(entries@[i as int].0@), entries@[i as int].1@));
        let rhs = &entries[i].1;
        let froms = parse_feature_set(names, &entries[i].0, ft, SubstitutionTable::new());
        let ghost fr = readings_view(froms@);
        let ghost base = lexicon@;
        let ghost done_rules = functional_rules(names@, ft@, es.take(i as int));
        let mut a: usize = 0;
        assert(fr.take(0) =~= Seq::<(Map<Key, Option<Key>>, Map<Key, (Key, Option<Key>)>)>::empty());
        while a < froms.len()
            invariant
                0 <= a <= froms@.len(),
                fr == readings_view(froms@),
                lexicon@ == add_rules(base, from_pairs(names@, ft@, fr.take(a as int), rhs@)),
                names.wf(),
            decreases froms@.len() - a,
        {
            assert(fr.take(a + 1).drop_last() =~= fr.take(a as int));
            assert(fr[a as int] == (froms@[a as int].0@, froms@[a as int].1@));
            let tos = parse_syntax_node(names, rhs, ft, froms[a].1.duplicate());
            let ghost tr = readings_view(tos@);
            let ghost mid = lexicon@;
            let ghost fsv = froms@[a as int].0@;
            let ghost mapped = tr.map_values(
                |q: (LexNodeV, Map<Key, (Key, Option<Key>)>)| (ValueV::Features(fsv), q.0),
            );
            let mut b: usize = 0;
            assert(mapped.take(0) =~= Seq::<(ValueV, LexNodeV)>::empty());
            while b < tos.len()
                invariant
                    0 <= b <= tos@.len(),
                    tr == readings_view(tos@),
                    mapped == tr.map_values(
                        |q: (LexNodeV, Map<Key, (Key, Option<Key>)>)| (ValueV::Features(fsv), q.0),
                    ),
                    a < froms@.len(),
                    fsv == froms@[a as int].0@,
                    lexicon@ == add_rules(mid, mapped.take(b as int)),
                decreases tos@.len() - b,
            {
                assert(mapped.take(b + 1).drop_last() =~= mapped.take(b as int));
                assert(tr[b as int] == (tos@[b as int].0@, tos@[b as int].1@));
                let from = SyntaxValue::Features(froms[a].0.duplicate());
                let to = tos[b].0.duplicate();
                lexicon.add_entry(from, to);
                b = b + 1;
            }
            assert(mapped.take(tos@.len() as int) =~= mapped);
            proof {
                lemma_add_rules_concat(base, from_pairs(names@, ft@, fr.take(a as int), rhs@), mapped);
            }
            a = a + 1;
        }
        assert(fr.take(froms@.len() as int) =~= fr);
        proof {
            lemma_add_rules_concat(
                old(lexicon)@,
                done_rules,
                from_pairs(names@, ft@, expand_fset(ft@, keys_of(names@, es[i as int].0), Map::empty()), es[i as int].1),
            );
        }
        i = i + 1;
    }
    assert(es.take(entries@.len() as int) =~= es);
}

/// Adds the rules of the lexical entries to the lexicon (see `lexical_rules`).
pub fn parse_lexical_entries(
    lexicon: &mut SimpleLexicon,
    names: &Interner,
    entries: &Vec<(Vec<u8>, NodeSyntax)>,
    ft: &FeatureTopology,
)
    requires
        names.wf(),
    ensures
        final(lexicon)@ == add_rules(
            old(lexicon)@,
            lexical_rules(names@, ft@, entries@.map_values(|e: (Vec<u8>, NodeSyntax)| (e.0@, e.1@))),
        ),
{
    let ghost es = entries@.map_values(|e: (Vec<u8>, NodeSyntax)| (e.0@, e.1@));
    let mut i: usize = 0;
    assert(es.take(0) =~= Seq::<(Seq<u8>, NodeAst)>::empty());
    while i < entries.len()
        invariant
            0 <= i <= entries@.len(),
            es == entries@.map_values(|e: (Vec<u8>, NodeSyntax)| (e.0@, e.1@)),
            lexicon@ == add_rules(old(lexicon)@, lexical_rules(names@, ft@, es.take(i as int))),
            names.wf(),
        decreases entries@.len() - i,
    {
        assert(es.take(i + 1).drop_last() =~= es.take(i as int));
        assert(es[i as int] == (entries@[i as int].0@, entries@[i as int].1@));
        let word = parse_word(names, entries[i].0.as_slice());
        let tos = parse_syntax_node(names, &entries[i].1, ft, SubstitutionTable::new());
        let ghost tr = readings_view(tos@);
        let ghost base = lexicon@;
        let ghost mapped = tr.map_values(
            |q: (LexNodeV, Map<Key, (Key, Option<Key>)>)| (ValueV::Item(word), q.0),
        );
        let mut b: usize = 0;
        assert(mapped.take(0) =~= Seq::<(ValueV, LexNodeV)>::empty());
        while b < tos.len()
            invariant
                0 <= b <= tos@.len(),
                tr == readings_view(tos@),
                mapped == tr.map_values(|q: (LexNodeV, Map<Key, (Key, Option<Key>)>)| (ValueV::Item(word), q.0)),
                lexicon@ == add_rules(base, mapped.take(b as int)),
            decreases tos@.len() - b,
        {
            assert(mapped.take(b + 1).drop_last() =~= mapped.take(b as int));
            assert(tr[b as int] == (tos@[b as int].0@, tos@[b as int].1@));
            lexicon.add_entry(SyntaxValue::Item(word), tos[b].0.duplicate());
            b = b + 1;
        }
        assert(mapped.take(tos@.len() as int) =~= mapped);
        proof {
            lemma_add_rules_concat(old(lexicon)@, lexical_rules(names@, ft@, es.take(i as int)), mapped);
        }
        i = i + 1;
    }
    assert(es.take(entries@.len() as int) =~= es);
}

/// Adds the words of the entries to the table, then builds the topology and adds
/// the functional rules and then the lexical ones; `false`, with nothing changed,
/// when the table has no room left for the words.
pub fn parse_sections(lexicon: &mut SimpleLexicon, names: &mut Interner, syntax: &LexiconSyntax) -> (r: bool)
    requires
        old(names).wf(),
        crate::utf8::all_valid(file_words(syntax@)),
    ensures
        final(names).wf(),
        intern_all(old(names)@, file_words(syntax@)).len() > u64::MAX ==> !r && final(names)@ == old(names)@
            && final(lexicon)@ == old(lexicon)@,
        intern_all(old(names)@, file_words(syntax@)).len() <= u64::MAX ==> r && final(names)@ == intern_all(
            old(names)@,
            file_words(syntax@),
        ) && final(lexicon)@ == add_rules(old(lexicon)@, file_rules(final(names)@, syntax@)),
{
    let words = collect_words(syntax);
    let table = match intern_words(names, &words) {
        Some(t) => t,
        None => {
            return false;
        },
    };
    *names = table;
    let mut ft = FeatureTopology::new();
    parse_feature_entries(&mut ft, names, &syntax.features);
    let ghost before = lexicon@;
    parse_functional_entries(lexicon, names, &syntax.functional, &ft);
    parse_lexical_entries(lexicon, names, &syntax.lexical, &ft);
    proof {
        let t = names@;
        let ftv = topology_of(t, syntax@.features);
        lemma_add_rules_concat(before, functional_rules(t, ftv, syntax@.functional), lexical_rules(t, ftv, syntax@.lexical));
    }
    true
}

proof fn lemma_line_error_valid(n: nat)
    ensures
        vstd::utf8::valid_utf8(line_error_text(n)),
{
    crate::utf8::lemma_str_valid("syntax error on line ");
    crate::utf8::lemma_decimal_valid(n);
    crate::utf8::lemma_concat("syntax error on line ".spec_bytes(), decimal(n));
}

/// The message for a syntax error on line `n`, as text.
fn line_error(n: usize) -> (r: String)
    ensures
        r@ == vstd::utf8::decode_utf8(line_error_text(n as nat)),
{
    proof {
        lemma_line_error_valid(n as nat);
    }
    let mut out = str_bytes("syntax error on line ");
    let d = decimal_bytes(n);
    append_bytes(&mut out, d.as_slice());
    bytes_to_string(out)
}

/// Reads a lexicon file and adds its rules to `lexicon`, adding its words to `names`
/// (see `parse_outcome`); on an error nothing changes.
pub fn parse_lexicon(lexicon: &mut SimpleLexicon, names: &mut Interner, input: &str) -> (r: Result<(), String>)
    requires
        old(names).wf(),
    ensures
        final(names).wf(),
        match parse_outcome(input.spec_bytes(), old(names)@, old(lexicon)@) {
            Ok((t, lex)) => r is Ok && final(names)@ == t && final(lexicon)@ == lex,
            Err(Some(n)) => r is Err && final(names)@ == old(names)@ && final(lexicon)@ == old(lexicon)@
                && r->Err_0@ == vstd::utf8::decode_utf8(line_error_text(n)),
            Err(None) => r is Err && final(names)@ == old(names)@ && final(lexicon)@ == old(lexicon)@ && r->Err_0@
                == "too many symbols"@,
        },
{
    let syntax = match read_lexicon_text(input.as_bytes()) {
        Ok(s) => s,
        Err(n) => {
            return Err(line_error(n));
        },
    };
    proof {
        crate::utf8::lemma_str_valid(input);
        super::valid::lemma_file_words_valid(input.spec_bytes());
    }
    if parse_sections(lexicon, names, &syntax) {
        Ok(())
    } else {
        Err("too many symbols".to_owned())
    }
}

/// The reader of lexicon files.
pub struct PestLexiconParser;

impl PestLexiconParser {
    /// Reads the lexicon file `input` into `lexicon`, with its words in `names`
    /// (see `parse_lexicon`).
    pub fn parse_str(lexicon: &mut SimpleLexicon, names: &mut Interner, input: &str) -> (r: Result<(), String>)
        requires
            old(names).wf(),
        ensures
            final(names).wf(),
            match parse_outcome(input.spec_bytes(), old(names)@, old(lexicon)@) {
                Ok((t, lex)) => r is Ok && final(names)@ == t && final(lexicon)@ == lex,
                Err(Some(n)) => r is Err && final(names)@ == old(names)@ && final(lexicon)@ == old(lexicon)@
                    && r->Err_0@ == vstd::utf8::decode_utf8(line_error_text(n)),
                Err(None) => r is Err && final(names)@ == old(names)@ && final(lexicon)@ == old(lexicon)@
                    && r->Err_0@ == "too many symbols"@,
            },
    {
        parse_lexicon(lexicon, names, input)
    }
}

} // verus!
