use super::expand::{expand_feature, expand_fset, expand_node, fset_fold, fset_step, keys_of, FMap, SubstV};
use super::sections::{from_pairs, functional_rules};
use super::syntax::NodeAst;
use super::topology::{category_of, is_category};
use crate::lexicon::LexNodeV;
use crate::syntax::{Key, ValueV};
use vstd::prelude::*;

verus! {

/// The category of the feature that the word `k` stands for: the word itself when it
/// is a category, the category of the value it is, or else the word itself.
pub open spec fn word_category(ft: Seq<(Key, Key)>, k: Key) -> Key {
    if is_category(ft, k) {
        k
    } else {
        match category_of(ft, k) {
            Some(c) => c,
            None => k,
        }
    }
}

/// Every bound word stands for a feature of its own category.
pub open spec fn bindings_consistent(ft: Seq<(Key, Key)>, s: SubstV) -> bool {
    forall|k: Key| #[trigger] s.contains_key(k) ==> s[k].0 == word_category(ft, k)
}

/// `s2` keeps every binding of `s`.
pub open spec fn keeps_bindings(s: SubstV, s2: SubstV) -> bool {
    forall|k: Key| #[trigger] s.contains_key(k) ==> s2.contains_key(k) && s2[k] == s[k]
}

/// In `ks`, the word `k` is the only one that stands for a feature of its category.
pub open spec fn sole_word_of_category(ft: Seq<(Key, Key)>, ks: Seq<Key>, k: Key) -> bool {
    forall|j: int| 0 <= j < ks.len() && word_category(ft, #[trigger] ks[j]) == word_category(ft, k) ==> ks[j] == k
}

/// A reading of the words `done` that started from the bindings `s0`: the bindings stay
/// consistent and keep `s0`, every word read is bound, and a word that alone stands for
/// its category puts the feature it is bound to into the bundle.
pub open spec fn reading_ok(ft: Seq<(Key, Key)>, done: Seq<Key>, s0: SubstV, gs: FMap, s: SubstV) -> bool {
    &&& bindings_consistent(ft, s)
    &&& keeps_bindings(s0, s)
    &&& forall|j: int| 0 <= j < done.len() ==> s.contains_key(#[trigger] done[j])
    &&& forall|j: int| 0 <= j < done.len() && sole_word_of_category(ft, done, #[trigger] done[j]) ==> gs.contains_key(
        word_category(ft, done[j]),
    ) && gs[word_category(ft, done[j])] == s[done[j]].1
}

proof fn lemma_expand_feature(ft: Seq<(Key, Key)>, k: Key, s: SubstV, q: int)
    requires
        bindings_consistent(ft, s),
        0 <= q < expand_feature(ft, k, s).len(),
    ensures
        ({
            let (f, s2) = expand_feature(ft, k, s)[q];
            &&& bindings_consistent(ft, s2)
            &&& keeps_bindings(s, s2)
            &&& s2.contains_key(k)
            &&& s2[k] == f
            &&& f.0 == word_category(ft, k)
        }),
{
    let (f, s2) = expand_feature(ft, k, s)[q];
    if !s.contains_key(k) {
        assert forall|kk: Key| #[trigger] s2.contains_key(kk) implies s2[kk].0 == word_category(ft, kk) by {
            if kk != k {
                assert(s.contains_key(kk));
            }
        }
    }
}

proof fn lemma_fset_step_member(ft: Seq<(Key, Key)>, k: Key, res: Seq<(FMap, SubstV)>, j: int)
    requires
        0 <= j < fset_step(ft, k, res).len(),
    ensures
        exists|i: int, q: int|
            0 <= i < res.len() && 0 <= q < expand_feature(ft, k, res[i].1).len() && #[trigger] fset_step(ft, k, res)[j] == (
                res[i].0.insert(expand_feature(ft, k, res[i].1)[q].0.0, expand_feature(ft, k, res[i].1)[q].0.1),
                #[trigger] expand_feature(ft, k, res[i].1)[q].1,
            ),
    decreases res.len(),
{
    let head = super::expand::extend_each(res.last().0, expand_feature(ft, k, res.last().1));
    if j < head.len() {
        let i = res.len() - 1;
        assert(fset_step(ft, k, res)[j] == head[j]);
        assert(0 <= i < res.len() && 0 <= j < expand_feature(ft, k, res[i].1).len());
    } else {
        let rest = res.drop_last();
        assert(fset_step(ft, k, res)[j] == fset_step(ft, k, rest)[j - head.len()]);
        lemma_fset_step_member(ft, k, rest, j - head.len());
        let (i, q) = choose|i: int, q: int|
            0 <= i < rest.len() && 0 <= q < expand_feature(ft, k, rest[i].1).len() && #[trigger] fset_step(ft, k, rest)[j - head.len()] == (
                rest[i].0.insert(expand_feature(ft, k, rest[i].1)[q].0.0, expand_feature(ft, k, rest[i].1)[q].0.1),
                #[trigger] expand_feature(ft, k, rest[i].1)[q].1,
            );
        assert(rest[i] == res[i]);
    }
}

proof fn lemma_fset_step_ok(ft: Seq<(Key, Key)>, done: Seq<Key>, k: Key, s0: SubstV, res: Seq<(FMap, SubstV)>)
    requires
        forall|i: int| 0 <= i < res.len() ==> reading_ok(ft, done, s0, #[trigger] res[i].0, res[i].1),
    ensures
        forall|j: int| 0 <= j < fset_step(ft, k, res).len() ==> reading_ok(
            ft,
            done.push(k),
            s0,
            #[trigger] fset_step(ft, k, res)[j].0,
            fset_step(ft, k, res)[j].1,
        ),
{
    assert forall|j: int| 0 <= j < fset_step(ft, k, res).len() implies reading_ok(
        ft,
        done.push(k),
        s0,
        #[trigger] fset_step(ft, k, res)[j].0,
        fset_step(ft, k, res)[j].1,
    ) by {
        lemma_fset_step_member(ft, k, res, j);
        let (i, q) = choose|i: int, q: int|
            0 <= i < res.len() && 0 <= q < expand_feature(ft, k, res[i].1).len() && #[trigger] fset_step(ft, k, res)[j] == (
                res[i].0.insert(expand_feature(ft, k, res[i].1)[q].0.0, expand_feature(ft, k, res[i].1)[q].0.1),
                #[trigger] expand_feature(ft, k, res[i].1)[q].1,
            );
        let (gs, s) = res[i];
        assert(reading_ok(ft, done, s0, gs, s));
        let (f, s2) = expand_feature(ft, k, s)[q];
        lemma_expand_feature(ft, k, s, q);
        let gs2 = gs.insert(f.0, f.1);
        let nd = done.push(k);
        assert forall|kk: Key| #[trigger] s0.contains_key(kk) implies s2.contains_key(kk) && s2[kk] == s0[kk] by {
            assert(s.contains_key(kk));
        }
        assert forall|jj: int| 0 <= jj < nd.len() implies s2.contains_key(#[trigger] nd[jj]) by {
            if jj < done.len() {
                assert(nd[jj] == done[jj]);
                assert(s.contains_key(done[jj]));
            }
        }
        assert forall|jj: int| 0 <= jj < nd.len() && sole_word_of_category(ft, nd, #[trigger] nd[jj]) implies gs2.contains_key(
            word_category(ft, nd[jj]),
        ) && gs2[word_category(ft, nd[jj])] == s2[nd[jj]].1 by {
            let w = nd[jj];
            if w != k {
                assert(jj < done.len());
                assert(nd[jj] == done[jj]);
                assert(word_category(ft, k) != word_category(ft, w)) by {
                    assert(nd[done.len() as int] == k);
                }
                assert(sole_word_of_category(ft, done, w)) by {
                    assert forall|x: int| 0 <= x < done.len() && word_category(ft, #[trigger] done[x]) == word_category(ft, w) implies done[x] == w by {
                        assert(nd[x] == done[x]);
                    }
                }
                assert(s.contains_key(w));
            }
        }
    }
}

proof fn lemma_fset_fold_ok(ft: Seq<(Key, Key)>, done: Seq<Key>, ks: Seq<Key>, s0: SubstV, res: Seq<(FMap, SubstV)>)
    requires
        forall|i: int| 0 <= i < res.len() ==> reading_ok(ft, done, s0, #[trigger] res[i].0, res[i].1),
    ensures
        forall|j: int| 0 <= j < fset_fold(ft, ks, res).len() ==> reading_ok(
            ft,
            done + ks,
            s0,
            #[trigger] fset_fold(ft, ks, res)[j].0,
            fset_fold(ft, ks, res)[j].1,
        ),
    decreases ks.len(),
{
    if ks.len() == 0 {
        assert(done + ks =~= done);
        assert(fset_fold(ft, ks, res) == res);
        assert forall|j: int| 0 <= j < fset_fold(ft, ks, res).len() implies reading_ok(
            ft,
            done + ks,
            s0,
            #[trigger] fset_fold(ft, ks, res)[j].0,
            fset_fold(ft, ks, res)[j].1,
        ) by {
            assert(reading_ok(ft, done, s0, res[j].0, res[j].1));
        }
    } else {
        let next = fset_step(ft, ks[0], res);
        lemma_fset_step_ok(ft, done, ks[0], s0, res);
        lemma_fset_fold_ok(ft, done.push(ks[0]), ks.drop_first(), s0, next);
        assert(done.push(ks[0]) + ks.drop_first() =~= done + ks);
        assert(fset_fold(ft, ks, res) == fset_fold(ft, ks.drop_first(), next));
        assert forall|j: int| 0 <= j < fset_fold(ft, ks, res).len() implies reading_ok(
            ft,
            done + ks,
            s0,
            #[trigger] fset_fold(ft, ks, res)[j].0,
            fset_fold(ft, ks, res)[j].1,
        ) by {
            assert(reading_ok(
                ft,
                done.push(ks[0]) + ks.drop_first(),
                s0,
                fset_fold(ft, ks.drop_first(), next)[j].0,
                fset_fold(ft, ks.drop_first(), next)[j].1,
            ));
        }
    }
}

/// Every reading of a bundle of words under consistent bindings keeps those bindings,
/// binds every word, and puts into the bundle, for each word that alone stands for its
/// category, the feature that word is bound to.
pub proof fn lemma_expand_fset_ok(ft: Seq<(Key, Key)>, ks: Seq<Key>, s: SubstV, j: int)
    requires
        bindings_consistent(ft, s),
        0 <= j < expand_fset(ft, ks, s).len(),
    ensures
        reading_ok(ft, ks, s, expand_fset(ft, ks, s)[j].0, expand_fset(ft, ks, s)[j].1),
{
    let res = seq![(Map::<Key, Option<Key>>::empty(), s)];
    assert(reading_ok(ft, Seq::empty(), s, Map::empty(), s));
    assert forall|i: int| 0 <= i < res.len() implies reading_ok(ft, Seq::empty(), s, #[trigger] res[i].0, res[i].1) by {
        assert(res[i] == (Map::<Key, Option<Key>>::empty(), s));
    }
    lemma_fset_fold_ok(ft, Seq::empty(), ks, s, res);
    assert(Seq::<Key>::empty() + ks =~= ks);
}

proof fn lemma_from_pairs_member(
    t: Seq<Seq<u8>>,
    ft: Seq<(Key, Key)>,
    froms: Seq<(FMap, SubstV)>,
    rhs: NodeAst,
    j: int,
)
    requires
        0 <= j < from_pairs(t, ft, froms, rhs).len(),
    ensures
        exists|a: int, q: int|
            0 <= a < froms.len() && 0 <= q < expand_node(t, ft, rhs, froms[a].1).len() && #[trigger] from_pairs(t, ft, froms, rhs)[j]
                == (ValueV::Features(froms[a].0), #[trigger] expand_node(t, ft, rhs, froms[a].1)[q].0),
    decreases froms.len(),
{
    let rest = froms.drop_last();
    let front = from_pairs(t, ft, rest, rhs);
    if j < front.len() {
        assert(from_pairs(t, ft, froms, rhs)[j] == front[j]);
        lemma_from_pairs_member(t, ft, rest, rhs, j);
        let (a, q) = choose|a: int, q: int|
            0 <= a < rest.len() && 0 <= q < expand_node(t, ft, rhs, rest[a].1).len() && #[trigger] from_pairs(t, ft, rest, rhs)[j]
                == (ValueV::Features(rest[a].0), #[trigger] expand_node(t, ft, rhs, rest[a].1)[q].0);
        assert(rest[a] == froms[a]);
    } else {
        let a = froms.len() - 1;
        let q = j - front.len();
        assert(from_pairs(t, ft, froms, rhs)[j] == (ValueV::Features(froms[a].0), expand_node(t, ft, rhs, froms[a].1)[q].0));
    }
}

/// A category named on both sides of a functional rule takes the same value on both:
/// every rule that the entry `lhs = rhs` adds maps a reading of the left-hand words to a
/// reading of the right-hand words under the left-hand bindings, so where a category
/// word `c` is, on each side, the only word standing for its category, the key of the
/// rule and the features it expands to agree on `c`.
pub proof fn law_functional_rules_share_bindings(
    t: Seq<Seq<u8>>,
    ft: Seq<(Key, Key)>,
    lhs: Seq<Seq<u8>>,
    rhs: Seq<Seq<u8>>,
    c: Key,
    i: int,
)
    requires
        0 <= i < functional_rules(t, ft, seq![(lhs, NodeAst::Features(rhs))]).len(),
        is_category(ft, c),
        keys_of(t, lhs).contains(c),
        keys_of(t, rhs).contains(c),
        sole_word_of_category(ft, keys_of(t, lhs), c),
        sole_word_of_category(ft, keys_of(t, rhs), c),
    ensures
        functional_rules(t, ft, seq![(lhs, NodeAst::Features(rhs))])[i] matches (ValueV::Features(fs), LexNodeV::Value(ValueV::Features(gs)))
            && fs.contains_key(c) && gs.contains_key(c) && fs[c] == gs[c],
{
    let es = seq![(lhs, NodeAst::Features(rhs))];
    let kl = keys_of(t, lhs);
    let kr = keys_of(t, rhs);
    let froms = expand_fset(ft, kl, Map::empty());
    assert(es.drop_last() =~= Seq::<(Seq<Seq<u8>>, NodeAst)>::empty());
    assert(functional_rules(t, ft, es.drop_last()) == Seq::<(ValueV, LexNodeV)>::empty());
    assert(es.last() == (lhs, NodeAst::Features(rhs)));
    assert(functional_rules(t, ft, es) =~= from_pairs(t, ft, froms, NodeAst::Features(rhs)));
    lemma_from_pairs_member(t, ft, froms, NodeAst::Features(rhs), i);
    let (a, q) = choose|a: int, q: int|
        0 <= a < froms.len() && 0 <= q < expand_node(t, ft, NodeAst::Features(rhs), froms[a].1).len()
            && #[trigger] from_pairs(t, ft, froms, NodeAst::Features(rhs))[i]
            == (ValueV::Features(froms[a].0), #[trigger] expand_node(t, ft, NodeAst::Features(rhs), froms[a].1)[q].0);
    let (fs, s) = froms[a];
    assert(bindings_consistent(ft, Map::<Key, (Key, Option<Key>)>::empty()));
    lemma_expand_fset_ok(ft, kl, Map::empty(), a);
    let (gs, s2) = expand_fset(ft, kr, s)[q];
    lemma_expand_fset_ok(ft, kr, s, q);
    let jl = choose|j: int| 0 <= j < kl.len() && kl[j] == c;
    let jr = choose|j: int| 0 <= j < kr.len() && kr[j] == c;
    assert(word_category(ft, c) == c);
    assert(s.contains_key(kl[jl]));
    assert(sole_word_of_category(ft, kl, kl[jl]));
    assert(sole_word_of_category(ft, kr, kr[jr]));
    assert(fs.contains_key(c) && fs[c] == s[c].1);
    assert(gs.contains_key(c) && gs[c] == s2[c].1);
    assert(s2[c] == s[c]);
}

} // verus!
