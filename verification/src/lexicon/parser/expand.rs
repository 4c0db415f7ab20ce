use super::syntax::{NodeAst, NodeSyntax};
use super::topology::{category_of, is_category, values_of, FeatureTopology};
use crate::interner::{key_or_next, Interner};
use crate::lexicon::entry::{LexNodeV, LexiconNode};
use crate::syntax::{Feature, FeatureSet, Key, SyntaxValue, ValueV};
use crate::tokenizer::views;
use std::collections::BTreeMap;
use vstd::prelude::*;

verus! {

/// What the words of an entry stand for so far: each word already read is bound to
/// the feature it became, so that a category named twice in one entry takes one value.
pub type SubstV = Map<Key, Feature>;

pub type FMap = Map<Key, Option<Key>>;

/// The keys of the words `ws` in the table `t`.
pub open spec fn keys_of(t: Seq<Seq<u8>>, ws: Seq<Seq<u8>>) -> Seq<Key> {
    ws.map_values(|w: Seq<u8>| key_or_next(t, w))
}

/// The readings of the word `k` as a feature under the bindings `s`: its binding
/// if it has one; else, for a category, one reading per value; else the value with
/// its category, or, for a word of no category, a category without a value. Each
/// reading comes with the bindings extended by it.
pub open spec fn expand_feature(ft: Seq<(Key, Key)>, k: Key, s: SubstV) -> Seq<(Feature, SubstV)> {
    if s.contains_key(k) {
        seq![(s[k], s)]
    } else if is_category(ft, k) {
        values_of(ft, k).map_values(|v: Key| ((k, Some(v)), s.insert(k, (k, Some(v)))))
    } else {
        let f = match category_of(ft, k) {
            Some(c) => (c, Some(k)),
            None => (k, None),
        };
        seq![(f, s.insert(k, f))]
    }
}

/// The bundle `fs` extended by each reading in `rs`.
pub open spec fn extend_each(fs: FMap, rs: Seq<(Feature, SubstV)>) -> Seq<(FMap, SubstV)> {
    rs.map_values(|p: (Feature, SubstV)| (fs.insert(p.0.0, p.0.1), p.1))
}

/// Reads the word `k` into each partial bundle of `res`, the last one first.
pub open spec fn fset_step(ft: Seq<(Key, Key)>, k: Key, res: Seq<(FMap, SubstV)>) -> Seq<(FMap, SubstV)>
    decreases res.len(),
{
    if res.len() == 0 {
        Seq::empty()
    } else {
        extend_each(res.last().0, expand_feature(ft, k, res.last().1)) + fset_step(ft, k, res.drop_last())
    }
}

/// Reads the words `ks` in order into the partial bundles `res`.
pub open spec fn fset_fold(ft: Seq<(Key, Key)>, ks: Seq<Key>, res: Seq<(FMap, SubstV)>) -> Seq<(FMap, SubstV)>
    decreases ks.len(),
{
    if ks.len() == 0 {
        res
    } else {
        fset_fold(ft, ks.drop_first(), fset_step(ft, ks[0], res))
    }
}

/// The readings of a bundle of words as features, each with its bindings.
pub open spec fn expand_fset(ft: Seq<(Key, Key)>, ks: Seq<Key>, s: SubstV) -> Seq<(FMap, SubstV)> {
    fset_fold(ft, ks, seq![(Map::<Key, Option<Key>>::empty(), s)])
}

/// The readings of a node as written, each with its bindings: a function reads its
/// argument first and its result under each reading of the argument.
pub open spec fn expand_node(t: Seq<Seq<u8>>, ft: Seq<(Key, Key)>, n: NodeAst, s: SubstV) -> Seq<(LexNodeV, SubstV)>
    decreases n, 0int,
{
    match n {
        NodeAst::Features(ws) => expand_fset(ft, keys_of(t, ws), s).map_values(
            |p: (FMap, SubstV)| (LexNodeV::Value(ValueV::Features(p.0)), p.1),
        ),
        NodeAst::Moved(ws) => expand_fset(ft, keys_of(t, ws), s).map_values(
            |p: (FMap, SubstV)| (LexNodeV::Moved(p.0), p.1),
        ),
        NodeAst::Lambda(l, r, project) => lambda_pairs(t, ft, expand_node(t, ft, *l, s), *r, project),
    }
}

/// The functions from each reading in `lefts` to each reading of `r` under its bindings.
pub open spec fn lambda_pairs(
    t: Seq<Seq<u8>>,
    ft: Seq<(Key, Key)>,
    lefts: Seq<(LexNodeV, SubstV)>,
    r: NodeAst,
    project: bool,
) -> Seq<(LexNodeV, SubstV)>
    decreases r, lefts.len(),
{
    if lefts.len() == 0 {
        Seq::empty()
    } else {
        let (ln, ls) = lefts.last();
        lambda_pairs(t, ft, lefts.drop_last(), r, project) + expand_node(t, ft, r, ls).map_values(
            |q: (LexNodeV, SubstV)| (LexNodeV::Lambda(Box::new(ln), Box::new(q.0), project), q.1),
        )
    }
}

// ---------------------------------------------------------------------------
// Executable counterparts.
// ---------------------------------------------------------------------------

/// What the words of an entry stand for so far.
#[derive(Debug)]
pub struct SubstitutionTable {
    map: BTreeMap<Key, Feature>,
}

impl View for SubstitutionTable {
    type V = SubstV;

    closed spec fn view(&self) -> SubstV {
        self.map@
    }
}

impl SubstitutionTable {
    /// No word bound.
    pub fn new() -> (r: Self)
        ensures
            r@ == Map::<Key, Feature>::empty(),
    {
        SubstitutionTable { map: BTreeMap::new() }
    }

    /// A copy with the same bindings.
    pub fn duplicate(&self) -> (r: Self)
        ensures
            r@ == self@,
    {
        SubstitutionTable { map: self.map.clone() }
    }

    /// The binding of `k`, if any.
    pub fn get(&self, k: &Key) -> (r: Option<Feature>)
        ensures
            match r {
                Some(f) => self@.contains_key(*k) && self@[*k] == f,
                None => !self@.contains_key(*k),
            },
    {
        broadcast use vstd::std_specs::btree::group_btree_axioms;
        match self.map.get(k) {
            Some(f) => Some(*f),
            None => None,
        }
    }

    /// Binds `k` to `f`.
    pub fn insert(&mut self, k: Key, f: Feature)
        ensures
            final(self)@ == old(self)@.insert(k, f),
    {
        broadcast use vstd::std_specs::btree::group_btree_axioms;
        self.map.insert(k, f);
    }
}

pub open spec fn readings_view<T: View>(v: Seq<(T, SubstitutionTable)>) -> Seq<(T::V, SubstV)> {
    v.map_values(|p: (T, SubstitutionTable)| (p.0@, p.1@))
}

pub open spec fn feature_readings_view(v: Seq<(Feature, SubstitutionTable)>) -> Seq<(Feature, SubstV)> {
    v.map_values(|p: (Feature, SubstitutionTable)| (p.0, p.1@))
}

/// The key of a word of the lexicon file, which the table holds.
pub fn parse_word(names: &Interner, word: &[u8]) -> (r: Key)
    requires
        names.wf(),
    ensures
        r == key_or_next(names@, word@),
{
    names.key_or_next(word)
}

/// The readings of one word as a feature (see `expand_feature`).
pub fn parse_feature(names: &Interner, word: &[u8], ft: &FeatureTopology, subst: SubstitutionTable) -> (r: Vec<(Feature, SubstitutionTable)>)
    requires
        names.wf(),
    ensures
        feature_readings_view(r@) == expand_feature(ft@, key_or_next(names@, word@), subst@),
{
    let k = parse_word(names, word);
    let mut out: Vec<(Feature, SubstitutionTable)> = Vec::new();
    match subst.get(&k) {
        Some(sub) => {
            let ghost sv = subst@;
            out.push((sub, subst));
            assert(feature_readings_view(out@) =~= seq![(sv[k], sv)]);
            out
        },
        None => {
            if ft.is_category(&k) {
                let vals = ft.get_from_category(&k).unwrap();
                let mut i: usize = 0;
                while i < vals.len()
                    invariant
                        0 <= i <= vals@.len(),
                        vals@ == values_of(ft@, k),
                        feature_readings_view(out@) == values_of(ft@, k).take(i as int).map_values(
                            |v: Key| ((k, Some(v)), subst@.insert(k, (k, Some(v)))),
                        ),
                    decreases vals@.len() - i,
                {
                    let mut s = subst.duplicate();
                    let sub: Feature = (k, Some(vals[i]));
                    s.insert(k, sub);
                    let ghost prev = feature_readings_view(out@);
                    out.push((sub, s));
                    assert(feature_readings_view(out@) =~= prev.push((sub, subst@.insert(k, sub))));
                    assert(values_of(ft@, k).take(i + 1) =~= values_of(ft@, k).take(i as int).push(vals@[i as int]));
                    assert(feature_readings_view(out@) =~= values_of(ft@, k).take(i + 1).map_values(
                        |v: Key| ((k, Some(v)), subst@.insert(k, (k, Some(v)))),
                    ));
                    i = i + 1;
                }
                assert(values_of(ft@, k).take(vals@.len() as int) =~= values_of(ft@, k));
                out
            } else {
                let sub: Feature = match ft.get_from_value(&k) {
                    Some(cat) => (cat, Some(k)),
                    None => (k, None),
                };
                let mut s = subst;
                let ghost sv = s@;
                s.insert(k, sub);
                out.push((sub, s));
                assert(feature_readings_view(out@) =~= seq![(sub, sv.insert(k, sub))]);
                out
            }
        },
    }
}

/// Reads one more word into each partial bundle, the last one first (see `fset_step`).
fn fset_step_exec(names: &Interner, word: &[u8], ft: &FeatureTopology, res: Vec<(FeatureSet, SubstitutionTable)>) -> (r: Vec<(FeatureSet, SubstitutionTable)>)
    requires
        names.wf(),
    ensures
        readings_view(r@) == fset_step(ft@, key_or_next(names@, word@), readings_view(res@)),
{
    let ghost k = key_or_next(names@, word@);
    let ghost orig = readings_view(res@);
    let mut res = res;
    let mut new_res: Vec<(FeatureSet, SubstitutionTable)> = Vec::new();
    assert(readings_view(new_res@) + fset_step(ft@, k, readings_view(res@)) =~= fset_step(ft@, k, orig));
    while res.len() > 0
        invariant
            readings_view(new_res@) + fset_step(ft@, k, readings_view(res@)) == fset_step(ft@, k, orig),
            k == key_or_next(names@, word@),
            names.wf(),
        decreases res@.len(),
    {
        let ghost rv = readings_view(res@);
        let (fset, subst) = res.pop().unwrap();
        assert(readings_view(res@) =~= rv.drop_last());
        assert(rv.last() == (fset@, subst@));
        let ghost fv = fset@;
        let feats = parse_feature(names, word, ft, subst);
        let ghost base = readings_view(new_res@);
        let mut feats = feats;
        let ghost fr = feature_readings_view(feats@);
        // take the readings out in order by reversing them first
        let mut rev: Vec<(Feature, SubstitutionTable)> = Vec::new();
        while feats.len() > 0
            invariant
                feature_readings_view(feats@) + feature_readings_view(rev@).reverse() == fr,
            decreases feats@.len(),
        {
            let ghost fv0 = feature_readings_view(feats@);
            let ghost rv0 = feature_readings_view(rev@);
            let x = feats.pop().unwrap();
            let ghost xv = (x.0, x.1@);
            rev.push(x);
            assert(feature_readings_view(feats@) =~= fv0.drop_last());
            assert(feature_readings_view(rev@) =~= rv0.push(xv));
            assert(fv0.last() == xv);
            assert(feature_readings_view(rev@).reverse() =~= seq![xv] + rv0.reverse());
            assert(feature_readings_view(feats@) + feature_readings_view(rev@).reverse() =~= fv0 + rv0.reverse());
        }
        assert(feature_readings_view(rev@).reverse() =~= fr);
        let n = rev.len();
        while rev.len() > 0
            invariant
                n == fr.len(),
                feature_readings_view(rev@).reverse() == fr.skip(n - rev@.len()),
                rev@.len() <= n,
                fv == fset@,
                readings_view(new_res@) == base + extend_each(fv, fr.take(n - rev@.len())),
            decreases rev@.len(),
        {
            let ghost rv0 = feature_readings_view(rev@);
            let ghost done = n - rev@.len();
            let (f, s) = rev.pop().unwrap();
            assert(feature_readings_view(rev@) =~= rv0.drop_last());
            assert(rv0.reverse()[0] == rv0.last());
            assert(fr.skip(done)[0] == (f, s@));
            assert(fr[done] == (f, s@));
            assert(feature_readings_view(rev@).reverse() =~= rv0.reverse().drop_first());
            assert(fr.skip(done + 1) =~= fr.skip(done).drop_first());
            let mut fs2 = fset.duplicate();
            fs2.insert(f.0, f.1);
            assert(fs2@ == fv.insert(f.0, f.1));
            let ghost prev = readings_view(new_res@);
            let ghost item = (fs2@, s@);
            new_res.push((fs2, s));
            assert(readings_view(new_res@) =~= prev.push(item));
            assert(item == (fv.insert(f.0, f.1), fr[done].1));
            assert(fr.take(done + 1) =~= fr.take(done).push(fr[done]));
            assert(extend_each(fv, fr.take(done + 1)) =~= extend_each(fv, fr.take(done)).push((fv.insert(f.0, f.1), fr[done].1)));
        }
        assert(fr.take(n as int) =~= fr);
        assert(readings_view(new_res@) + fset_step(ft@, k, readings_view(res@)) =~= base + fset_step(ft@, k, rv));
    }
    assert(readings_view(res@) =~= Seq::<(FMap, SubstV)>::empty());
    assert(readings_view(new_res@) =~= fset_step(ft@, k, orig));
    new_res
}

/// The readings of a bundle of words as features (see `expand_fset`).
pub fn parse_feature_set(names: &Interner, words: &Vec<Vec<u8>>, ft: &FeatureTopology, subst: SubstitutionTable) -> (r: Vec<(FeatureSet, SubstitutionTable)>)
    requires
        names.wf(),
    ensures
        readings_view(r@) == expand_fset(ft@, keys_of(names@, views(words@)), subst@),
{
    let ghost ks = keys_of(names@, views(words@));
    let mut res: Vec<(FeatureSet, SubstitutionTable)> = Vec::new();
    let ghost sv = subst@;
    res.push((FeatureSet::new(), subst));
    assert(readings_view(res@) =~= seq![(Map::<Key, Option<Key>>::empty(), sv)]);
    assert(ks.skip(0) =~= ks);
    let mut i: usize = 0;
    while i < words.len()
        invariant
            0 <= i <= words@.len(),
            ks == keys_of(names@, views(words@)),
            ks.len() == words@.len(),
            names.wf(),
            fset_fold(ft@, ks.skip(i as int), readings_view(res@)) == expand_fset(ft@, ks, sv),
        decreases words@.len() - i,
    {
        assert(ks[i as int] == key_or_next(names@, words@[i as int]@));
        assert(ks.skip(i as int).drop_first() =~= ks.skip(i + 1));
        res = fset_step_exec(names, words[i].as_slice(), ft, res);
        i = i + 1;
    }
    assert(ks.skip(words@.len() as int) =~= Seq::<Key>::empty());
    res
}

/// The readings of `MOVED(words)` (see `expand_node`).
pub fn parse_moved(names: &Interner, words: &Vec<Vec<u8>>, ft: &FeatureTopology, subst: SubstitutionTable) -> (r: Vec<(LexiconNode, SubstitutionTable)>)
    requires
        names.wf(),
    ensures
        readings_view(r@) == expand_node(names@, ft@, NodeAst::Moved(views(words@)), subst@),
{
    let sets = parse_feature_set(names, words, ft, subst);
    let ghost sv = readings_view(sets@);
    let mut sets = sets;
    let mut rev: Vec<(LexiconNode, SubstitutionTable)> = Vec::new();
    while sets.len() > 0
        invariant
            readings_view(rev@).reverse() == sv.skip(sets@.len() as int).map_values(
                |p: (FMap, SubstV)| (LexNodeV::Moved(p.0), p.1),
            ),
            sets@.len() <= sv.len(),
            readings_view(sets@) == sv.take(sets@.len() as int),
        decreases sets@.len(),
    {
        let ghost n0 = sets@.len();
        let ghost rv0 = readings_view(rev@);
        let ghost vv = sets@;
        let (fs, s) = sets.pop().unwrap();
        assert((fs, s) == vv[n0 - 1]);
        assert(readings_view(vv)[n0 - 1] == (vv[n0 - 1].0@, vv[n0 - 1].1@));
        assert(sv.take(n0 as int)[n0 - 1] == sv[n0 - 1]);
        assert(readings_view(sets@) =~= sv.take(n0 - 1));
        assert(sv[n0 - 1] == (fs@, s@));
        let ghost item = (LexNodeV::Moved(fs@), s@);
        rev.push((LexiconNode::Moved { from: fs }, s));
        assert(readings_view(rev@) =~= rv0.push(item));
        assert(sv.skip(n0 - 1) =~= seq![sv[n0 - 1]] + sv.skip(n0 as int));
        assert(readings_view(rev@).reverse() =~= seq![item] + rv0.reverse());
    }
    let out = reverse_readings(rev);
    assert(sv.skip(0) =~= sv);
    out
}

/// The list in the opposite order.
fn reverse_readings(v: Vec<(LexiconNode, SubstitutionTable)>) -> (r: Vec<(LexiconNode, SubstitutionTable)>)
    ensures
        readings_view(r@) == readings_view(v@).reverse(),
{
    let ghost orig = readings_view(v@);
    let mut v = v;
    let mut out: Vec<(LexiconNode, SubstitutionTable)> = Vec::new();
    while v.len() > 0
        invariant
            readings_view(out@) == orig.reverse().take(orig.len() - v@.len()),
            readings_view(v@) == orig.take(v@.len() as int),
            v@.len() <= orig.len(),
        decreases v@.len(),
    {
        let ghost n0 = v@.len();
        let ghost ov = readings_view(out@);
        let ghost vv = v@;
        let x = v.pop().unwrap();
        assert(x == vv[n0 - 1]);
        assert(readings_view(vv)[n0 - 1] == (vv[n0 - 1].0@, vv[n0 - 1].1@));
        assert(orig.take(n0 as int)[n0 - 1] == orig[n0 - 1]);
        assert(readings_view(v@) =~= orig.take(n0 - 1));
        assert(orig[n0 - 1] == (x.0@, x.1@));
        let ghost xv = (x.0@, x.1@);
        out.push(x);
        assert(readings_view(out@) =~= ov.push(xv));
        assert(orig.reverse()[orig.len() - n0] == orig[n0 - 1]);
        assert(orig.reverse().take(orig.len() - n0 + 1) =~= orig.reverse().take(orig.len() - n0).push(orig.reverse()[orig.len() - n0]));
        assert(readings_view(out@) =~= orig.reverse().take(orig.len() - n0 + 1));
    }
    assert(orig.reverse().take(orig.len() as int) =~= orig.reverse());
    out
}

/// The readings of a node as written (see `expand_node`).
pub fn parse_syntax_node(names: &Interner, node: &NodeSyntax, ft: &FeatureTopology, subst: SubstitutionTable) -> (r: Vec<(LexiconNode, SubstitutionTable)>)
    requires
        names.wf(),
    ensures
        readings_view(r@) == expand_node(names@, ft@, node@, subst@),
    decreases node, 1int,
{
    match node {
        NodeSyntax::Features(words) => {
            let sets = parse_feature_set(names, words, ft, subst);
            let ghost sv = readings_view(sets@);
            let mut sets = sets;
            let mut rev: Vec<(LexiconNode, SubstitutionTable)> = Vec::new();
            while sets.len() > 0
                invariant
                    readings_view(rev@).reverse() == sv.skip(sets@.len() as int).map_values(
                        |p: (FMap, SubstV)| (LexNodeV::Value(ValueV::Features(p.0)), p.1),
                    ),
                    sets@.len() <= sv.len(),
                    readings_view(sets@) == sv.take(sets@.len() as int),
                decreases sets@.len(),
            {
                let ghost n0 = sets@.len();
                let ghost rv0 = readings_view(rev@);
                let ghost vv = sets@;
                let (fs, s) = sets.pop().unwrap();
                assert((fs, s) == vv[n0 - 1]);
                assert(readings_view(vv)[n0 - 1] == (vv[n0 - 1].0@, vv[n0 - 1].1@));
                assert(sv.take(n0 as int)[n0 - 1] == sv[n0 - 1]);
                assert(readings_view(sets@) =~= sv.take(n0 - 1));
                assert(sv[n0 - 1] == (fs@, s@));
                let ghost item = (LexNodeV::Value(ValueV::Features(fs@)), s@);
                rev.push((LexiconNode::Value { value: SyntaxValue::Features(fs) }, s));
                assert(readings_view(rev@) =~= rv0.push(item));
                assert(sv.skip(n0 - 1) =~= seq![sv[n0 - 1]] + sv.skip(n0 as int));
                assert(readings_view(rev@).reverse() =~= seq![item] + rv0.reverse());
            }
            let out = reverse_readings(rev);
            assert(sv.skip(0) =~= sv);
            out
        },
        NodeSyntax::Moved(words) => parse_moved(names, words, ft, subst),
        NodeSyntax::Lambda(..) => parse_lambda(names, node, ft, subst),
    }
}

/// The readings of a function as written (see `lambda_pairs`).
#[verifier::loop_isolation(false)]
pub fn parse_lambda(names: &Interner, node: &NodeSyntax, ft: &FeatureTopology, subst: SubstitutionTable) -> (r: Vec<(LexiconNode, SubstitutionTable)>)
    requires
        names.wf(),
        node is Lambda,
    ensures
        readings_view(r@) == expand_node(names@, ft@, node@, subst@),
    decreases node, 0int,
{
    let (l, rnode, project) = match node {
        NodeSyntax::Lambda(l, r, p) => (l, r, *p),
        _ => {
            return Vec::new();
        },
    };
    let lefts = parse_syntax_node(names, &**l, ft, subst);
    let ghost lv = readings_view(lefts@);
    let ghost rv = (**rnode)@;
    let mut res: Vec<(LexiconNode, SubstitutionTable)> = Vec::new();
    let mut lefts = reverse_readings(lefts);
    assert(lv.take(0) =~= Seq::<(LexNodeV, SubstV)>::empty());
    let n = lefts.len();
    assert(readings_view(lefts@).len() == lefts@.len());
    assert(lv.reverse().take(n as int) =~= lv.reverse());
    while lefts.len() > 0
        invariant
            n == lv.len(),
            lefts@.len() <= n,
            readings_view(lefts@) == lv.reverse().take(lefts@.len() as int),
            readings_view(res@) == lambda_pairs(names@, ft@, lv.take(n - lefts@.len()), rv, project),
            rv == (**rnode)@,
            names.wf(),
        decreases lefts@.len(),
    {
        let ghost m0 = lefts@.len();
        let ghost done = n - m0;
        let ghost vv = lefts@;
        let (ln, ls) = lefts.pop().unwrap();
        assert((ln, ls) == vv[m0 - 1]);
        assert(readings_view(vv)[m0 - 1] == (vv[m0 - 1].0@, vv[m0 - 1].1@));
        assert(lv.reverse().take(m0 as int)[m0 - 1] == lv.reverse()[m0 - 1]);
        assert(readings_view(lefts@) =~= lv.reverse().take(m0 - 1));
        assert(lv.reverse()[m0 - 1] == lv[done]);
        assert(lv[done] == (ln@, ls@));
        let ghost lnv = ln@;
        let rights = parse_syntax_node(names, &**rnode, ft, ls);
        let ghost rr = readings_view(rights@);
        let ghost base = readings_view(res@);
        let mut rights = reverse_readings(rights);
        let k = rights.len();
        assert(readings_view(rights@).len() == rights@.len());
        assert(rr.reverse().take(k as int) =~= rr.reverse());
        assert(rr.take(0) =~= Seq::<(LexNodeV, SubstV)>::empty());
        while rights.len() > 0
            invariant
                k == rr.len(),
                rights@.len() <= k,
                readings_view(rights@) == rr.reverse().take(rights@.len() as int),
                readings_view(res@) == base + rr.take(k - rights@.len()).map_values(
                    |q: (LexNodeV, SubstV)| (LexNodeV::Lambda(Box::new(lnv), Box::new(q.0), project), q.1),
                ),
                lnv == ln@,
            decreases rights@.len(),
        {
            let ghost j0 = rights@.len();
            let ghost d = k - j0;
            let ghost vv = rights@;
            let (rn, rs) = rights.pop().unwrap();
            assert((rn, rs) == vv[j0 - 1]);
            assert(readings_view(vv)[j0 - 1] == (vv[j0 - 1].0@, vv[j0 - 1].1@));
            assert(rr.reverse().take(j0 as int)[j0 - 1] == rr.reverse()[j0 - 1]);
            assert(readings_view(rights@) =~= rr.reverse().take(j0 - 1));
            assert(rr.reverse()[j0 - 1] == rr[d]);
            assert(rr[d] == (rn@, rs@));
            let ghost rnv = rn@;
            let item = LexiconNode::Lambda { from: Box::new(ln.duplicate()), to: Box::new(rn), project };
            assert(item@ == LexNodeV::Lambda(Box::new(lnv), Box::new(rnv), project));
            let ghost prev = readings_view(res@);
            let ghost iv = (item@, rs@);
            res.push((item, rs));
            assert(readings_view(res@) =~= prev.push(iv));
            assert(rr.take(d + 1) =~= rr.take(d).push(rr[d]));
            assert(rr.take(d + 1).map_values(
                |q: (LexNodeV, SubstV)| (LexNodeV::Lambda(Box::new(lnv), Box::new(q.0), project), q.1),
            ) =~= rr.take(d).map_values(
                |q: (LexNodeV, SubstV)| (LexNodeV::Lambda(Box::new(lnv), Box::new(q.0), project), q.1),
            ).push(iv));
            assert(readings_view(res@) =~= base + rr.take(d + 1).map_values(
                |q: (LexNodeV, SubstV)| (LexNodeV::Lambda(Box::new(lnv), Box::new(q.0), project), q.1),
            ));
        }
        assert(rr.take(k as int) =~= rr);
        assert(lv.take(done + 1).drop_last() =~= lv.take(done));
        assert(lv.take(done + 1).last() == (lnv, ls@));
        assert(rr == expand_node(names@, ft@, rv, ls@));
    }
    assert(lv.take(n as int) =~= lv);
    res
}

} // verus!
