use crate::error::SyntaxError;
use std::collections::BTreeMap;
use vstd::prelude::*;
use vstd::std_specs::btree::spec_btree_map_iter;
use vstd::std_specs::iter::IteratorSpec;
use vstd::std_specs::cmp::OrdSpec;

verus! {

/// A symbol of the grammar: a category, a feature value or a word.
/// Symbols are interned integers; an `Interner` turns them back into text.
pub type Key = u64;

/// One entry of a feature set: a category and its optional value.
pub type Feature = (Key, Option<Key>);

/// A finite map from feature categories to an optional value.
#[derive(Debug, Clone, PartialEq, Eq)]
pub struct FeatureSet {
    map: BTreeMap<Key, Option<Key>>,
}

impl View for FeatureSet {
    type V = Map<Key, Option<Key>>;

    closed spec fn view(&self) -> Map<Key, Option<Key>> {
        self.map@
    }
}

/// `sub` is contained in `sup`: every category of `sub` is in `sup` with the same value.
pub open spec fn map_subset(sub: Map<Key, Option<Key>>, sup: Map<Key, Option<Key>>) -> bool {
    forall|k: Key| #[trigger] sub.contains_key(k) ==> sup.contains_key(k) && sup[k] == sub[k]
}

/// Every category of `sub` is also a category of `sup` (values are not compared).
pub open spec fn categories_subset(sub: Map<Key, Option<Key>>, sup: Map<Key, Option<Key>>) -> bool {
    forall|k: Key| #[trigger] sub.contains_key(k) ==> sup.contains_key(k)
}

/// Some category occurs in both maps.
pub open spec fn categories_overlap(a: Map<Key, Option<Key>>, b: Map<Key, Option<Key>>) -> bool {
    exists|k: Key| #[trigger] a.contains_key(k) && b.contains_key(k)
}

/// `m` holds category `k` with value `v`.
pub open spec fn has_feature(m: Map<Key, Option<Key>>, k: Key, v: Option<Key>) -> bool {
    m.contains_key(k) && m[k] == v
}

/// `s` lists the entries of `m` by strictly increasing category.
pub open spec fn is_entry_list(m: Map<Key, Option<Key>>, s: Seq<Feature>) -> bool {
    &&& forall|i: int, j: int| 0 <= i < j < s.len() ==> #[trigger] s[i].0 < #[trigger] s[j].0
    &&& forall|i: int| 0 <= i < s.len() ==> #[trigger] m.contains_key(s[i].0) && m[s[i].0] == s[i].1
    &&& forall|k: Key| #[trigger] m.contains_key(k) ==> exists|i: int| 0 <= i < s.len() && s[i].0 == k
}

/// The entries of `from` that `ignore` does not hold with the same value.
pub open spec fn projected(from: Map<Key, Option<Key>>, ignore: Map<Key, Option<Key>>) -> Map<Key, Option<Key>> {
    Map::new(|k: Key| from.contains_key(k) && !has_feature(ignore, k, from[k]), |k: Key| from[k])
}

/// The entries of `p` whose category precedes every category that `p` shares with `onto`.
pub open spec fn before_first_clash(p: Map<Key, Option<Key>>, onto: Map<Key, Option<Key>>) -> Map<Key, Option<Key>> {
    Map::new(
        |k: Key| p.contains_key(k) && forall|c: Key| #[trigger] p.contains_key(c) && onto.contains_key(c) ==> k < c,
        |k: Key| p[k],
    )
}

/// The map that inserting the entries of `s` in order into an empty map gives; a
/// later entry for a category replaces an earlier one.
pub open spec fn map_of_entries(s: Seq<Feature>) -> Map<Key, Option<Key>>
    decreases s.len(),
{
    if s.len() == 0 {
        Map::empty()
    } else {
        map_of_entries(s.drop_last()).insert(s.last().0, s.last().1)
    }
}

/// Building a feature set from the listing of another gives it back: inserting the
/// entries that `entries` lists, in order, rebuilds the same map.
pub proof fn law_entries_rebuild_the_set(m: Map<Key, Option<Key>>, s: Seq<Feature>)
    requires
        is_entry_list(m, s),
    ensures
        map_of_entries(s) == m,
    decreases s.len(),
{
    if s.len() == 0 {
        assert forall|k: Key| !m.contains_key(k) by {
            if m.contains_key(k) {
                let i = choose|i: int| 0 <= i < s.len() && s[i].0 == k;
            }
        }
        assert(m =~= Map::<Key, Option<Key>>::empty());
    } else {
        let last = s.last();
        let d = s.drop_last();
        let m2 = m.remove(last.0);
        assert(is_entry_list(m2, d)) by {
            assert forall|i: int, j: int| 0 <= i < j < d.len() implies #[trigger] d[i].0 < #[trigger] d[j].0 by {
                assert(s[i].0 < s[j].0);
            }
            assert forall|i: int| 0 <= i < d.len() implies #[trigger] m2.contains_key(d[i].0) && m2[d[i].0] == d[i].1 by {
                assert(s[i].0 < s[s.len() - 1].0);
                assert(m.contains_key(s[i].0));
            }
            assert forall|k: Key| #[trigger] m2.contains_key(k) implies exists|i: int| 0 <= i < d.len() && d[i].0 == k by {
                let j = choose|j: int| 0 <= j < s.len() && s[j].0 == k;
                assert(j != s.len() - 1);
                assert(d[j].0 == k);
            }
        }
        law_entries_rebuild_the_set(m2, d);
        assert(m.contains_key(s[s.len() - 1].0) && m[s[s.len() - 1].0] == s[s.len() - 1].1);
        assert(m2.insert(last.0, last.1) =~= m);
    }
}

impl FeatureSet {
    /// The feature set holding the entries of `entries`, inserted in order.
    pub fn from_entries(entries: Vec<Feature>) -> (r: Self)
        ensures
            r@ == map_of_entries(entries@),
    {
        let mut fs = FeatureSet::new();
        let mut i: usize = 0;
        assert(entries@.take(0) =~= Seq::<Feature>::empty());
        while i < entries.len()
            invariant
                0 <= i <= entries@.len(),
                fs@ == map_of_entries(entries@.take(i as int)),
            decreases entries@.len() - i,
        {
            assert(entries@.take(i + 1).drop_last() =~= entries@.take(i as int));
            fs.insert(entries[i].0, entries[i].1);
            i = i + 1;
        }
        assert(entries@.take(entries@.len() as int) =~= entries@);
        fs
    }

    /// An empty feature set.
    pub fn new() -> (r: Self)
        ensures
            r@ == Map::<Key, Option<Key>>::empty(),
    {
        FeatureSet { map: BTreeMap::new() }
    }

    /// The feature set holding just `category`, without a value.
    pub fn from_category(category: Key) -> (r: Self)
        ensures
            r@ == Map::<Key, Option<Key>>::empty().insert(category, None),
    {
        let mut map = BTreeMap::new();
        map.insert(category, None);
        FeatureSet { map }
    }

    /// A copy with the same entries.
    pub fn duplicate(&self) -> (r: Self)
        ensures
            r@ == self@,
    {
        FeatureSet { map: self.map.clone() }
    }

    /// The value stored for `key`, if the category is present.
    pub fn get(&self, key: &Key) -> (r: Option<&Option<Key>>)
        ensures
            match r {
                Some(v) => self@.contains_key(*key) && self@[*key] == *v,
                None => !self@.contains_key(*key),
            },
    {
        broadcast use vstd::std_specs::btree::group_btree_axioms;
        self.map.get(key)
    }

    /// Sets the value of `key`, replacing any earlier value.
    pub fn insert(&mut self, key: Key, value: Option<Key>)
        ensures
            final(self)@ == old(self)@.insert(key, value),
    {
        broadcast use vstd::std_specs::btree::group_btree_axioms;
        self.map.insert(key, value);
    }

    /// Removes the category `key` with its value.
    pub fn remove(&mut self, key: &Key)
        ensures
            final(self)@ == old(self)@.remove(*key),
    {
        broadcast use vstd::std_specs::btree::group_btree_axioms;
        self.map.remove(key);
    }

    /// Adds `key` with `value` unless the category is already present, which is an error.
    pub fn insert_if_absent(&mut self, key: Key, value: Option<Key>) -> (r: Result<(), SyntaxError>)
        ensures
            old(self)@.contains_key(key) ==> r == Err::<(), SyntaxError>(SyntaxError::CategoryAlreadyHasValue)
                && final(self)@ == old(self)@,
            !old(self)@.contains_key(key) ==> r is Ok && final(self)@ == old(self)@.insert(key, value),
    {
        match self.get(&key) {
            Some(_) => Err(SyntaxError::CategoryAlreadyHasValue),
            None => {
                self.insert(key, value);
                Ok(())
            },
        }
    }

    /// Whether `key` is present with exactly `value`.
    pub fn contains_key_value(&self, key: &Key, value: &Option<Key>) -> (r: bool)
        ensures
            r == has_feature(self@, *key, *value),
    {
        match self.get(key) {
            Some(v) => *v == *value,
            None => false,
        }
    }

    /// Whether the category `key` is present.
    pub fn contains_key(&self, key: &Key) -> (r: bool)
        ensures
            r == self@.contains_key(*key),
    {
        broadcast use vstd::std_specs::btree::group_btree_axioms;
        self.map.contains_key(key)
    }

    /// Removes `key` only where it holds exactly `value`.
    pub fn remove_key_value(&mut self, key: &Key, value: &Option<Key>)
        ensures
            has_feature(old(self)@, *key, *value) ==> final(self)@ == old(self)@.remove(*key),
            !has_feature(old(self)@, *key, *value) ==> final(self)@ == old(self)@,
    {
        if self.contains_key_value(key, value) {
            self.remove(key);
        }
    }

    /// The entries by increasing category.
    pub fn entries(&self) -> (r: Vec<Feature>)
        ensures
            is_entry_list(self@, r@),
    {
        broadcast use vstd::std_specs::btree::group_btree_axioms;
        let ghost all = spec_btree_map_iter(&self.map).remaining();
        let ghost mut n: int = 0;
        let mut out: Vec<Feature> = Vec::new();
        let iter0 = self.map.iter();
        assert(iter0.remaining() == all);
        assert(vstd::std_specs::btree::increasing_seq(all.map_values(|kv: (&Key, &Option<Key>)| *kv.0)));
        let ghost keys = all.map_values(|kv: (&Key, &Option<Key>)| *kv.0);
        assert(forall|i: int, j: int| #![trigger keys[i], keys[j]] 0 <= i < j < keys.len() ==> keys[i].cmp_spec(&keys[j]) is Less);
        for kv in it: iter0
            invariant
                it.seq() == all,
                n == it.index(),
                all == spec_btree_map_iter(&self.map).remaining(),
                out@.len() == n,
                forall|i: int| 0 <= i < n ==> #[trigger] out@[i] == (*all[i].0, *all[i].1),
        {
            proof { n = n + 1; }
            assert(kv == all[n - 1]);
            let (k, v) = kv;
            out.push((*k, *v));
        }
        proof {
            assert(n == all.len());
            assert forall|i: int, j: int| 0 <= i < j < out@.len() implies #[trigger] out@[i].0 < #[trigger] out@[j].0 by {
                assert(keys[i] == out@[i].0);
                assert(keys[j] == out@[j].0);
                assert(keys[i].cmp_spec(&keys[j]) is Less);
            }
            assert forall|i: int| 0 <= i < out@.len() implies #[trigger] self@.contains_key(out@[i].0) && self@[out@[i].0] == out@[i].1 by {
                assert(self@.contains_key(*all[i].0));
            }
            assert forall|k: Key| #[trigger] self@.contains_key(k) implies exists|i: int| 0 <= i < out@.len() && out@[i].0 == k by {
                assert(all.contains((&k, &self@[k])));
                let j = choose|j: int| 0 <= j < all.len() && all[j] == (&k, &self@[k]);
                assert(out@[j].0 == k);
            }
        }
        out
    }

    /// Whether every entry of `self` is an entry of `other`.
    pub fn is_subset(&self, other: &FeatureSet) -> (r: bool)
        ensures
            r == map_subset(self@, other@),
    {
        let entries = self.entries();
        let mut i: usize = 0;
        while i < entries.len()
            invariant
                is_entry_list(self@, entries@),
                0 <= i <= entries@.len(),
                forall|j: int| 0 <= j < i ==> #[trigger] has_feature(other@, entries@[j].0, entries@[j].1),
            decreases entries@.len() - i,
        {
            let (k, v) = entries[i];
            if !other.contains_key_value(&k, &v) {
                assert(self@.contains_key(entries@[i as int].0));
                return false;
            }
            i = i + 1;
        }
        assert forall|k: Key| #[trigger] self@.contains_key(k) implies other@.contains_key(k) && other@[k] == self@[k] by {
            let j = choose|j: int| 0 <= j < entries@.len() && entries@[j].0 == k;
            assert(has_feature(other@, entries@[j].0, entries@[j].1));
        }
        true
    }

    /// Whether both sets hold the same entries.
    pub fn same_as(&self, other: &FeatureSet) -> (r: bool)
        ensures
            r == (self@ == other@),
    {
        let a = self.is_subset(other);
        let b = other.is_subset(self);
        proof {
            if a && b {
                assert(self@ =~= other@);
            }
        }
        a && b
    }

    /// Whether every category of `self` is a category of `other`.
    pub fn is_feature_compatible_subset(&self, other: &FeatureSet) -> (r: bool)
        ensures
            r == categories_subset(self@, other@),
    {
        let entries = self.entries();
        let mut i: usize = 0;
        while i < entries.len()
            invariant
                is_entry_list(self@, entries@),
                0 <= i <= entries@.len(),
                forall|j: int| 0 <= j < i ==> #[trigger] other@.contains_key(entries@[j].0),
            decreases entries@.len() - i,
        {
            let (k, _v) = entries[i];
            if !other.contains_key(&k) {
                assert(self@.contains_key(entries@[i as int].0));
                return false;
            }
            i = i + 1;
        }
        assert forall|k: Key| #[trigger] self@.contains_key(k) implies other@.contains_key(k) by {
            let j = choose|j: int| 0 <= j < entries@.len() && entries@[j].0 == k;
            assert(other@.contains_key(entries@[j].0));
        }
        true
    }

    /// Whether `self` and `other` share a category.
    pub fn overlaps_category(&self, other: &FeatureSet) -> (r: bool)
        ensures
            r == categories_overlap(self@, other@),
    {
        let entries = self.entries();
        let mut i: usize = 0;
        while i < entries.len()
            invariant
                is_entry_list(self@, entries@),
                0 <= i <= entries@.len(),
                forall|j: int| 0 <= j < i ==> !(#[trigger] other@.contains_key(entries@[j].0)),
            decreases entries@.len() - i,
        {
            let (k, _v) = entries[i];
            if other.contains_key(&k) {
                assert(self@.contains_key(entries@[i as int].0));
                return true;
            }
            i = i + 1;
        }
        assert forall|k: Key| !(#[trigger] self@.contains_key(k) && other@.contains_key(k)) by {
            if self@.contains_key(k) {
                let j = choose|j: int| 0 <= j < entries@.len() && entries@[j].0 == k;
                assert(!other@.contains_key(entries@[j].0));
            }
        }
        false
    }

    /// Copies onto `onto` every entry of `from` that `ignore` does not hold with the same
    /// value, in increasing order of category; a category already on `onto` stops the copy
    /// with an error, after the entries before it have been copied.
    pub fn project(from: &FeatureSet, onto: &mut FeatureSet, ignore: &FeatureSet) -> (r: Result<(), SyntaxError>)
        ensures
            r is Ok <==> !categories_overlap(projected(from@, ignore@), old(onto)@),
            r is Err ==> r == Err::<(), SyntaxError>(SyntaxError::CategoryAlreadyHasValue),
            final(onto)@ == old(onto)@.union_prefer_right(
                before_first_clash(projected(from@, ignore@), old(onto)@),
            ),
    {
        let ghost p = projected(from@, ignore@);
        let ghost start = onto@;
        let entries = from.entries();
        let mut i: usize = 0;
        while i < entries.len()
            invariant
                is_entry_list(from@, entries@),
                p == projected(from@, ignore@),
                start == old(onto)@,
                0 <= i <= entries@.len(),
                forall|c: Key| #[trigger] p.contains_key(c) && start.contains_key(c) ==> c >= limit(entries@, i as int),
                onto@ == start.union_prefer_right(below(p, limit(entries@, i as int))),
            decreases entries@.len() - i,
        {
            let (c, v) = entries[i];
            let ghost before = onto@;
            proof { lemma_limit_step(from@, entries@, i as int); }
            if !ignore.contains_key_value(&c, &v) {
                assert(p.contains_key(c));
                let res = onto.insert_if_absent(c, v);
                if res.is_err() {
                    proof {
                        assert(start.contains_key(c));
                        assert(categories_overlap(p, start));
                        assert(below(p, limit(entries@, i as int)) =~= before_first_clash(p, start));
                    }
                    return res;
                }
                proof {
                    assert(below(p, limit(entries@, i + 1)) =~= below(p, limit(entries@, i as int)).insert(c, v));
                    assert(onto@ =~= start.union_prefer_right(below(p, limit(entries@, i + 1))));
                }
            } else {
                proof {
                    assert(!p.contains_key(c));
                    assert(below(p, limit(entries@, i + 1)) =~= below(p, limit(entries@, i as int)));
                }
            }
            i = i + 1;
        }
        proof {
            lemma_limit_end(from@, entries@);
            assert(!categories_overlap(p, start));
            assert(below(p, limit(entries@, i as int)) =~= before_first_clash(p, start));
        }
        Ok(())
    }
}

/// The category at position `i` of `s`, or one past the largest key when `i` is past the end.
pub open spec fn limit(s: Seq<Feature>, i: int) -> int {
    if 0 <= i < s.len() { s[i].0 as int } else { u64::MAX + 1 }
}

/// The entries of `p` whose category is below `b`.
pub open spec fn below(p: Map<Key, Option<Key>>, b: int) -> Map<Key, Option<Key>> {
    Map::new(|k: Key| p.contains_key(k) && k < b, |k: Key| p[k])
}

proof fn lemma_limit_step(m: Map<Key, Option<Key>>, s: Seq<Feature>, i: int)
    requires
        is_entry_list(m, s),
        0 <= i < s.len(),
    ensures
        forall|k: Key| #[trigger] m.contains_key(k) && k < limit(s, i + 1) ==> k < limit(s, i) || k == s[i].0,
        limit(s, i) == s[i].0,
        limit(s, i) < limit(s, i + 1),
{
    assert forall|k: Key| #[trigger] m.contains_key(k) && k < limit(s, i + 1) implies k < limit(s, i) || k == s[i].0 by {
        let j = choose|j: int| 0 <= j < s.len() && s[j].0 == k;
        if j > i {
            if j > i + 1 {
                assert(s[i + 1].0 < s[j].0);
            }
        } else if j < i {
            assert(s[j].0 < s[i].0);
        }
    }
    if i + 1 < s.len() {
        assert(s[i].0 < s[i + 1].0);
    }
}

proof fn lemma_limit_end(m: Map<Key, Option<Key>>, s: Seq<Feature>)
    requires
        is_entry_list(m, s),
    ensures
        forall|k: Key| #[trigger] m.contains_key(k) ==> k < limit(s, s.len() as int),
{
}

impl Default for FeatureSet {
    /// The empty feature set.
    fn default() -> (r: Self)
        ensures
            r@ == Map::<Key, Option<Key>>::empty(),
    {
        FeatureSet::new()
    }
}

/// A walk over the entries of a feature set by increasing category.
pub struct FeatureSetIter {
    entries: Vec<Feature>,
    pos: usize,
}

impl View for FeatureSetIter {
    type V = Seq<Feature>;

    /// The entries not handed out yet.
    closed spec fn view(&self) -> Seq<Feature> {
        if self.pos <= self.entries@.len() {
            self.entries@.skip(self.pos as int)
        } else {
            Seq::empty()
        }
    }
}

impl FeatureSetIter {
    /// Hands out the next entry, or `None` when every entry has been handed out.
    pub fn next(&mut self) -> (r: Option<Feature>)
        ensures
            old(self)@.len() == 0 ==> r is None && final(self)@ == old(self)@,
            old(self)@.len() > 0 ==> r == Some(old(self)@[0]) && final(self)@ == old(self)@.drop_first(),
    {
        if self.pos < self.entries.len() {
            let e = self.entries[self.pos];
            self.pos = self.pos + 1;
            assert(self@ =~= old(self)@.drop_first());
            Some(e)
        } else {
            None
        }
    }
}

impl FeatureSet {
    /// A walk over the entries by increasing category.
    pub fn iter(&self) -> (r: FeatureSetIter)
        ensures
            is_entry_list(self@, r@),
    {
        let entries = self.entries();
        let r = FeatureSetIter { entries, pos: 0 };
        assert(r@ =~= entries@);
        r
    }
}

} // verus!
