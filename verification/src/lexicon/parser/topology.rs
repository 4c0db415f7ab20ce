use crate::syntax::Key;
use vstd::prelude::*;

verus! {

/// The categories of features and their values, as the pairs (category, value) in
/// the order they were declared, each pair once.
#[derive(Debug)]
pub struct FeatureTopology {
    pairs: Vec<(Key, Key)>,
}

impl View for FeatureTopology {
    type V = Seq<(Key, Key)>;

    closed spec fn view(&self) -> Seq<(Key, Key)> {
        self.pairs@
    }
}

/// `k` is a declared category.
pub open spec fn is_category(ft: Seq<(Key, Key)>, k: Key) -> bool {
    exists|i: int| 0 <= i < ft.len() && #[trigger] ft[i].0 == k
}

/// The values of category `k`, in the order they were declared.
pub open spec fn values_of(ft: Seq<(Key, Key)>, k: Key) -> Seq<Key>
    decreases ft.len(),
{
    if ft.len() == 0 {
        Seq::empty()
    } else if ft.last().0 == k {
        values_of(ft.drop_last(), k).push(ft.last().1)
    } else {
        values_of(ft.drop_last(), k)
    }
}

/// The first category declared with the value `v`, if any.
pub open spec fn category_of(ft: Seq<(Key, Key)>, v: Key) -> Option<Key>
    decreases ft.len(),
{
    if ft.len() == 0 {
        None
    } else {
        match category_of(ft.drop_last(), v) {
            Some(c) => Some(c),
            None => if ft.last().1 == v {
                Some(ft.last().0)
            } else {
                None
            },
        }
    }
}

/// The pairs with (category, value) declared; a pair already there is kept once.
pub open spec fn ft_insert(ft: Seq<(Key, Key)>, c: Key, v: Key) -> Seq<(Key, Key)> {
    if ft.contains((c, v)) {
        ft
    } else {
        ft.push((c, v))
    }
}

impl FeatureTopology {
    /// No category declared.
    pub fn new() -> (r: Self)
        ensures
            r@ == Seq::<(Key, Key)>::empty(),
    {
        FeatureTopology { pairs: Vec::new() }
    }

    /// Declares `value` a value of `category`.
    pub fn insert(&mut self, category: Key, value: Key)
        ensures
            final(self)@ == ft_insert(old(self)@, category, value),
    {
        let mut i: usize = 0;
        while i < self.pairs.len()
            invariant
                0 <= i <= self.pairs@.len(),
                self@ == old(self)@,
                forall|j: int| 0 <= j < i ==> #[trigger] self@[j] != (category, value),
            decreases self.pairs@.len() - i,
        {
            if self.pairs[i].0 == category && self.pairs[i].1 == value {
                assert(self@[i as int] == (category, value));
                return;
            }
            i = i + 1;
        }
        self.pairs.push((category, value));
    }

    /// Whether `k` is a declared category.
    pub fn is_category(&self, k: &Key) -> (r: bool)
        ensures
            r == is_category(self@, *k),
    {
        let mut i: usize = 0;
        while i < self.pairs.len()
            invariant
                0 <= i <= self.pairs@.len(),
                forall|j: int| 0 <= j < i ==> #[trigger] self@[j].0 != *k,
            decreases self.pairs@.len() - i,
        {
            if self.pairs[i].0 == *k {
                assert(self@[i as int].0 == *k);
                return true;
            }
            i = i + 1;
        }
        false
    }

    /// The values of the category `k`, in the order they were declared; none for a
    /// word that is not a category.
    pub fn get_from_category(&self, k: &Key) -> (r: Option<Vec<Key>>)
        ensures
            is_category(self@, *k) ==> (r matches Some(v) && v@ == values_of(self@, *k)),
            !is_category(self@, *k) ==> r is None,
    {
        if !self.is_category(k) {
            return None;
        }
        let mut out: Vec<Key> = Vec::new();
        let mut i: usize = 0;
        assert(self@.take(0) =~= Seq::<(Key, Key)>::empty());
        while i < self.pairs.len()
            invariant
                0 <= i <= self.pairs@.len(),
                out@ == values_of(self@.take(i as int), *k),
            decreases self.pairs@.len() - i,
        {
            assert(self@.take(i + 1).drop_last() =~= self@.take(i as int));
            if self.pairs[i].0 == *k {
                out.push(self.pairs[i].1);
            }
            i = i + 1;
        }
        assert(self@.take(self@.len() as int) =~= self@);
        Some(out)
    }

    /// The first category declared with the value `v`, if any.
    pub fn get_from_value(&self, v: &Key) -> (r: Option<Key>)
        ensures
            r == category_of(self@, *v),
    {
        let mut i: usize = 0;
        assert(self@.take(0) =~= Seq::<(Key, Key)>::empty());
        while i < self.pairs.len()
            invariant
                0 <= i <= self.pairs@.len(),
                category_of(self@.take(i as int), *v) is None,
            decreases self.pairs@.len() - i,
        {
            assert(self@.take(i + 1).drop_last() =~= self@.take(i as int));
            if self.pairs[i].1 == *v {
                proof { lemma_category_of_prefix(self@, i + 1, *v); }
                return Some(self.pairs[i].0);
            }
            i = i + 1;
        }
        assert(self@.take(self@.len() as int) =~= self@);
        None
    }
}

/// Once a prefix names a category for `v`, the whole sequence names the same one.
proof fn lemma_category_of_prefix(ft: Seq<(Key, Key)>, n: int, v: Key)
    requires
        0 <= n <= ft.len(),
        category_of(ft.take(n), v) is Some,
    ensures
        category_of(ft, v) == category_of(ft.take(n), v),
    decreases ft.len() - n,
{
    if n < ft.len() {
        assert(ft.take(n + 1).drop_last() =~= ft.take(n));
        lemma_category_of_prefix(ft, n + 1, v);
    } else {
        assert(ft.take(n) =~= ft);
    }
}

} // verus!
