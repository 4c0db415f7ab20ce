use vstd::prelude::*;
use vstd::string::StringSliceAdditionalSpecFns;

verus! {

/// Whether two byte strings are equal.
pub fn bytes_equal(a: &[u8], b: &[u8]) -> (r: bool)
    ensures
        r == (a@ == b@),
{
    if a.len() != b.len() {
        return false;
    }
    let mut i: usize = 0;
    while i < a.len()
        invariant
            a@.len() == b@.len(),
            0 <= i <= a@.len(),
            forall|j: int| 0 <= j < i ==> a@[j] == b@[j],
        decreases a@.len() - i,
    {
        if a[i] != b[i] {
            return false;
        }
        i = i + 1;
    }
    assert(a@ =~= b@);
    true
}

/// A copy of a byte string.
pub fn copy_bytes(a: &[u8]) -> (r: Vec<u8>)
    ensures
        r@ == a@,
{
    let mut out: Vec<u8> = Vec::new();
    let mut i: usize = 0;
    while i < a.len()
        invariant
            0 <= i <= a@.len(),
            out@ == a@.take(i as int),
        decreases a@.len() - i,
    {
        out.push(a[i]);
        assert(out@ =~= a@.take(i + 1));
        i = i + 1;
    }
    assert(a@.take(a@.len() as int) =~= a@);
    out
}

/// Appends the bytes of `b` to `out`.
pub fn append_bytes(out: &mut Vec<u8>, b: &[u8])
    ensures
        final(out)@ == old(out)@ + b@,
{
    let mut i: usize = 0;
    while i < b.len()
        invariant
            0 <= i <= b@.len(),
            out@ == old(out)@ + b@.take(i as int),
        decreases b@.len() - i,
    {
        out.push(b[i]);
        assert(out@ =~= old(out)@ + b@.take(i + 1));
        i = i + 1;
    }
    assert(b@.take(b@.len() as int) =~= b@);
}

/// The bytes of a string.
pub fn str_bytes(s: &str) -> (r: Vec<u8>)
    ensures
        r@ == s.spec_bytes(),
{
    copy_bytes(s.as_bytes())
}

/// Byte-wise lexicographic order: the order of `String` in Rust.
pub open spec fn bytes_leq(a: Seq<u8>, b: Seq<u8>) -> bool
    decreases a.len(),
{
    if a.len() == 0 {
        true
    } else if b.len() == 0 {
        false
    } else if a[0] < b[0] {
        true
    } else if a[0] > b[0] {
        false
    } else {
        bytes_leq(a.drop_first(), b.drop_first())
    }
}

pub open spec fn bytes_order() -> spec_fn(Seq<u8>, Seq<u8>) -> bool {
    |a: Seq<u8>, b: Seq<u8>| bytes_leq(a, b)
}

proof fn lemma_leq_reflexive(a: Seq<u8>)
    ensures
        bytes_leq(a, a),
    decreases a.len(),
{
    if a.len() > 0 {
        lemma_leq_reflexive(a.drop_first());
    }
}

proof fn lemma_leq_antisymmetric(a: Seq<u8>, b: Seq<u8>)
    requires
        bytes_leq(a, b),
        bytes_leq(b, a),
    ensures
        a == b,
    decreases a.len(),
{
    if a.len() > 0 && b.len() > 0 {
        lemma_leq_antisymmetric(a.drop_first(), b.drop_first());
        assert(a =~= seq![a[0]] + a.drop_first());
        assert(b =~= seq![b[0]] + b.drop_first());
    } else {
        assert(a.len() == 0 && b.len() == 0);
        assert(a =~= b);
    }
}

proof fn lemma_leq_transitive(a: Seq<u8>, b: Seq<u8>, c: Seq<u8>)
    requires
        bytes_leq(a, b),
        bytes_leq(b, c),
    ensures
        bytes_leq(a, c),
    decreases a.len(),
{
    if a.len() > 0 && b.len() > 0 && c.len() > 0 && a[0] == b[0] && b[0] == c[0] {
        lemma_leq_transitive(a.drop_first(), b.drop_first(), c.drop_first());
    }
}

proof fn lemma_leq_total(a: Seq<u8>, b: Seq<u8>)
    ensures
        bytes_leq(a, b) || bytes_leq(b, a),
    decreases a.len(),
{
    if a.len() > 0 && b.len() > 0 && a[0] == b[0] {
        lemma_leq_total(a.drop_first(), b.drop_first());
    }
}

/// Byte-wise lexicographic order is a total order.
pub proof fn lemma_bytes_order_total()
    ensures
        vstd::relations::total_ordering(bytes_order()),
{
    assert forall|a: Seq<u8>| #[trigger] bytes_order()(a, a) by {
        lemma_leq_reflexive(a);
    }
    assert forall|a: Seq<u8>, b: Seq<u8>| #[trigger] bytes_order()(a, b) && #[trigger] bytes_order()(b, a) implies a == b by {
        lemma_leq_antisymmetric(a, b);
    }
    assert forall|a: Seq<u8>, b: Seq<u8>, c: Seq<u8>| #[trigger] bytes_order()(a, b) && #[trigger] bytes_order()(b, c) implies bytes_order()(a, c) by {
        lemma_leq_transitive(a, b, c);
    }
    assert forall|a: Seq<u8>, b: Seq<u8>| #[trigger] bytes_order()(a, b) || #[trigger] bytes_order()(b, a) by {
        lemma_leq_total(a, b);
    }
}

/// Whether `a` comes before or equals `b` in byte-wise lexicographic order.
pub fn bytes_le(a: &[u8], b: &[u8]) -> (r: bool)
    ensures
        r == bytes_leq(a@, b@),
{
    let mut i: usize = 0;
    assert(a@.skip(0) =~= a@);
    assert(b@.skip(0) =~= b@);
    while i < a.len() && i < b.len()
        invariant
            0 <= i <= a@.len(),
            i <= b@.len(),
            bytes_leq(a@, b@) == bytes_leq(a@.skip(i as int), b@.skip(i as int)),
        decreases a@.len() - i,
    {
        let ghost sa = a@.skip(i as int);
        let ghost sb = b@.skip(i as int);
        assert(sa[0] == a@[i as int]);
        assert(sb[0] == b@[i as int]);
        if a[i] < b[i] {
            return true;
        }
        if a[i] > b[i] {
            return false;
        }
        assert(sa.drop_first() =~= a@.skip(i + 1));
        assert(sb.drop_first() =~= b@.skip(i + 1));
        i = i + 1;
    }
    i == a.len()
}

pub open spec fn byte_views(v: Seq<Vec<u8>>) -> Seq<Seq<u8>> {
    v.map_values(|w: Vec<u8>| w@)
}

proof fn lemma_insert_multiset(s: Seq<Seq<u8>>, pos: int, x: Seq<u8>)
    requires
        0 <= pos <= s.len(),
    ensures
        s.insert(pos, x).to_multiset() == s.to_multiset().insert(x),
{
    broadcast use vstd::seq_lib::group_to_multiset_ensures;
    broadcast use vstd::multiset::group_multiset_axioms;
    let a = s.subrange(0, pos);
    let b = s.subrange(pos, s.len() as int);
    assert(s =~= a + b);
    assert(s.insert(pos, x) =~= a.push(x) + b);
    vstd::seq_lib::lemma_multiset_commutative(a.push(x), b);
    vstd::seq_lib::lemma_multiset_commutative(a, b);
    assert(a.push(x).to_multiset() =~= a.to_multiset().insert(x));
    assert(s.insert(pos, x).to_multiset() =~= s.to_multiset().insert(x));
}

/// The byte strings in byte-wise lexicographic order.
pub fn sort_texts(v: Vec<Vec<u8>>) -> (r: Vec<Vec<u8>>)
    ensures
        byte_views(r@) == byte_views(v@).sort_by(bytes_order()),
{
    let mut out: Vec<Vec<u8>> = Vec::new();
    let mut rest = v;
    let ghost all = byte_views(rest@);
    proof { lemma_bytes_order_total(); }
    assert(byte_views(out@) =~= Seq::<Seq<u8>>::empty());
    assert(all.take(0) =~= Seq::<Seq<u8>>::empty());
    proof {
        broadcast use vstd::seq_lib::group_to_multiset_ensures;
        assert(byte_views(out@).to_multiset().len() == 0);
        assert(all.take(0).to_multiset().len() == 0);
        assert(byte_views(out@).to_multiset() =~= all.take(0).to_multiset());
    }
    let mut i: usize = 0;
    let n = rest.len();
    while i < n
        invariant
            n == rest@.len(),
            all == byte_views(rest@),
            0 <= i <= n,
            vstd::relations::total_ordering(bytes_order()),
            vstd::relations::sorted_by(byte_views(out@), bytes_order()),
            byte_views(out@).to_multiset() == all.take(i as int).to_multiset(),
        decreases n - i,
    {
        let w = crate::text::copy_bytes(rest[i].as_slice());
        // find the insertion point: after every text that is not greater
        let mut pos: usize = 0;
        while pos < out.len() && bytes_le(out[pos].as_slice(), w.as_slice())
            invariant
                0 <= pos <= out@.len(),
                forall|k: int| 0 <= k < pos ==> bytes_leq(#[trigger] byte_views(out@)[k], w@),
            decreases out@.len() - pos,
        {
            pos = pos + 1;
        }
        let ghost before = byte_views(out@);
        out.insert(pos, w);
        proof {
            broadcast use vstd::seq_lib::group_to_multiset_ensures;
            let after = byte_views(out@);
            assert(after =~= before.insert(pos as int, w@));
            assert(w@ == all[i as int]);
            assert(all.take(i + 1) =~= all.take(i as int).push(all[i as int]));
            lemma_insert_multiset(before, pos as int, w@);
            assert forall|a: int, b: int| 0 <= a < b < after.len() implies #[trigger] bytes_order()(after[a], after[b]) by {
                if a < pos && b < pos {
                } else if a < pos && b == pos {
                } else if a < pos && b > pos {
                    assert(bytes_order()(before[a], before[b - 1]));
                } else if a == pos {
                    if pos < before.len() {
                        assert(!bytes_leq(before[pos as int], w@));
                        lemma_leq_total(before[pos as int], w@);
                        if b - 1 > pos {
                            assert(bytes_order()(before[pos as int], before[b - 1]));
                            lemma_leq_transitive(w@, before[pos as int], before[b - 1]);
                        }
                    }
                } else {
                    assert(bytes_order()(before[a - 1], before[b - 1]));
                }
            }
        }
        i = i + 1;
    }
    proof {
        assert(all.take(n as int) =~= all);
        all.lemma_sort_by_ensures(bytes_order());
        vstd::seq_lib::lemma_sorted_unique(byte_views(out@), all.sort_by(bytes_order()), bytes_order());
    }
    out
}

/// The texts joined by `sep`.
pub open spec fn join_sep(ws: Seq<Seq<u8>>, sep: Seq<u8>) -> Seq<u8>
    decreases ws.len(),
{
    if ws.len() == 0 {
        Seq::empty()
    } else if ws.len() == 1 {
        ws[0]
    } else {
        join_sep(ws.drop_last(), sep) + sep + ws.last()
    }
}

/// The texts joined by `sep`.
pub fn join_with(ws: &Vec<Vec<u8>>, sep: &[u8]) -> (r: Vec<u8>)
    ensures
        r@ == join_sep(byte_views(ws@), sep@),
{
    let mut out: Vec<u8> = Vec::new();
    let mut i: usize = 0;
    assert(byte_views(ws@).take(0) =~= Seq::<Seq<u8>>::empty());
    while i < ws.len()
        invariant
            0 <= i <= ws@.len(),
            out@ == join_sep(byte_views(ws@).take(i as int), sep@),
        decreases ws@.len() - i,
    {
        let ghost prev = byte_views(ws@).take(i as int);
        assert(byte_views(ws@).take(i + 1).drop_last() =~= prev);
        assert(byte_views(ws@).take(i + 1).last() == ws@[i as int]@);
        if i > 0 {
            append_bytes(&mut out, sep);
        }
        append_bytes(&mut out, ws[i].as_slice());
        i = i + 1;
    }
    assert(byte_views(ws@).take(ws@.len() as int) =~= byte_views(ws@));
    out
}

/// The decimal digits of `n`.
pub open spec fn decimal(n: nat) -> Seq<u8>
    decreases n,
{
    if n < 10 {
        seq![(48 + n) as u8]
    } else {
        decimal(n / 10).push((48 + n % 10) as u8)
    }
}

/// The decimal digits of `n`.
pub fn decimal_bytes(n: usize) -> (r: Vec<u8>)
    ensures
        r@ == decimal(n as nat),
    decreases n,
{
    if n < 10 {
        let mut v: Vec<u8> = Vec::new();
        v.push((48 + n) as u8);
        assert(v@ =~= decimal(n as nat));
        v
    } else {
        let mut v = decimal_bytes(n / 10);
        v.push((48 + n % 10) as u8);
        v
    }
}

} // verus!
