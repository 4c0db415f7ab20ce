use crate::text::{bytes_order, decimal, join_sep, lemma_bytes_order_total};
use vstd::prelude::*;
use vstd::string::StringSliceAdditionalSpecFns;
use vstd::utf8::valid_utf8;

verus! {

/// Every byte string of `ws` is valid UTF-8.
pub open spec fn all_valid(ws: Seq<Seq<u8>>) -> bool {
    forall|i: int| 0 <= i < ws.len() ==> valid_utf8(#[trigger] ws[i])
}

/// The bytes of a string are valid UTF-8.
pub proof fn lemma_str_valid(s: &str)
    ensures
        valid_utf8(s.spec_bytes()),
{
    vstd::utf8::encode_utf8_valid_utf8(s@);
}

/// An ASCII byte on its own is valid UTF-8.
pub proof fn lemma_ascii_valid(b: u8)
    requires
        b < 128,
    ensures
        valid_utf8(seq![b]),
{
    let c = b as char;
    let cs = seq![c];
    assert(vstd::utf8::is_ascii_chars(cs));
    vstd::utf8::is_ascii_chars_encode_utf8(cs);
    vstd::utf8::encode_utf8_valid_utf8(cs);
    assert(vstd::utf8::encode_utf8(cs) =~= seq![b]);
}

/// Joining valid byte strings with two valid byte strings keeps validity.
pub proof fn lemma_concat3(a: Seq<u8>, b: Seq<u8>, c: Seq<u8>)
    requires
        valid_utf8(a),
        valid_utf8(b),
        valid_utf8(c),
    ensures
        valid_utf8(a + b + c),
{
    vstd::utf8::valid_utf8_concat(a, b);
    vstd::utf8::valid_utf8_concat(a + b, c);
}

pub proof fn lemma_concat(a: Seq<u8>, b: Seq<u8>)
    requires
        valid_utf8(a),
        valid_utf8(b),
    ensures
        valid_utf8(a + b),
{
    vstd::utf8::valid_utf8_concat(a, b);
}

/// Pushing an ASCII byte keeps validity.
pub proof fn lemma_push_ascii(a: Seq<u8>, b: u8)
    requires
        valid_utf8(a),
        b < 128,
    ensures
        valid_utf8(a.push(b)),
{
    lemma_ascii_valid(b);
    vstd::utf8::valid_utf8_concat(a, seq![b]);
    assert(a.push(b) =~= a + seq![b]);
}

/// The decimal digits of a number are valid UTF-8.
pub proof fn lemma_decimal_valid(n: nat)
    ensures
        valid_utf8(decimal(n)),
    decreases n,
{
    if n < 10 {
        lemma_ascii_valid((48 + n) as u8);
    } else {
        lemma_decimal_valid(n / 10);
        lemma_push_ascii(decimal(n / 10), (48 + n % 10) as u8);
    }
}

/// Valid byte strings joined by a valid separator are valid.
pub proof fn lemma_join_valid(ws: Seq<Seq<u8>>, sep: Seq<u8>)
    requires
        all_valid(ws),
        valid_utf8(sep),
    ensures
        valid_utf8(join_sep(ws, sep)),
    decreases ws.len(),
{
    if ws.len() == 0 {
        assert(valid_utf8(Seq::<u8>::empty()));
    } else if ws.len() > 1 {
        let d = ws.drop_last();
        assert(all_valid(d)) by {
            assert forall|i: int| 0 <= i < d.len() implies valid_utf8(#[trigger] d[i]) by {
                assert(d[i] == ws[i]);
            }
        }
        lemma_join_valid(d, sep);
        assert(valid_utf8(ws[ws.len() - 1]));
        lemma_concat3(join_sep(d, sep), sep, ws.last());
    } else {
        assert(valid_utf8(ws[0]));
    }
}

/// Sorting valid byte strings keeps them valid.
pub proof fn lemma_sorted_valid(ws: Seq<Seq<u8>>)
    requires
        all_valid(ws),
    ensures
        all_valid(ws.sort_by(bytes_order())),
        ws.sort_by(bytes_order()).len() == ws.len(),
{
    broadcast use vstd::seq_lib::group_to_multiset_ensures;
    lemma_bytes_order_total();
    ws.lemma_sort_by_ensures(bytes_order());
    let s = ws.sort_by(bytes_order());
    assert(s.to_multiset().len() == ws.to_multiset().len());
    assert forall|i: int| 0 <= i < s.len() implies valid_utf8(#[trigger] s[i]) by {
        assert(s.contains(s[i]));
        assert(s.to_multiset().count(s[i]) > 0);
        assert(ws.to_multiset().count(s[i]) > 0);
        assert(ws.contains(s[i]));
        let j = choose|j: int| 0 <= j < ws.len() && ws[j] == s[i];
        assert(valid_utf8(ws[j]));
    }
}

/// `n` spaces are valid UTF-8.
pub proof fn lemma_spaces_valid(n: nat)
    ensures
        valid_utf8(Seq::new(n, |_i: int| 32u8)),
    decreases n,
{
    if n == 0 {
        assert(Seq::new(n, |_i: int| 32u8) =~= Seq::<u8>::empty());
    } else {
        lemma_spaces_valid((n - 1) as nat);
        lemma_push_ascii(Seq::new((n - 1) as nat, |_i: int| 32u8), 32u8);
        assert(Seq::new(n, |_i: int| 32u8) =~= Seq::new((n - 1) as nat, |_i: int| 32u8).push(32u8));
    }
}

/// In valid UTF-8, an ASCII byte splits the bytes into two valid parts.
pub proof fn lemma_split_at_ascii(bytes: Seq<u8>, i: int)
    requires
        valid_utf8(bytes),
        0 <= i < bytes.len(),
        bytes[i] < 128,
    ensures
        valid_utf8(bytes.subrange(0, i)),
        valid_utf8(bytes.subrange(i + 1, bytes.len() as int)),
{
    vstd::utf8::is_char_boundary_iff_not_is_continuation_byte(bytes, i);
    vstd::utf8::valid_utf8_split(bytes, i);
    let suf = bytes.subrange(i, bytes.len() as int);
    assert(suf[0] == bytes[i]);
    assert(valid_utf8(suf));
    assert(vstd::utf8::pop_first_scalar(suf) =~= bytes.subrange(i + 1, bytes.len() as int));
}

/// Adding valid words to a table of valid words keeps it valid.
pub proof fn lemma_all_valid_push(ws: Seq<Seq<u8>>, w: Seq<u8>)
    requires
        all_valid(ws),
        valid_utf8(w),
    ensures
        all_valid(ws.push(w)),
{
    assert forall|i: int| 0 <= i < ws.push(w).len() implies valid_utf8(#[trigger] ws.push(w)[i]) by {
        if i < ws.len() {
            assert(ws.push(w)[i] == ws[i]);
        }
    }
}

pub proof fn lemma_all_valid_concat(a: Seq<Seq<u8>>, b: Seq<Seq<u8>>)
    requires
        all_valid(a),
        all_valid(b),
    ensures
        all_valid(a + b),
{
    assert forall|i: int| 0 <= i < (a + b).len() implies valid_utf8(#[trigger] (a + b)[i]) by {
        if i < a.len() {
            assert((a + b)[i] == a[i]);
        } else {
            assert((a + b)[i] == b[i - a.len()]);
        }
    }
}

} // verus!
