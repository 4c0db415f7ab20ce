use crate::syntax::render::bytes_to_string;
use crate::text::str_bytes;
use crate::utf8::lemma_push_ascii;
use vstd::prelude::*;
use vstd::string::StringSliceAdditionalSpecFns;
use vstd::utf8::valid_utf8;

verus! {

/// An ASCII letter or digit.
pub open spec fn is_ascii_alnum(b: u8) -> bool {
    (48 <= b && b <= 57) || (65 <= b && b <= 90) || (97 <= b && b <= 122)
}

/// A byte that continues a multi-byte character.
pub open spec fn is_continuation(b: u8) -> bool {
    128 <= b && b < 192
}

/// The file-name form of the UTF-8 text `s`: each ASCII letter or digit stays, and
/// every other character, whatever the number of its bytes, becomes one hyphen.
pub open spec fn slug(s: Seq<u8>) -> Seq<u8>
    decreases s.len(),
{
    if s.len() == 0 {
        Seq::empty()
    } else {
        let rest = slug(s.drop_last());
        let b = s.last();
        if is_continuation(b) {
            rest
        } else if is_ascii_alnum(b) {
            rest.push(b)
        } else {
            rest.push(45u8)
        }
    }
}

proof fn lemma_slug_valid(s: Seq<u8>)
    ensures
        valid_utf8(slug(s)),
        forall|i: int| 0 <= i < slug(s).len() ==> #[trigger] slug(s)[i] < 128,
    decreases s.len(),
{
    if s.len() == 0 {
        assert(slug(s) =~= Seq::<u8>::empty());
        vstd::utf8::encode_utf8_valid_utf8(Seq::<char>::empty());
        assert(vstd::utf8::encode_utf8(Seq::<char>::empty()) =~= Seq::<u8>::empty());
    } else {
        lemma_slug_valid(s.drop_last());
        let b = s.last();
        if !is_continuation(b) {
            let c: u8 = if is_ascii_alnum(b) { b } else { 45u8 };
            lemma_push_ascii(slug(s.drop_last()), c);
        }
    }
}

/// The text as a part of a file name: each ASCII letter or digit stays, and every other
/// character becomes a hyphen.
pub fn sanitize_for_filename(raw: &str) -> (r: String)
    ensures
        r@ == vstd::utf8::decode_utf8(slug(raw.spec_bytes())),
{
    let bytes = str_bytes(raw);
    let mut out: Vec<u8> = Vec::new();
    let mut i: usize = 0;
    while i < bytes.len()
        invariant
            0 <= i <= bytes@.len(),
            out@ == slug(bytes@.take(i as int)),
        decreases bytes@.len() - i,
    {
        let b = bytes[i];
        assert(bytes@.take(i + 1).drop_last() =~= bytes@.take(i as int));
        if 128 <= b && b < 192 {
        } else if (48 <= b && b <= 57) || (65 <= b && b <= 90) || (97 <= b && b <= 122) {
            out.push(b);
        } else {
            out.push(45u8);
        }
        i = i + 1;
    }
    assert(bytes@.take(bytes@.len() as int) =~= bytes@);
    proof {
        lemma_slug_valid(bytes@);
    }
    bytes_to_string(out)
}

} // verus!
