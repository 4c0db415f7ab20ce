use crate::text::{append_bytes, bytes_equal};
use crate::tokenizer::{is_space, is_space_byte, views};
use vstd::prelude::*;

verus! {

pub open spec fn trim_start(s: Seq<u8>) -> Seq<u8>
    decreases s.len(),
{
    if s.len() > 0 && is_space(s[0]) { trim_start(s.drop_first()) } else { s }
}

pub open spec fn trim_end(s: Seq<u8>) -> Seq<u8>
    decreases s.len(),
{
    if s.len() > 0 && is_space(s.last()) { trim_end(s.drop_last()) } else { s }
}

/// `s` without ASCII white space (space, tab, line feed, carriage return) at either end.
pub open spec fn trim(s: Seq<u8>) -> Seq<u8> {
    trim_end(trim_start(s))
}

/// The words joined by single spaces.
pub open spec fn join(ws: Seq<Seq<u8>>) -> Seq<u8>
    decreases ws.len(),
{
    if ws.len() == 0 {
        Seq::empty()
    } else if ws.len() == 1 {
        ws[0]
    } else {
        join(ws.drop_last()).push(32u8) + ws.last()
    }
}

/// The position of the first occurrence of `w` in `ws`, or the length when there is none.
pub open spec fn first_index(ws: Seq<Seq<u8>>, w: Seq<u8>) -> int
    decreases ws.len(),
{
    if ws.len() == 0 {
        0
    } else {
        let i = first_index(ws.drop_last(), w);
        if i < ws.len() - 1 {
            i
        } else if ws.last() == w {
            ws.len() - 1
        } else {
            ws.len() as int
        }
    }
}

/// The length of the white-space character that starts at byte `i` of the UTF-8 text
/// `s`, or 0 where none starts there. White space is what `char::is_whitespace` counts:
/// U+0009 to U+000D, U+0020, U+0085, U+00A0, U+1680, U+2000 to U+200A, U+2028,
/// U+2029, U+202F, U+205F and U+3000.
pub open spec fn ws_at(s: Seq<u8>, i: int) -> int {
    if 0 <= i < s.len() && (s[i] == 32 || (9 <= s[i] && s[i] <= 13)) {
        1
    } else if 0 <= i && i + 1 < s.len() && s[i] == 0xC2 && (s[i + 1] == 0x85 || s[i + 1] == 0xA0) {
        2
    } else if 0 <= i && i + 2 < s.len() && (
        (s[i] == 0xE1 && s[i + 1] == 0x9A && s[i + 2] == 0x80)
        || (s[i] == 0xE2 && s[i + 1] == 0x80 && ((0x80 <= s[i + 2] && s[i + 2] <= 0x8A) || s[i + 2] == 0xA8
            || s[i + 2] == 0xA9 || s[i + 2] == 0xAF))
        || (s[i] == 0xE2 && s[i + 1] == 0x81 && s[i + 2] == 0x9F)
        || (s[i] == 0xE3 && s[i + 1] == 0x80 && s[i + 2] == 0x80)
    ) {
        3
    } else {
        0
    }
}

/// The length of the white-space character that ends `s`, or 0 where none does.
pub open spec fn ws_end(s: Seq<u8>) -> int {
    if s.len() >= 1 && ws_at(s, s.len() - 1) == 1 {
        1
    } else if s.len() >= 2 && ws_at(s, s.len() - 2) == 2 {
        2
    } else if s.len() >= 3 && ws_at(s, s.len() - 3) == 3 {
        3
    } else {
        0
    }
}

/// The position of the first byte from `i` on that is not white space.
pub open spec fn skip_ws(s: Seq<u8>, i: int) -> int
    decreases s.len() - i,
{
    if 0 <= i < s.len() && ws_at(s, i) > 0 {
        skip_ws(s, i + ws_at(s, i))
    } else {
        i
    }
}

/// `s` without white-space characters at its end.
pub open spec fn utrim_end(s: Seq<u8>) -> Seq<u8>
    decreases s.len(),
{
    if ws_end(s) > 0 {
        utrim_end(s.take(s.len() - ws_end(s)))
    } else {
        s
    }
}

/// `s` without white-space characters at either end, as `str::trim` gives it.
pub open spec fn utrim(s: Seq<u8>) -> Seq<u8> {
    utrim_end(s.skip(skip_ws(s, 0)))
}

/// The position of the first white-space character from `i` on, or the length.
pub open spec fn next_ws(s: Seq<u8>, i: int) -> int
    decreases s.len() - i,
{
    if i < 0 || i >= s.len() {
        s.len() as int
    } else if ws_at(s, i) > 0 {
        i
    } else {
        next_ws(s, i + 1)
    }
}

/// The next white space from `i` on lies between `i` and the end.
pub proof fn lemma_next_ws(s: Seq<u8>, i: int)
    requires
        0 <= i <= s.len(),
    ensures
        i <= next_ws(s, i) <= s.len(),
    decreases s.len() - i,
{
    if i < s.len() && ws_at(s, i) == 0 {
        lemma_next_ws(s, i + 1);
    }
}

/// The words of `s` from byte `i` on: the runs of characters between white space, as
/// `str::split_whitespace` gives them.
pub open spec fn uwords_from(s: Seq<u8>, i: int) -> Seq<Seq<u8>>
    decreases s.len() - i,
{
    if i < 0 || i >= s.len() {
        Seq::empty()
    } else if ws_at(s, i) > 0 {
        uwords_from(s, i + ws_at(s, i))
    } else {
        proof {
            lemma_next_ws(s, i + 1);
        }
        let k = next_ws(s, i + 1);
        seq![s.subrange(i, k)] + uwords_from(s, k)
    }
}

/// The words of `s`, as `str::split_whitespace` gives them.
pub open spec fn uwords(s: Seq<u8>) -> Seq<Seq<u8>> {
    uwords_from(s, 0)
}

pub open spec fn word_did() -> Seq<u8> { seq![100u8, 105u8, 100u8] }
pub open spec fn word_the() -> Seq<u8> { seq![116u8, 104u8, 101u8] }
pub open spec fn word_eat() -> Seq<u8> { seq![101u8, 97u8, 116u8] }
pub open spec fn word_whose() -> Seq<u8> { seq![119u8, 104u8, 111u8, 115u8, 101u8] }

/// The question rewritten into the declarative order that the English grammar parses:
/// `did the SUBJ eat OBJ ?` becomes `the SUBJ did OBJ ?`, and
/// `whose OBJ did the SUBJ eat ?` becomes `the SUBJ did whose OBJ ?`; other texts have none.
pub open spec fn normalized_question(text: Seq<u8>) -> Option<Seq<u8>> {
    let t = utrim(text);
    if t.len() == 0 || t.last() != 63u8 {
        None
    } else {
        let ws = uwords(utrim(t.drop_last()));
        if ws.len() == 0 {
            None
        } else {
            let v = first_index(ws, word_eat());
            if ws[0] == word_did() && v < ws.len() && v >= 3 && ws[1] == word_the() {
                Some(join(ws.subrange(1, v) + seq![word_did()] + ws.subrange(v + 1, ws.len() as int)).push(63u8))
            } else {
                let d = first_index(ws, word_did());
                if ws[0] == word_whose() && d < ws.len() && d > 1 && ws.last() == word_eat() {
                    let subject = ws.subrange(d + 1, ws.len() - 1);
                    if subject.len() > 0 && subject[0] == word_the() {
                        Some(join(subject + seq![word_did()] + ws.subrange(0, d)).push(63u8))
                    } else {
                        None
                    }
                } else {
                    None
                }
            }
        }
    }
}

proof fn lemma_trim_start_is_suffix(s: Seq<u8>)
    ensures
        exists|k: int| 0 <= k <= s.len() && trim_start(s) == s.skip(k)
            && forall|j: int| 0 <= j < k ==> is_space(#[trigger] s[j]),
        trim_start(s).len() > 0 ==> !is_space(trim_start(s)[0]),
    decreases s.len(),
{
    if s.len() > 0 && is_space(s[0]) {
        lemma_trim_start_is_suffix(s.drop_first());
        let k = choose|k: int| 0 <= k <= s.drop_first().len() && trim_start(s.drop_first()) == s.drop_first().skip(k)
            && forall|j: int| 0 <= j < k ==> is_space(#[trigger] s.drop_first()[j]);
        assert(s.drop_first().skip(k) =~= s.skip(k + 1));
        assert forall|j: int| 0 <= j < k + 1 implies is_space(#[trigger] s[j]) by {
            if j > 0 {
                assert(s[j] == s.drop_first()[j - 1]);
            }
        }
    } else {
        assert(s.skip(0) =~= s);
    }
}

/// `s` without ASCII white space (space, tab, line feed, carriage return) at either end.
pub fn trim_bytes(s: &[u8]) -> (r: Vec<u8>)
    ensures
        r@ == trim(s@),
{
    let mut a: usize = 0;
    assert(s@.skip(0) =~= s@);
    while a < s.len() && is_space_byte(s[a])
        invariant
            0 <= a <= s@.len(),
            trim_start(s@.skip(a as int)) == trim_start(s@),
        decreases s@.len() - a,
    {
        assert(s@.skip(a as int).drop_first() =~= s@.skip(a + 1));
        a = a + 1;
    }
    assert(trim_start(s@) == s@.skip(a as int));
    let mut b: usize = s.len();
    while b > a && is_space_byte(s[b - 1])
        invariant
            a <= b <= s@.len(),
            trim_end(s@.subrange(a as int, b as int)) == trim(s@),
            trim_start(s@) == s@.skip(a as int),
        decreases b,
    {
        assert(s@.subrange(a as int, b as int).drop_last() =~= s@.subrange(a as int, b - 1));
        b = b - 1;
    }
    let mut out: Vec<u8> = Vec::new();
    let mut i: usize = a;
    while i < b
        invariant
            a <= i <= b,
            b <= s@.len(),
            out@ == s@.subrange(a as int, i as int),
        decreases b - i,
    {
        out.push(s[i]);
        assert(out@ =~= s@.subrange(a as int, i + 1));
        i = i + 1;
    }
    out
}

/// The words joined by single spaces.
pub fn join_words(ws: &Vec<Vec<u8>>) -> (r: Vec<u8>)
    ensures
        r@ == join(views(ws@)),
{
    let mut out: Vec<u8> = Vec::new();
    let mut i: usize = 0;
    assert(views(ws@).take(0) =~= Seq::<Seq<u8>>::empty());
    while i < ws.len()
        invariant
            0 <= i <= ws@.len(),
            out@ == join(views(ws@).take(i as int)),
        decreases ws@.len() - i,
    {
        let ghost prev = views(ws@).take(i as int);
        assert(views(ws@).take(i + 1).drop_last() =~= prev);
        assert(views(ws@).take(i + 1).last() == ws@[i as int]@);
        if i > 0 {
            out.push(32u8);
        }
        append_bytes(&mut out, ws[i].as_slice());
        i = i + 1;
    }
    assert(views(ws@).take(ws@.len() as int) =~= views(ws@));
    out
}

/// The position of the first occurrence of `w` in `ws`, or the length when there is none.
pub fn find_word(ws: &Vec<Vec<u8>>, w: &[u8]) -> (r: usize)
    ensures
        r == first_index(views(ws@), w@),
{
    let mut i: usize = 0;
    while i < ws.len()
        invariant
            0 <= i <= ws@.len(),
            forall|j: int| 0 <= j < i ==> views(ws@)[j] != w@,
        decreases ws@.len() - i,
    {
        if bytes_equal(ws[i].as_slice(), w) {
            proof { lemma_first_index(views(ws@), w@, i as int); }
            return i;
        }
        i = i + 1;
    }
    proof { lemma_first_index(views(ws@), w@, ws@.len() as int); }
    ws.len()
}

proof fn lemma_first_index(ws: Seq<Seq<u8>>, w: Seq<u8>, i: int)
    requires
        0 <= i <= ws.len(),
        forall|j: int| 0 <= j < i ==> ws[j] != w,
        i < ws.len() ==> ws[i] == w,
    ensures
        first_index(ws, w) == i,
    decreases ws.len(),
{
    if ws.len() > 0 {
        let s = ws.drop_last();
        if i < ws.len() - 1 {
            lemma_first_index(s, w, i);
        } else {
            assert forall|j: int| 0 <= j < ws.len() - 1 implies s[j] != w by {
                assert(s[j] == ws[j]);
            }
            lemma_first_index(s, w, ws.len() - 1);
        }
    }
}

fn slice_words(ws: &Vec<Vec<u8>>, lo: usize, hi: usize, out: &mut Vec<Vec<u8>>)
    requires
        lo <= hi <= ws@.len(),
    ensures
        views(final(out)@) == views(old(out)@) + views(ws@).subrange(lo as int, hi as int),
{
    let mut i: usize = lo;
    while i < hi
        invariant
            lo <= i <= hi,
            hi <= ws@.len(),
            views(out@) == views(old(out)@) + views(ws@).subrange(lo as int, i as int),
        decreases hi - i,
    {
        let w = crate::text::copy_bytes(ws[i].as_slice());
        proof {
            assert(views(out@.push(w)) =~= views(out@).push(w@));
            assert(views(ws@)[i as int] == ws@[i as int]@);
        }
        out.push(w);
        assert(views(out@) =~= views(old(out)@) + views(ws@).subrange(lo as int, i + 1));
        i = i + 1;
    }
}

/// The length of the white-space character that starts at byte `i` of `s`, or 0.
fn ws_len(s: &[u8], i: usize) -> (r: usize)
    ensures
        r == ws_at(s@, i as int),
{
    let n = s.len();
    if i >= n {
        return 0;
    }
    let b = s[i];
    if b == 32 || (9 <= b && b <= 13) {
        return 1;
    }
    if n - i > 1 && b == 0xC2 && (s[i + 1] == 0x85 || s[i + 1] == 0xA0) {
        return 2;
    }
    if n - i > 2 {
        let c = s[i + 1];
        let d = s[i + 2];
        if (b == 0xE1 && c == 0x9A && d == 0x80)
            || (b == 0xE2 && c == 0x80 && ((0x80 <= d && d <= 0x8A) || d == 0xA8 || d == 0xA9 || d == 0xAF))
            || (b == 0xE2 && c == 0x81 && d == 0x9F)
            || (b == 0xE3 && c == 0x80 && d == 0x80) {
            return 3;
        }
    }
    0
}

/// The length of the white-space character that ends `t`, or 0.
fn ws_end_len(t: &Vec<u8>) -> (r: usize)
    ensures
        r == ws_end(t@),
{
    let n = t.len();
    if n >= 1 && ws_len(t.as_slice(), n - 1) == 1 {
        return 1;
    }
    if n >= 2 && ws_len(t.as_slice(), n - 2) == 2 {
        return 2;
    }
    if n >= 3 && ws_len(t.as_slice(), n - 3) == 3 {
        return 3;
    }
    0
}

/// `s` without white-space characters at either end, as `str::trim` gives it.
pub fn trim_unicode(s: &[u8]) -> (r: Vec<u8>)
    ensures
        r@ == utrim(s@),
{
    let mut a: usize = 0;
    while a < s.len() && ws_len(s, a) > 0
        invariant
            0 <= a <= s@.len(),
            skip_ws(s@, a as int) == skip_ws(s@, 0),
        decreases s@.len() - a,
    {
        a = a + ws_len(s, a);
    }
    let mut t: Vec<u8> = Vec::new();
    let mut i: usize = a;
    while i < s.len()
        invariant
            a <= i <= s@.len(),
            t@ == s@.subrange(a as int, i as int),
        decreases s@.len() - i,
    {
        t.push(s[i]);
        assert(t@ =~= s@.subrange(a as int, i + 1));
        i = i + 1;
    }
    assert(t@ =~= s@.skip(skip_ws(s@, 0)));
    let ghost start = t@;
    let mut w = ws_end_len(&t);
    while w > 0
        invariant
            utrim_end(t@) == utrim_end(start),
            w == ws_end(t@),
            w <= t@.len(),
        decreases t@.len(),
    {
        let ghost before = t@;
        let mut k: usize = 0;
        while k < w
            invariant
                0 <= k <= w,
                w <= before.len(),
                t@ == before.take(before.len() - k),
            decreases w - k,
        {
            t.pop();
            assert(t@ =~= before.take(before.len() - (k + 1)));
            k = k + 1;
        }
        w = ws_end_len(&t);
    }
    t
}

/// The words of `s`, as `str::split_whitespace` gives them.
pub fn split_unicode_words(s: &[u8]) -> (r: Vec<Vec<u8>>)
    ensures
        views(r@) == uwords(s@),
{
    let mut out: Vec<Vec<u8>> = Vec::new();
    let mut i: usize = 0;
    assert(views(out@) =~= Seq::<Seq<u8>>::empty());
    assert(views(out@) + uwords_from(s@, 0) =~= uwords(s@));
    while i < s.len()
        invariant
            0 <= i <= s@.len(),
            views(out@) + uwords_from(s@, i as int) == uwords(s@),
        decreases s@.len() - i,
    {
        let w = ws_len(s, i);
        if w > 0 {
            i = i + w;
        } else {
            let mut j: usize = i + 1;
            while j < s.len() && ws_len(s, j) == 0
                invariant
                    i < j <= s@.len(),
                    next_ws(s@, j as int) == next_ws(s@, i + 1),
                decreases s@.len() - j,
            {
                j = j + 1;
            }
            let mut word: Vec<u8> = Vec::new();
            let mut k: usize = i;
            while k < j
                invariant
                    i <= k <= j,
                    j <= s@.len(),
                    word@ == s@.subrange(i as int, k as int),
                decreases j - k,
            {
                word.push(s[k]);
                assert(word@ =~= s@.subrange(i as int, k + 1));
                k = k + 1;
            }
            let ghost prev = views(out@);
            assert(uwords_from(s@, i as int) == seq![s@.subrange(i as int, j as int)] + uwords_from(s@, j as int));
            out.push(word);
            assert(views(out@) =~= prev.push(word@));
            assert(views(out@) + uwords_from(s@, j as int) =~= prev + uwords_from(s@, i as int));
            i = j;
        }
    }
    assert(views(out@) + uwords_from(s@, i as int) =~= views(out@));
    out
}

/// The question `text` rewritten into declarative order (see `normalized_question`).
pub fn normalize_english_questions_for_legacy_grammar(text: &[u8]) -> (r: Option<Vec<u8>>)
    ensures
        match normalized_question(text@) {
            Some(n) => r matches Some(v) && v@ == n,
            None => r is None,
        },
{
    let did: Vec<u8> = vec![100u8, 105u8, 100u8];
    let the: Vec<u8> = vec![116u8, 104u8, 101u8];
    let eat: Vec<u8> = vec![101u8, 97u8, 116u8];
    let whose: Vec<u8> = vec![119u8, 104u8, 111u8, 115u8, 101u8];
    assert(did@ =~= word_did());
    assert(the@ =~= word_the());
    assert(eat@ =~= word_eat());
    assert(whose@ =~= word_whose());
    let t = trim_unicode(text);
    let n = t.len();
    if n == 0 || t[n - 1] != 63u8 {
        return None;
    }
    let mut head: Vec<u8> = Vec::new();
    let mut i: usize = 0;
    while i < n - 1
        invariant
            n == t@.len(),
            n > 0,
            0 <= i <= n - 1,
            head@ == t@.take(i as int),
        decreases n - 1 - i,
    {
        head.push(t[i]);
        assert(head@ =~= t@.take(i + 1));
        i = i + 1;
    }
    assert(head@ =~= t@.drop_last());
    let core = trim_unicode(head.as_slice());
    let ws = split_unicode_words(core.as_slice());
    let len = ws.len();
    if len == 0 {
        return None;
    }
    let ghost wv = views(ws@);
    let v = find_word(&ws, eat.as_slice());
    let starts_did = bytes_equal(ws[0].as_slice(), did.as_slice());
    assert(wv[0] == ws@[0]@);
    if starts_did && v < len && v >= 3 && bytes_equal(ws[1].as_slice(), the.as_slice()) {
        let mut parts: Vec<Vec<u8>> = Vec::new();
        assert(views(parts@) =~= Seq::<Seq<u8>>::empty());
        slice_words(&ws, 1, v, &mut parts);
        parts.push(crate::text::copy_bytes(did.as_slice()));
        slice_words(&ws, v + 1, len, &mut parts);
        assert(views(parts@) =~= wv.subrange(1, v as int) + seq![word_did()] + wv.subrange(v + 1, len as int));
        let mut out = join_words(&parts);
        out.push(63u8);
        return Some(out);
    }
    proof {
        if len > 1 {
            assert(wv[1] == ws@[1]@);
        }
    }
    let d = find_word(&ws, did.as_slice());
    let starts_whose = bytes_equal(ws[0].as_slice(), whose.as_slice());
    assert(wv.last() == ws@[len - 1]@);
    if starts_whose && d < len && d > 1 && bytes_equal(ws[len - 1].as_slice(), eat.as_slice()) {
        if d + 1 < len - 1 && bytes_equal(ws[d + 1].as_slice(), the.as_slice()) {
            let mut parts: Vec<Vec<u8>> = Vec::new();
            assert(views(parts@) =~= Seq::<Seq<u8>>::empty());
            slice_words(&ws, d + 1, len - 1, &mut parts);
            parts.push(crate::text::copy_bytes(did.as_slice()));
            slice_words(&ws, 0, d, &mut parts);
            assert(views(parts@) =~= wv.subrange(d + 1, len - 1) + seq![word_did()] + wv.subrange(0, d as int));
            let mut out = join_words(&parts);
            out.push(63u8);
            return Some(out);
        }
        return None;
    }
    None
}

} // verus!
