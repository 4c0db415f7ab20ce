use vstd::prelude::*;

verus! {

/// ASCII white space: space, tab, line feed, carriage return.
pub open spec fn is_space(b: u8) -> bool {
    b == 32 || b == 9 || b == 10 || b == 13
}

/// A byte that belongs to a word: an ASCII letter or digit, or any byte of a
/// multi-byte character.
pub open spec fn is_word_byte(b: u8) -> bool {
    (48 <= b && b <= 57) || (65 <= b && b <= 90) || (97 <= b && b <= 122) || b >= 128
}

/// The word being read, as a token list: empty when no word is being read.
pub open spec fn flush(cur: Seq<u8>) -> Seq<Seq<u8>> {
    if cur.len() > 0 { seq![cur] } else { Seq::empty() }
}

/// The tokens of `s` when the word `cur` has been read just before it: words are
/// maximal runs of word bytes, white space separates, and every other byte (a mark
/// such as `,` `.` `?`) is a token of its own.
pub open spec fn tokens_from(s: Seq<u8>, cur: Seq<u8>) -> Seq<Seq<u8>>
    decreases s.len(),
{
    if s.len() == 0 {
        flush(cur)
    } else {
        let b = s[0];
        let rest = s.drop_first();
        if is_word_byte(b) {
            tokens_from(rest, cur.push(b))
        } else if is_space(b) {
            flush(cur) + tokens_from(rest, Seq::empty())
        } else {
            flush(cur) + seq![seq![b]] + tokens_from(rest, Seq::empty())
        }
    }
}

/// The tokens of the text `s`.
pub open spec fn tokens(s: Seq<u8>) -> Seq<Seq<u8>> {
    tokens_from(s, Seq::empty())
}

/// The words of `s` when `cur` has been read just before it: maximal runs of bytes
/// that are not white space.
pub open spec fn words_from(s: Seq<u8>, cur: Seq<u8>) -> Seq<Seq<u8>>
    decreases s.len(),
{
    if s.len() == 0 {
        flush(cur)
    } else {
        let b = s[0];
        let rest = s.drop_first();
        if is_space(b) {
            flush(cur) + words_from(rest, Seq::empty())
        } else {
            words_from(rest, cur.push(b))
        }
    }
}

/// The words of `s`, split at white space.
pub open spec fn words(s: Seq<u8>) -> Seq<Seq<u8>> {
    words_from(s, Seq::empty())
}

pub open spec fn views(v: Seq<Vec<u8>>) -> Seq<Seq<u8>> {
    v.map_values(|w: Vec<u8>| w@)
}

pub fn is_space_byte(b: u8) -> (r: bool)
    ensures
        r == is_space(b),
{
    b == 32 || b == 9 || b == 10 || b == 13
}

pub fn is_word_byte_exec(b: u8) -> (r: bool)
    ensures
        r == is_word_byte(b),
{
    (48 <= b && b <= 57) || (65 <= b && b <= 90) || (97 <= b && b <= 122) || b >= 128
}

proof fn lemma_views_push(v: Seq<Vec<u8>>, w: Vec<u8>)
    ensures
        views(v.push(w)) == views(v).push(w@),
{
    assert(views(v.push(w)) =~= views(v).push(w@));
}

/// Splits `text` into tokens: words, and marks such as `,` `.` `?` on their own.
pub fn tokenize(text: &[u8]) -> (r: Vec<Vec<u8>>)
    ensures
        views(r@) == tokens(text@),
{
    let mut out: Vec<Vec<u8>> = Vec::new();
    let mut cur: Vec<u8> = Vec::new();
    let mut i: usize = 0;
    assert(text@.skip(0) =~= text@);
    assert(views(out@) =~= Seq::<Seq<u8>>::empty());
    while i < text.len()
        invariant
            0 <= i <= text@.len(),
            views(out@) + tokens_from(text@.skip(i as int), cur@) == tokens(text@),
        decreases text@.len() - i,
    {
        let b = text[i];
        let ghost s = text@.skip(i as int);
        assert(s[0] == b);
        assert(s.drop_first() =~= text@.skip(i + 1));
        if is_word_byte_exec(b) {
            cur.push(b);
        } else {
            let ghost o = views(out@);
            let ghost c = cur@;
            if cur.len() > 0 {
                let w = cur;
                proof { lemma_views_push(out@, w); }
                out.push(w);
                cur = Vec::new();
            } else {
                assert(flush(c) =~= Seq::<Seq<u8>>::empty());
            }
            assert(views(out@) =~= o + flush(c));
            if !is_space_byte(b) {
                let mut mark: Vec<u8> = Vec::new();
                mark.push(b);
                assert(mark@ =~= seq![b]);
                proof { lemma_views_push(out@, mark); }
                out.push(mark);
                assert(views(out@) =~= o + flush(c) + seq![seq![b]]);
            }
            assert(cur@ =~= Seq::<u8>::empty());
            assert(views(out@) + tokens_from(text@.skip(i + 1), cur@) =~= o + tokens_from(s, c));
        }
        i = i + 1;
    }
    let ghost o = views(out@);
    let ghost c = cur@;
    assert(text@.skip(i as int) =~= Seq::<u8>::empty());
    if cur.len() > 0 {
        proof { lemma_views_push(out@, cur); }
        out.push(cur);
    }
    assert(views(out@) =~= o + flush(c));
    out
}

/// Splits `text` into words at white space.
pub fn split_words(text: &[u8]) -> (r: Vec<Vec<u8>>)
    ensures
        views(r@) == words(text@),
{
    let mut out: Vec<Vec<u8>> = Vec::new();
    let mut cur: Vec<u8> = Vec::new();
    let mut i: usize = 0;
    assert(text@.skip(0) =~= text@);
    assert(views(out@) =~= Seq::<Seq<u8>>::empty());
    while i < text.len()
        invariant
            0 <= i <= text@.len(),
            views(out@) + words_from(text@.skip(i as int), cur@) == words(text@),
        decreases text@.len() - i,
    {
        let b = text[i];
        let ghost s = text@.skip(i as int);
        assert(s[0] == b);
        assert(s.drop_first() =~= text@.skip(i + 1));
        if !is_space_byte(b) {
            cur.push(b);
        } else {
            let ghost o = views(out@);
            let ghost c = cur@;
            if cur.len() > 0 {
                let w = cur;
                proof { lemma_views_push(out@, w); }
                out.push(w);
                cur = Vec::new();
            } else {
                assert(flush(c) =~= Seq::<Seq<u8>>::empty());
            }
            assert(views(out@) =~= o + flush(c));
            assert(cur@ =~= Seq::<u8>::empty());
            assert(views(out@) + words_from(text@.skip(i + 1), cur@) =~= o + words_from(s, c));
        }
        i = i + 1;
    }
    let ghost o = views(out@);
    let ghost c = cur@;
    assert(text@.skip(i as int) =~= Seq::<u8>::empty());
    if cur.len() > 0 {
        proof { lemma_views_push(out@, cur); }
        out.push(cur);
    }
    assert(views(out@) =~= o + flush(c));
    out
}

} // verus!
