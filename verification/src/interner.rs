use crate::syntax::Key;
use crate::text::{bytes_equal, copy_bytes};
use crate::utf8::{all_valid, lemma_all_valid_push, lemma_str_valid};
use vstd::prelude::*;
use vstd::string::StringSliceAdditionalSpecFns;

verus! {

/// The table of symbols: the word that each `Key` stands for, as bytes.
/// A key is the position of its word in the table.
#[derive(Debug, Clone)]
pub struct Interner {
    words: Vec<Vec<u8>>,
}

impl View for Interner {
    type V = Seq<Seq<u8>>;

    closed spec fn view(&self) -> Seq<Seq<u8>> {
        self.words@.map_values(|w: Vec<u8>| w@)
    }
}

/// The table never holds a word twice.
pub open spec fn distinct_words(t: Seq<Seq<u8>>) -> bool {
    forall|i: int, j: int| 0 <= i < t.len() && 0 <= j < t.len() && i != j ==> #[trigger] t[i] != #[trigger] t[j]
}

/// The key of `word` in the table `t`, if `t` holds it.
pub open spec fn key_of(t: Seq<Seq<u8>>, word: Seq<u8>) -> Option<Key> {
    if exists|i: int| 0 <= i < t.len() && t[i] == word {
        Some((choose|i: int| 0 <= i < t.len() && t[i] == word) as Key)
    } else {
        None
    }
}

/// In a table without repeats a word's key is its position: interning a word and
/// looking it up, or interning it twice, give the one key.
pub proof fn law_key_is_position(t: Seq<Seq<u8>>, i: int)
    requires
        distinct_words(t),
        0 <= i < t.len(),
        t.len() <= u64::MAX,
    ensures
        key_of(t, t[i]) == Some(i as Key),
{
    let j = choose|j: int| 0 <= j < t.len() && t[j] == t[i];
    assert(j == i);
}

/// The key of `word` in the table `t`, or, when `t` lacks it, the key that adding
/// the word to the table would give.
pub open spec fn key_or_next(t: Seq<Seq<u8>>, word: Seq<u8>) -> Key {
    match key_of(t, word) {
        Some(k) => k,
        None => t.len() as Key,
    }
}

impl Interner {
    /// The well-formedness of the table: no word twice, every key fits in a `Key`, and
    /// every word is valid UTF-8.
    pub open spec fn wf(&self) -> bool {
        &&& distinct_words(self@)
        &&& self@.len() <= u64::MAX
        &&& all_valid(self@)
    }

    /// An empty table.
    pub fn new() -> (r: Self)
        ensures
            r@ == Seq::<Seq<u8>>::empty(),
            r.wf(),
    {
        let r = Interner { words: Vec::new() };
        assert(r@ =~= Seq::<Seq<u8>>::empty());
        r
    }

    /// The number of words in the table.
    pub fn len(&self) -> (r: usize)
        ensures
            r == self@.len(),
    {
        self.words.len()
    }

    /// The key of `word`, if the table holds it.
    pub fn lookup(&self, word: &[u8]) -> (r: Option<Key>)
        requires
            self.wf(),
        ensures
            r == key_of(self@, word@),
            match r {
                Some(k) => k < self@.len() && self@[k as int] == word@,
                None => forall|i: int| 0 <= i < self@.len() ==> #[trigger] self@[i] != word@,
            },
    {
        let mut i: usize = 0;
        while i < self.words.len()
            invariant
                0 <= i <= self@.len(),
                self@.len() == self.words@.len(),
                self.wf(),
                forall|j: int| 0 <= j < i ==> #[trigger] self@[j] != word@,
            decreases self.words@.len() - i,
        {
            assert(self@[i as int] == self.words@[i as int]@);
            if bytes_equal(self.words[i].as_slice(), word) {
                proof {
                    let c = choose|j: int| 0 <= j < self@.len() && self@[j] == word@;
                    assert(c == i);
                }
                return Some(i as u64);
            }
            i = i + 1;
        }
        None
    }

    /// A copy of the table.
    pub fn duplicate(&self) -> (r: Self)
        ensures
            r@ == self@,
    {
        let mut words: Vec<Vec<u8>> = Vec::new();
        let mut i: usize = 0;
        while i < self.words.len()
            invariant
                0 <= i <= self.words@.len(),
                self@.len() == self.words@.len(),
                words@.len() == i,
                forall|j: int| 0 <= j < i ==> #[trigger] words@[j]@ == self@[j],
            decreases self.words@.len() - i,
        {
            assert(self@[i as int] == self.words@[i as int]@);
            words.push(copy_bytes(self.words[i].as_slice()));
            i = i + 1;
        }
        let r = Interner { words };
        assert(r@ =~= self@);
        r
    }

    /// The key of `word`, or the key that adding it to the table would give.
    pub fn key_or_next(&self, word: &[u8]) -> (r: Key)
        requires
            self.wf(),
        ensures
            r == key_or_next(self@, word@),
    {
        match self.lookup(word) {
            Some(k) => k,
            None => self.words.len() as Key,
        }
    }

    /// The key of `word`, adding the word to the table when it is new.
    pub fn intern(&mut self, word: &[u8]) -> (r: Key)
        requires
            old(self).wf(),
            old(self)@.len() < u64::MAX,
            vstd::utf8::valid_utf8(word@),
        ensures
            final(self).wf(),
            r < final(self)@.len(),
            final(self)@[r as int] == word@,
            old(self)@.contains(word@) ==> final(self)@ == old(self)@,
            !old(self)@.contains(word@) ==> final(self)@ == old(self)@.push(word@),
    {
        match self.lookup(word) {
            Some(k) => k,
            None => {
                let n = self.words.len();
                self.words.push(copy_bytes(word));
                proof {
                    assert(self@ =~= old(self)@.push(word@));
                    assert(!old(self)@.contains(word@));
                    lemma_all_valid_push(old(self)@, word@);
                }
                n as u64
            },
        }
    }

    /// The key of the text `word`, adding it to the table when it is new.
    pub fn intern_str(&mut self, word: &str) -> (r: Key)
        requires
            old(self).wf(),
            old(self)@.len() < u64::MAX,
        ensures
            final(self).wf(),
            r < final(self)@.len(),
            final(self)@[r as int] == word.spec_bytes(),
            old(self)@.contains(word.spec_bytes()) ==> final(self)@ == old(self)@,
            !old(self)@.contains(word.spec_bytes()) ==> final(self)@ == old(self)@.push(word.spec_bytes()),
    {
        proof {
            lemma_str_valid(word);
        }
        self.intern(word.as_bytes())
    }

    /// The key of the text `word`, if the table holds it.
    pub fn lookup_str(&self, word: &str) -> (r: Option<Key>)
        requires
            self.wf(),
        ensures
            r == key_of(self@, word.spec_bytes()),
    {
        self.lookup(word.as_bytes())
    }

    /// The word that `key` stands for, if the table holds it.
    pub fn resolve(&self, key: Key) -> (r: Option<&Vec<u8>>)
        ensures
            key < self@.len() ==> (r matches Some(w) && w@ == self@[key as int]),
            key >= self@.len() ==> r is None,
    {
        if key < self.words.len() as u64 {
            Some(&self.words[key as usize])
        } else {
            None
        }
    }
}

} // verus!
