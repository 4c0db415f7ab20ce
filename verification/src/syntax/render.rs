use super::feature_set::{is_entry_list, Feature, FeatureSet, Key};
use super::value::{SyntaxValue, ValueV};
use crate::interner::Interner;
use crate::text::{append_bytes, byte_views, bytes_order, join_sep, join_with, sort_texts};
use crate::utf8::{all_valid, lemma_ascii_valid, lemma_concat, lemma_concat3, lemma_join_valid, lemma_sorted_valid};
use vstd::utf8::valid_utf8;
use vstd::prelude::*;

verus! {

/// The word for `k` in the table `t`; a key the table lacks reads `?`.
pub open spec fn key_text(t: Seq<Seq<u8>>, k: Key) -> Seq<u8> {
    if k < t.len() { t[k as int] } else { seq![63u8] }
}

/// `category` or `category:value`.
pub open spec fn feature_text(t: Seq<Seq<u8>>, f: Feature) -> Seq<u8> {
    match f.1 {
        Some(v) => key_text(t, f.0) + seq![58u8] + key_text(t, v),
        None => key_text(t, f.0),
    }
}

pub open spec fn feature_texts(t: Seq<Seq<u8>>, s: Seq<Feature>) -> Seq<Seq<u8>> {
    s.map_values(|f: Feature| feature_text(t, f))
}

/// The entries of `m` by increasing category.
pub open spec fn entries_of(m: Map<Key, Option<Key>>) -> Seq<Feature> {
    choose|s: Seq<Feature>| is_entry_list(m, s)
}

/// The texts of the entries of `m`, in byte-wise order.
pub open spec fn sorted_feature_texts(t: Seq<Seq<u8>>, m: Map<Key, Option<Key>>) -> Seq<Seq<u8>> {
    feature_texts(t, entries_of(m)).sort_by(bytes_order())
}

/// The text of a feature set: its entries as text, in byte-wise order, joined by `--`.
pub open spec fn fs_text(t: Seq<Seq<u8>>, m: Map<Key, Option<Key>>) -> Seq<u8> {
    join_sep(sorted_feature_texts(t, m), seq![45u8, 45u8])
}

/// The text of a value: the word, or the text of the features.
pub open spec fn value_text(t: Seq<Seq<u8>>, v: ValueV) -> Seq<u8> {
    match v {
        ValueV::Item(k) => key_text(t, k),
        ValueV::Features(m) => fs_text(t, m),
    }
}

/// Two strictly increasing listings of one map are the same listing.
pub proof fn lemma_entry_list_unique(m: Map<Key, Option<Key>>, s1: Seq<Feature>, s2: Seq<Feature>)
    requires
        is_entry_list(m, s1),
        is_entry_list(m, s2),
    ensures
        s1 == s2,
    decreases s1.len(),
{
    if s1.len() == 0 {
        if s2.len() > 0 {
            assert(m.contains_key(s2[0].0));
            let j = choose|j: int| 0 <= j < s1.len() && s1[j].0 == s2[0].0;
        }
        assert(s1 =~= s2);
    } else {
        if s2.len() == 0 {
            assert(m.contains_key(s1[0].0));
        }
        let k1 = s1[0].0;
        let k2 = s2[0].0;
        assert(m.contains_key(k1) && m.contains_key(k2));
        let j1 = choose|j: int| 0 <= j < s1.len() && s1[j].0 == k2;
        let j2 = choose|j: int| 0 <= j < s2.len() && s2[j].0 == k1;
        if j1 > 0 {
            assert(s1[0].0 < s1[j1].0);
        }
        if j2 > 0 {
            assert(s2[0].0 < s2[j2].0);
        }
        assert(k1 == k2);
        let m2 = m.remove(k1);
        let t1 = s1.drop_first();
        let t2 = s2.drop_first();
        assert(is_entry_list(m2, t1)) by {
            assert forall|i: int, j: int| 0 <= i < j < t1.len() implies #[trigger] t1[i].0 < #[trigger] t1[j].0 by {
                assert(s1[i + 1].0 < s1[j + 1].0);
            }
            assert forall|i: int| 0 <= i < t1.len() implies #[trigger] m2.contains_key(t1[i].0) && m2[t1[i].0] == t1[i].1 by {
                assert(s1[0].0 < s1[i + 1].0);
                assert(m.contains_key(s1[i + 1].0));
            }
            assert forall|k: Key| #[trigger] m2.contains_key(k) implies exists|i: int| 0 <= i < t1.len() && t1[i].0 == k by {
                let j = choose|j: int| 0 <= j < s1.len() && s1[j].0 == k;
                assert(t1[j - 1].0 == k);
            }
        }
        assert(is_entry_list(m2, t2)) by {
            assert forall|i: int, j: int| 0 <= i < j < t2.len() implies #[trigger] t2[i].0 < #[trigger] t2[j].0 by {
                assert(s2[i + 1].0 < s2[j + 1].0);
            }
            assert forall|i: int| 0 <= i < t2.len() implies #[trigger] m2.contains_key(t2[i].0) && m2[t2[i].0] == t2[i].1 by {
                assert(s2[0].0 < s2[i + 1].0);
                assert(m.contains_key(s2[i + 1].0));
            }
            assert forall|k: Key| #[trigger] m2.contains_key(k) implies exists|i: int| 0 <= i < t2.len() && t2[i].0 == k by {
                let j = choose|j: int| 0 <= j < s2.len() && s2[j].0 == k;
                assert(t2[j - 1].0 == k);
            }
        }
        lemma_entry_list_unique(m2, t1, t2);
        assert(s1[0] == s2[0]);
        assert(s1 =~= seq![s1[0]] + t1);
        assert(s2 =~= seq![s2[0]] + t2);
    }
}

/// With a table of valid UTF-8 words, the text of a key is valid UTF-8.
pub proof fn lemma_key_text_valid(t: Seq<Seq<u8>>, k: Key)
    requires
        all_valid(t),
    ensures
        valid_utf8(key_text(t, k)),
{
    if k < t.len() {
        assert(valid_utf8(t[k as int]));
    } else {
        lemma_ascii_valid(63u8);
    }
}

pub proof fn lemma_feature_text_valid(t: Seq<Seq<u8>>, f: Feature)
    requires
        all_valid(t),
    ensures
        valid_utf8(feature_text(t, f)),
{
    lemma_key_text_valid(t, f.0);
    if let Some(v) = f.1 {
        lemma_key_text_valid(t, v);
        lemma_ascii_valid(58u8);
        lemma_concat3(key_text(t, f.0), seq![58u8], key_text(t, v));
    }
}

/// With a table of valid UTF-8 words, the text of a feature set is valid UTF-8.
pub proof fn lemma_fs_text_valid(t: Seq<Seq<u8>>, m: Map<Key, Option<Key>>)
    requires
        all_valid(t),
    ensures
        valid_utf8(fs_text(t, m)),
        all_valid(sorted_feature_texts(t, m)),
{
    let ft = feature_texts(t, entries_of(m));
    assert forall|i: int| 0 <= i < ft.len() implies valid_utf8(#[trigger] ft[i]) by {
        lemma_feature_text_valid(t, entries_of(m)[i]);
    }
    lemma_sorted_valid(ft);
    lemma_ascii_valid(45u8);
    lemma_concat(seq![45u8], seq![45u8]);
    assert(seq![45u8] + seq![45u8] =~= seq![45u8, 45u8]);
    lemma_join_valid(sorted_feature_texts(t, m), seq![45u8, 45u8]);
}

/// With a table of valid UTF-8 words, the text of a value is valid UTF-8.
pub proof fn lemma_value_text_valid(t: Seq<Seq<u8>>, v: ValueV)
    requires
        all_valid(t),
    ensures
        valid_utf8(value_text(t, v)),
{
    match v {
        ValueV::Item(k) => lemma_key_text_valid(t, k),
        ValueV::Features(m) => lemma_fs_text_valid(t, m),
    }
}

/// The word for `k`, as bytes.
pub fn key_bytes(names: &Interner, k: Key) -> (r: Vec<u8>)
    ensures
        r@ == key_text(names@, k),
{
    match names.resolve(k) {
        Some(w) => crate::text::copy_bytes(w.as_slice()),
        None => {
            let v: Vec<u8> = vec![63u8];
            assert(v@ =~= seq![63u8]);
            v
        },
    }
}

/// The text of one entry of a feature set.
pub fn feature_bytes(names: &Interner, f: Feature) -> (r: Vec<u8>)
    ensures
        r@ == feature_text(names@, f),
{
    let mut out = key_bytes(names, f.0);
    if let Some(v) = f.1 {
        out.push(58u8);
        let w = key_bytes(names, v);
        append_bytes(&mut out, w.as_slice());
    }
    out
}

/// Bytes as text, by `String::from_utf8_lossy`. Trusted, not proved: where the
/// bytes are valid UTF-8, the result is the text they encode, as std documents; of
/// other bytes (which get replacement characters) nothing is stated.
#[verifier::external_body]
pub(crate) fn bytes_to_string(bytes: Vec<u8>) -> (r: String)
    ensures
        vstd::utf8::valid_utf8(bytes@) ==> r@ == vstd::utf8::decode_utf8(bytes@),
{
    String::from_utf8_lossy(&bytes).into_owned()
}

impl FeatureSet {
    /// The texts of the entries, in byte-wise order.
    pub fn sorted_texts(&self, names: &Interner) -> (r: Vec<Vec<u8>>)
        ensures
            byte_views(r@) == sorted_feature_texts(names@, self@),
    {
        let entries = self.entries();
        let mut texts: Vec<Vec<u8>> = Vec::new();
        let mut i: usize = 0;
        while i < entries.len()
            invariant
                0 <= i <= entries@.len(),
                byte_views(texts@) == feature_texts(names@, entries@).take(i as int),
            decreases entries@.len() - i,
        {
            let w = feature_bytes(names, entries[i]);
            let ghost prev = texts@;
            texts.push(w);
            assert(byte_views(texts@) =~= byte_views(prev).push(feature_text(names@, entries@[i as int])));
            assert(feature_texts(names@, entries@).take(i + 1) =~= feature_texts(names@, entries@).take(i as int).push(feature_text(names@, entries@[i as int])));
            i = i + 1;
        }
        assert(feature_texts(names@, entries@).take(entries@.len() as int) =~= feature_texts(names@, entries@));
        proof {
            lemma_entry_list_unique(self@, entries@, entries_of(self@));
        }
        sort_texts(texts)
    }

    /// The text of the feature set, as bytes: entries in byte-wise order joined by `--`.
    pub fn text_bytes(&self, names: &Interner) -> (r: Vec<u8>)
        ensures
            r@ == fs_text(names@, self@),
    {
        let texts = self.sorted_texts(names);
        let sep: Vec<u8> = vec![45u8, 45u8];
        assert(sep@ =~= seq![45u8, 45u8]);
        join_with(&texts, sep.as_slice())
    }

    /// The text of the feature set: entries in byte-wise order joined by `--`.
    pub fn to_text(&self, names: &Interner) -> (r: String)
        requires
            names.wf(),
        ensures
            r@ == vstd::utf8::decode_utf8(fs_text(names@, self@)),
    {
        proof {
            lemma_fs_text_valid(names@, self@);
        }
        bytes_to_string(self.text_bytes(names))
    }
}

impl SyntaxValue {
    /// The text of the value, as bytes.
    pub fn text_bytes(&self, names: &Interner) -> (r: Vec<u8>)
        ensures
            r@ == value_text(names@, self@),
    {
        match self {
            SyntaxValue::Item(k) => key_bytes(names, *k),
            SyntaxValue::Features(fs) => fs.text_bytes(names),
        }
    }

    /// The text of the value: the word, or the text of the features.
    pub fn to_text(&self, names: &Interner) -> (r: String)
        requires
            names.wf(),
        ensures
            r@ == vstd::utf8::decode_utf8(value_text(names@, self@)),
    {
        proof {
            lemma_value_text_valid(names@, self@);
        }
        bytes_to_string(self.text_bytes(names))
    }
}

} // verus!
