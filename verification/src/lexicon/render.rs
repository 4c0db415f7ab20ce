use super::entry::{EntryV, LexNodeV, LexiconEntry, LexiconNode};
use crate::interner::Interner;
use crate::syntax::render::{bytes_to_string, fs_text, lemma_fs_text_valid, lemma_value_text_valid, value_text};
use crate::utf8::{all_valid, lemma_ascii_valid, lemma_concat3, lemma_str_valid};
use vstd::utf8::valid_utf8;
use crate::text::{append_bytes, str_bytes};
use vstd::prelude::*;
use vstd::string::StringSliceAdditionalSpecFns;

verus! {

/// The text of a lexicon node, in the notation of lexicon files: a function is
/// `(from > to)` when its argument's features pass up and `(from < to)` otherwise,
/// and a moved constituent is `MOVED(features)`.
pub open spec fn lex_node_text(t: Seq<Seq<u8>>, n: LexNodeV) -> Seq<u8>
    decreases n,
{
    match n {
        LexNodeV::Value(v) => value_text(t, v),
        LexNodeV::Lambda(from, to, project) => seq![40u8] + lex_node_text(t, *from)
            + (if project { " > ".spec_bytes() } else { " < ".spec_bytes() }) + lex_node_text(t, *to) + seq![41u8],
        LexNodeV::Moved(fs) => "MOVED(".spec_bytes() + fs_text(t, fs) + seq![41u8],
    }
}

/// The text of an entry: the text of the node it places.
pub open spec fn entry_text(t: Seq<Seq<u8>>, e: EntryV) -> Seq<u8> {
    match e {
        EntryV::Lexical(n) => lex_node_text(t, n),
        EntryV::Functional(n, _) => lex_node_text(t, n),
    }
}

/// With a table of valid UTF-8 words, the text of a lexicon node is valid UTF-8.
pub proof fn lemma_lex_node_text_valid(t: Seq<Seq<u8>>, n: LexNodeV)
    requires
        all_valid(t),
    ensures
        valid_utf8(lex_node_text(t, n)),
    decreases n,
{
    match n {
        LexNodeV::Value(v) => lemma_value_text_valid(t, v),
        LexNodeV::Lambda(from, to, project) => {
            lemma_lex_node_text_valid(t, *from);
            lemma_lex_node_text_valid(t, *to);
            lemma_ascii_valid(40u8);
            lemma_ascii_valid(41u8);
            lemma_str_valid(" > ");
            lemma_str_valid(" < ");
            let arrow = if project { " > ".spec_bytes() } else { " < ".spec_bytes() };
            lemma_concat3(seq![40u8], lex_node_text(t, *from), arrow);
            lemma_concat3(seq![40u8] + lex_node_text(t, *from) + arrow, lex_node_text(t, *to), seq![41u8]);
        },
        LexNodeV::Moved(fs) => {
            lemma_fs_text_valid(t, fs);
            lemma_str_valid("MOVED(");
            lemma_ascii_valid(41u8);
            lemma_concat3("MOVED(".spec_bytes(), fs_text(t, fs), seq![41u8]);
        },
    }
}

/// With a table of valid UTF-8 words, the text of an entry is valid UTF-8.
pub proof fn lemma_entry_text_valid(t: Seq<Seq<u8>>, e: EntryV)
    requires
        all_valid(t),
    ensures
        valid_utf8(entry_text(t, e)),
{
    match e {
        EntryV::Lexical(n) => lemma_lex_node_text_valid(t, n),
        EntryV::Functional(n, _) => lemma_lex_node_text_valid(t, n),
    }
}

impl LexiconNode {
    /// The text of the node, as bytes.
    pub fn text_bytes(&self, names: &Interner) -> (r: Vec<u8>)
        ensures
            r@ == lex_node_text(names@, self@),
        decreases self,
    {
        match self {
            LexiconNode::Value { value } => value.text_bytes(names),
            LexiconNode::Lambda { from, to, project } => {
                let mut out: Vec<u8> = Vec::new();
                out.push(40u8);
                let f = (**from).text_bytes(names);
                append_bytes(&mut out, f.as_slice());
                let arrow = if *project { str_bytes(" > ") } else { str_bytes(" < ") };
                append_bytes(&mut out, arrow.as_slice());
                let t = (**to).text_bytes(names);
                append_bytes(&mut out, t.as_slice());
                out.push(41u8);
                assert(out@ =~= lex_node_text(names@, self@));
                out
            },
            LexiconNode::Moved { from } => {
                let mut out = str_bytes("MOVED(");
                let f = from.text_bytes(names);
                append_bytes(&mut out, f.as_slice());
                out.push(41u8);
                assert(out@ =~= lex_node_text(names@, self@));
                out
            },
        }
    }

    /// The text of the node, in the notation of lexicon files.
    pub fn to_text(&self, names: &Interner) -> (r: String)
        requires
            names.wf(),
        ensures
            r@ == vstd::utf8::decode_utf8(lex_node_text(names@, self@)),
    {
        proof {
            lemma_lex_node_text_valid(names@, self@);
        }
        bytes_to_string(self.text_bytes(names))
    }

    /// How many moved constituents the node holds, up to the largest `usize`.
    pub fn count_moved(&self) -> (r: usize)
        ensures
            r as nat == if crate::cognitive::tree::spec::moved_count(self@) <= usize::MAX {
                crate::cognitive::tree::spec::moved_count(self@)
            } else {
                usize::MAX as nat
            },
        decreases self,
    {
        match self {
            LexiconNode::Value { .. } => 0,
            LexiconNode::Lambda { from, to, .. } => {
                let a = (**from).count_moved();
                let b = (**to).count_moved();
                a.saturating_add(b)
            },
            LexiconNode::Moved { .. } => 1,
        }
    }
}

impl LexiconEntry {
    /// The text of the entry, as bytes.
    pub fn text_bytes(&self, names: &Interner) -> (r: Vec<u8>)
        ensures
            r@ == entry_text(names@, self@),
    {
        match self {
            LexiconEntry::Lexical(n) => n.text_bytes(names),
            LexiconEntry::Functional { to, .. } => to.text_bytes(names),
        }
    }

    /// The text of the entry: that of the node it places.
    pub fn to_text(&self, names: &Interner) -> (r: String)
        requires
            names.wf(),
        ensures
            r@ == vstd::utf8::decode_utf8(entry_text(names@, self@)),
    {
        proof {
            lemma_entry_text_valid(names@, self@);
        }
        bytes_to_string(self.text_bytes(names))
    }

    /// The node that the entry places.
    pub fn node(&self) -> (r: &LexiconNode)
        ensures
            r@ == crate::cognitive::tree::model::entry_node(self@),
    {
        match self {
            LexiconEntry::Lexical(n) => n,
            LexiconEntry::Functional { to, .. } => to,
        }
    }
}

} // verus!
