use super::node::{Node, NodeV};
use crate::interner::Interner;
use crate::syntax::render::{bytes_to_string, fs_text, lemma_fs_text_valid, lemma_value_text_valid, value_text};
use crate::utf8::{all_valid, lemma_concat3, lemma_str_valid};
use vstd::utf8::valid_utf8;
use crate::text::{append_bytes, str_bytes};
use vstd::prelude::*;
use vstd::string::StringSliceAdditionalSpecFns;

verus! {

/// The text of an expectation: a value, `λ(from -> to)` for a function, and
/// `>>(ignore: features)` for a projection marker.
pub open spec fn node_text(t: Seq<Seq<u8>>, n: NodeV) -> Seq<u8>
    decreases n,
{
    match n {
        NodeV::Value(v) => value_text(t, v),
        NodeV::Lambda(from, to) => "λ(".spec_bytes() + value_text(t, from) + " -> ".spec_bytes() + node_text(t, *to)
            + ")".spec_bytes(),
        NodeV::Projection(ignore) => ">>(ignore: ".spec_bytes() + fs_text(t, ignore) + ")".spec_bytes(),
    }
}

/// With a table of valid UTF-8 words, the text of an expectation is valid UTF-8.
pub proof fn lemma_node_text_valid(t: Seq<Seq<u8>>, n: NodeV)
    requires
        all_valid(t),
    ensures
        valid_utf8(node_text(t, n)),
    decreases n,
{
    match n {
        NodeV::Value(v) => lemma_value_text_valid(t, v),
        NodeV::Lambda(from, to) => {
            lemma_value_text_valid(t, from);
            lemma_node_text_valid(t, *to);
            lemma_str_valid("λ(");
            lemma_str_valid(" -> ");
            lemma_str_valid(")");
            lemma_concat3("λ(".spec_bytes(), value_text(t, from), " -> ".spec_bytes());
            lemma_concat3("λ(".spec_bytes() + value_text(t, from) + " -> ".spec_bytes(), node_text(t, *to), ")".spec_bytes());
        },
        NodeV::Projection(ignore) => {
            lemma_fs_text_valid(t, ignore);
            lemma_str_valid(">>(ignore: ");
            lemma_str_valid(")");
            lemma_concat3(">>(ignore: ".spec_bytes(), fs_text(t, ignore), ")".spec_bytes());
        },
    }
}

impl Node {
    /// The text of the expectation, as bytes.
    pub fn text_bytes(&self, names: &Interner) -> (r: Vec<u8>)
        ensures
            r@ == node_text(names@, self@),
        decreases self,
    {
        match self {
            Node::Value { value } => value.text_bytes(names),
            Node::Lambda { from, to } => {
                let mut out = str_bytes("λ(");
                let f = from.text_bytes(names);
                append_bytes(&mut out, f.as_slice());
                let arrow = str_bytes(" -> ");
                append_bytes(&mut out, arrow.as_slice());
                let t = (**to).text_bytes(names);
                append_bytes(&mut out, t.as_slice());
                let close = str_bytes(")");
                append_bytes(&mut out, close.as_slice());
                assert(out@ =~= node_text(names@, self@));
                out
            },
            Node::Projection { ignore } => {
                let mut out = str_bytes(">>(ignore: ");
                let f = ignore.text_bytes(names);
                append_bytes(&mut out, f.as_slice());
                let close = str_bytes(")");
                append_bytes(&mut out, close.as_slice());
                assert(out@ =~= node_text(names@, self@));
                out
            },
        }
    }

    /// The text of the expectation.
    pub fn to_text(&self, names: &Interner) -> (r: String)
        requires
            names.wf(),
        ensures
            r@ == vstd::utf8::decode_utf8(node_text(names@, self@)),
    {
        proof {
            lemma_node_text_valid(names@, self@);
        }
        bytes_to_string(self.text_bytes(names))
    }
}

} // verus!
