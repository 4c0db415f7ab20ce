use super::model::TreeModel;
use super::node::NodeID;
use super::spec::{in_arena, walk_fuel, TreeV};
use crate::error::TreeError;
use crate::interner::Interner;
use crate::syntax::render::{bytes_to_string, key_text, lemma_fs_text_valid, lemma_key_text_valid, sorted_feature_texts};
use crate::utf8::{all_valid, lemma_ascii_valid, lemma_concat, lemma_concat3, lemma_decimal_valid, lemma_join_valid, lemma_split_at_ascii, lemma_str_valid};
use vstd::utf8::valid_utf8;
use crate::syntax::{SyntaxValue, ValueV};
use crate::text::{append_bytes, byte_views, decimal, decimal_bytes, join_sep, join_with, str_bytes};
use vstd::prelude::*;
use vstd::string::StringSliceAdditionalSpecFns;

verus! {

/// The attributes of a node in the dot language: a word is labelled and green, a
/// bundle of features is labelled with its entries one per line and blue.
pub open spec fn dot_attr(t: Seq<Seq<u8>>, v: ValueV) -> Seq<u8> {
    match v {
        ValueV::Item(k) => "label=\"".spec_bytes() + key_text(t, k) + "\", color=lightgreen".spec_bytes(),
        ValueV::Features(m) => "label=\"".spec_bytes() + join_sep(sorted_feature_texts(t, m), seq![10u8])
            + "\", color=lightblue".spec_bytes(),
    }
}

/// The position of the first `",` in `s`, if any.
pub open spec fn label_end(s: Seq<u8>) -> Option<int>
    decreases s.len(),
{
    if s.len() < 2 {
        None
    } else {
        match label_end(s.drop_last()) {
            Some(i) => Some(i),
            None => if s[s.len() - 2] == 34u8 && s.last() == 44u8 { Some(s.len() - 2) } else { None },
        }
    }
}

/// The attributes with the chain marked at the end of the label, when there is a chain.
pub open spec fn decorated(attr: Seq<u8>, chain_id: Option<usize>) -> Seq<u8> {
    match chain_id {
        None => attr,
        Some(c) => match label_end(attr) {
            Some(i) => attr.take(i) + "\\nCH".spec_bytes() + decimal(c as nat) + attr.skip(i),
            None => attr,
        },
    }
}

pub open spec fn quoted_id(id: NodeID) -> Seq<u8> {
    seq![34u8] + decimal(id as nat) + seq![34u8]
}

pub open spec fn node_line(id: NodeID, attr: Seq<u8>) -> Seq<u8> {
    "    ".spec_bytes() + quoted_id(id) + " [".spec_bytes() + attr + "];\n".spec_bytes()
}

pub open spec fn edge_line(from: NodeID, to: NodeID) -> Seq<u8> {
    "    ".spec_bytes() + quoted_id(from) + " -> ".spec_bytes() + quoted_id(to) + " [arrowhead=none];\n".spec_bytes()
}

pub open spec fn moved_line(from: NodeID, to: NodeID) -> Seq<u8> {
    "    ".spec_bytes() + quoted_id(from) + " -> ".spec_bytes() + quoted_id(to)
        + " [style=dashed, constraint=false, color=blue];\n".spec_bytes()
}

/// The walk that writes the graph: nodes are taken from the top of `stack`; each adds
/// its line, an edge to each child (which goes on the stack, left before right), and,
/// when `show` holds, a dashed edge to the node it was moved from.
pub open spec fn s_dot_loop(t: TreeV, names: Seq<Seq<u8>>, show: bool, stack: Seq<NodeID>, acc: Seq<u8>, fuel: nat) -> Result<Seq<u8>, TreeError>
    decreases fuel,
{
    if stack.len() == 0 {
        Ok(acc)
    } else if fuel == 0 {
        Err(TreeError::MalformedLinks)
    } else {
        let id = stack.last();
        let rest = stack.drop_last();
        if !in_arena(t, id) {
            Err(TreeError::NodeNotFound(id))
        } else {
            let n = t.nodes[id as int];
            let acc1 = acc + node_line(id, decorated(dot_attr(names, n.value), n.chain_id));
            let (acc2, s1) = match n.left {
                Some(l) => (acc1 + edge_line(id, l), rest.push(l)),
                None => (acc1, rest),
            };
            let (acc3, s2) = match n.right {
                Some(r) => (acc2 + edge_line(id, r), s1.push(r)),
                None => (acc2, s1),
            };
            let acc4 = match n.moved {
                Some(m) => if show { acc3 + moved_line(id, m) } else { acc3 },
                None => acc3,
            };
            s_dot_loop(t, names, show, s2, acc4, (fuel - 1) as nat)
        }
    }
}

pub open spec fn dot_header() -> Seq<u8> {
    "digraph {{\n".spec_bytes() + "    rankdir=TB;\n".spec_bytes() + "    node [shape=box, style=filled];\n".spec_bytes()
}

/// The graph of the tree in the dot language, from the root; empty for an empty tree.
pub open spec fn dot_graph(t: TreeV, names: Seq<Seq<u8>>, show: bool) -> Result<Seq<u8>, TreeError> {
    if t.nodes.len() == 0 {
        Ok(Seq::empty())
    } else {
        match s_dot_loop(t, names, show, seq![t.root], dot_header(), walk_fuel(t)) {
            Ok(body) => Ok(body + "}}".spec_bytes()),
            Err(e) => Err(e),
        }
    }
}

proof fn lemma_dot_loop_arrows(t: TreeV, names: Seq<Seq<u8>>, stack: Seq<NodeID>, a1: Seq<u8>, a2: Seq<u8>, fuel: nat)
    ensures
        s_dot_loop(t, names, true, stack, a1, fuel) is Err <==> s_dot_loop(t, names, false, stack, a2, fuel) is Err,
        s_dot_loop(t, names, true, stack, a1, fuel) matches Err(e) ==> s_dot_loop(t, names, false, stack, a2, fuel) == Err::<Seq<u8>, TreeError>(e),
        (forall|i: int| 0 <= i < t.nodes.len() ==> (#[trigger] t.nodes[i]).moved is None) ==> s_dot_loop(t, names, true, stack, a1, fuel)
            == s_dot_loop(t, names, false, stack, a1, fuel),
    decreases fuel,
{
    if stack.len() > 0 && fuel > 0 {
        let id = stack.last();
        if in_arena(t, id) {
            let n = t.nodes[id as int];
            let rest = stack.drop_last();
            let s1 = match n.left {
                Some(l) => rest.push(l),
                None => rest,
            };
            let s2 = match n.right {
                Some(r) => s1.push(r),
                None => s1,
            };
            let step = |acc: Seq<u8>, show: bool| {
                let acc1 = acc + node_line(id, decorated(dot_attr(names, n.value), n.chain_id));
                let acc2 = match n.left {
                    Some(l) => acc1 + edge_line(id, l),
                    None => acc1,
                };
                let acc3 = match n.right {
                    Some(r) => acc2 + edge_line(id, r),
                    None => acc2,
                };
                match n.moved {
                    Some(m) => if show { acc3 + moved_line(id, m) } else { acc3 },
                    None => acc3,
                }
            };
            lemma_dot_loop_arrows(t, names, s2, step(a1, true), step(a2, false), (fuel - 1) as nat);
            lemma_dot_loop_arrows(t, names, s2, step(a1, true), step(a1, false), (fuel - 1) as nat);
        }
    }
}

/// Drawing the movement arrows or not never changes whether the graph can be drawn:
/// both fail, with the same error, or both succeed; and a tree without moved nodes
/// gives the same graph either way.
pub proof fn law_arrows_change_only_arrows(t: TreeV, names: Seq<Seq<u8>>)
    ensures
        dot_graph(t, names, true) is Err <==> dot_graph(t, names, false) is Err,
        dot_graph(t, names, true) matches Err(e) ==> dot_graph(t, names, false) == Err::<Seq<u8>, TreeError>(e),
        (forall|i: int| 0 <= i < t.nodes.len() ==> (#[trigger] t.nodes[i]).moved is None) ==> dot_graph(t, names, true)
            == dot_graph(t, names, false),
{
    lemma_dot_loop_arrows(t, names, seq![t.root], dot_header(), dot_header(), walk_fuel(t));
}

/// The lines written for node `id`: the node, its edges to its children, and, when
/// arrows are shown and it was moved, the dashed arrow to where it came from; each
/// marked `true` when it is that arrow.
pub open spec fn node_lines(t: TreeV, names: Seq<Seq<u8>>, show: bool, id: NodeID) -> Seq<(bool, Seq<u8>)> {
    let n = t.nodes[id as int];
    let l1 = seq![(false, node_line(id, decorated(dot_attr(names, n.value), n.chain_id)))];
    let l2 = match n.left {
        Some(l) => l1.push((false, edge_line(id, l))),
        None => l1,
    };
    let l3 = match n.right {
        Some(r) => l2.push((false, edge_line(id, r))),
        None => l2,
    };
    match n.moved {
        Some(m) => if show { l3.push((true, moved_line(id, m))) } else { l3 },
        None => l3,
    }
}

/// The walk's stack after node `id` is taken from its top: its children pushed, left
/// first.
pub open spec fn stack_after(t: TreeV, stack: Seq<NodeID>) -> Seq<NodeID> {
    let n = t.nodes[stack.last() as int];
    let rest = stack.drop_last();
    let s1 = match n.left {
        Some(l) => rest.push(l),
        None => rest,
    };
    match n.right {
        Some(r) => s1.push(r),
        None => s1,
    }
}

/// The lines that the walk from `stack` writes, each marked `true` when it is a dashed
/// movement arrow.
pub open spec fn dot_lines(t: TreeV, names: Seq<Seq<u8>>, show: bool, stack: Seq<NodeID>, fuel: nat) -> Result<Seq<(bool, Seq<u8>)>, TreeError>
    decreases fuel,
{
    if stack.len() == 0 {
        Ok(Seq::empty())
    } else if fuel == 0 {
        Err(TreeError::MalformedLinks)
    } else if !in_arena(t, stack.last()) {
        Err(TreeError::NodeNotFound(stack.last()))
    } else {
        match dot_lines(t, names, show, stack_after(t, stack), (fuel - 1) as nat) {
            Ok(ls) => Ok(node_lines(t, names, show, stack.last()) + ls),
            Err(e) => Err(e),
        }
    }
}

/// The text of marked lines, one after another.
pub open spec fn lines_text(ls: Seq<(bool, Seq<u8>)>) -> Seq<u8>
    decreases ls.len(),
{
    if ls.len() == 0 {
        Seq::empty()
    } else {
        lines_text(ls.drop_last()) + ls.last().1
    }
}

/// The marked lines that are not movement arrows.
pub open spec fn plain_lines(ls: Seq<(bool, Seq<u8>)>) -> Seq<(bool, Seq<u8>)>
    decreases ls.len(),
{
    if ls.len() == 0 {
        Seq::empty()
    } else if ls.last().0 {
        plain_lines(ls.drop_last())
    } else {
        plain_lines(ls.drop_last()).push(ls.last())
    }
}

proof fn lemma_lines_concat(a: Seq<(bool, Seq<u8>)>, b: Seq<(bool, Seq<u8>)>)
    ensures
        lines_text(a + b) == lines_text(a) + lines_text(b),
        plain_lines(a + b) == plain_lines(a) + plain_lines(b),
    decreases b.len(),
{
    if b.len() == 0 {
        assert(a + b =~= a);
        assert(lines_text(a) + Seq::<u8>::empty() =~= lines_text(a));
        assert(plain_lines(a) + Seq::<(bool, Seq<u8>)>::empty() =~= plain_lines(a));
    } else {
        assert((a + b).drop_last() =~= a + b.drop_last());
        lemma_lines_concat(a, b.drop_last());
        assert(lines_text(a) + lines_text(b.drop_last()) + b.last().1 =~= lines_text(a) + (lines_text(b.drop_last()) + b.last().1));
        if !b.last().0 {
            assert(plain_lines(a) + plain_lines(b.drop_last()).push(b.last()) =~= (plain_lines(a) + plain_lines(b.drop_last())).push(b.last()));
        }
    }
}

/// The lines of one node: their text is what the walk appends, the arrow is all that
/// showing arrows adds, and it joins the node to the node it was moved from.
proof fn lemma_node_lines(t: TreeV, names: Seq<Seq<u8>>, show: bool, id: NodeID, acc: Seq<u8>)
    requires
        in_arena(t, id),
    ensures
        ({
            let n = t.nodes[id as int];
            let acc1 = acc + node_line(id, decorated(dot_attr(names, n.value), n.chain_id));
            let acc2 = match n.left {
                Some(l) => acc1 + edge_line(id, l),
                None => acc1,
            };
            let acc3 = match n.right {
                Some(r) => acc2 + edge_line(id, r),
                None => acc2,
            };
            let acc4 = match n.moved {
                Some(m) => if show { acc3 + moved_line(id, m) } else { acc3 },
                None => acc3,
            };
            acc4 == acc + lines_text(node_lines(t, names, show, id))
        }),
        plain_lines(node_lines(t, names, true, id)) == node_lines(t, names, false, id),
        forall|i: int| 0 <= i < node_lines(t, names, true, id).len() && (#[trigger] node_lines(t, names, true, id)[i]).0
            ==> (t.nodes[id as int].moved matches Some(m) && node_lines(t, names, true, id)[i].1 == moved_line(id, m)),
{
    let n = t.nodes[id as int];
    let nl = node_line(id, decorated(dot_attr(names, n.value), n.chain_id));
    let l1 = seq![(false, nl)];
    let l2 = match n.left { Some(l) => l1.push((false, edge_line(id, l))), None => l1 };
    let l3 = match n.right { Some(r) => l2.push((false, edge_line(id, r))), None => l2 };
    assert(l1.drop_last() =~= Seq::<(bool, Seq<u8>)>::empty());
    assert(lines_text(l1.drop_last()) == Seq::<u8>::empty());
    assert(plain_lines(l1.drop_last()) == Seq::<(bool, Seq<u8>)>::empty());
    assert(lines_text(l1) =~= nl);
    assert(plain_lines(l1) =~= l1);
    if let Some(l) = n.left {
        assert(l2.drop_last() =~= l1);
        assert(plain_lines(l2) =~= plain_lines(l1).push(l2.last()));
    }
    assert(plain_lines(l2) =~= l2);
    if let Some(r) = n.right {
        assert(l3.drop_last() =~= l2);
        assert(plain_lines(l3) =~= plain_lines(l2).push(l3.last()));
    }
    assert(plain_lines(l3) =~= l3);
    assert(acc + nl =~= acc + lines_text(l1));
    if let Some(l) = n.left {
        assert(acc + lines_text(l1) + edge_line(id, l) =~= acc + lines_text(l2));
    }
    if let Some(r) = n.right {
        assert(acc + lines_text(l2) + edge_line(id, r) =~= acc + lines_text(l3));
    }
    assert forall|i: int| 0 <= i < l3.len() implies !(#[trigger] l3[i]).0 by {
        if i == 0 {
            assert(l3[0] == l1[0]);
        } else if i == 1 && n.left is Some {
            assert(l3[1] == l2[1]);
        }
    }
    if let Some(m) = n.moved {
        let l4 = l3.push((true, moved_line(id, m)));
        assert(l4.drop_last() =~= l3);
        assert(acc + lines_text(l3) + moved_line(id, m) =~= acc + lines_text(l4));
    }
}

proof fn lemma_dot_lines(t: TreeV, names: Seq<Seq<u8>>, show: bool, stack: Seq<NodeID>, acc: Seq<u8>, fuel: nat)
    ensures
        s_dot_loop(t, names, show, stack, acc, fuel) == match dot_lines(t, names, show, stack, fuel) {
            Ok(ls) => Ok::<Seq<u8>, TreeError>(acc + lines_text(ls)),
            Err(e) => Err(e),
        },
        dot_lines(t, names, true, stack, fuel) is Ok <==> dot_lines(t, names, false, stack, fuel) is Ok,
        dot_lines(t, names, true, stack, fuel) matches Ok(l1) ==> dot_lines(t, names, false, stack, fuel) == Ok::<Seq<(bool, Seq<u8>)>, TreeError>(plain_lines(l1))
            && forall|i: int| 0 <= i < l1.len() && (#[trigger] l1[i]).0 ==> exists|id: NodeID, m: NodeID|
                in_arena(t, id) && t.nodes[id as int].moved == Some(m) && l1[i].1 == moved_line(id, m),
    decreases fuel,
{
    if stack.len() == 0 {
        assert(acc + lines_text(Seq::empty()) =~= acc);
        assert(plain_lines(Seq::<(bool, Seq<u8>)>::empty()) =~= Seq::<(bool, Seq<u8>)>::empty());
    } else if fuel > 0 && in_arena(t, stack.last()) {
        let id = stack.last();
        let s2 = stack_after(t, stack);
        lemma_node_lines(t, names, show, id, acc);
        lemma_node_lines(t, names, true, id, acc);
        let acc4 = acc + lines_text(node_lines(t, names, show, id));
        lemma_dot_lines(t, names, show, s2, acc4, (fuel - 1) as nat);
        if let Ok(ls) = dot_lines(t, names, show, s2, (fuel - 1) as nat) {
            lemma_lines_concat(node_lines(t, names, show, id), ls);
            assert(acc4 + lines_text(ls) =~= acc + lines_text(node_lines(t, names, show, id) + ls));
        }
        if let Ok(lt) = dot_lines(t, names, true, s2, (fuel - 1) as nat) {
            let nt = node_lines(t, names, true, id);
            lemma_lines_concat(nt, lt);
            let l1 = nt + lt;
            assert forall|i: int| 0 <= i < l1.len() && (#[trigger] l1[i]).0 implies exists|id2: NodeID, m: NodeID|
                in_arena(t, id2) && t.nodes[id2 as int].moved == Some(m) && l1[i].1 == moved_line(id2, m) by {
                if i < nt.len() {
                    assert(l1[i] == nt[i]);
                    let m = t.nodes[id as int].moved->Some_0;
                    assert(l1[i].1 == moved_line(id, m));
                } else {
                    assert(l1[i] == lt[i - nt.len()]);
                }
            }
        }
    }
}

/// Drawing the movement arrows changes only the arrows: the graph with arrows can be
/// drawn exactly when the one without can, and then the graph without is the graph with
/// its dashed movement lines taken out, each of which joins a node to the node it was
/// moved from.
pub proof fn law_graph_without_arrows(t: TreeV, names: Seq<Seq<u8>>)
    ensures
        t.nodes.len() > 0 ==> {
            &&& dot_graph(t, names, true) is Ok <==> dot_graph(t, names, false) is Ok
            &&& dot_lines(t, names, true, seq![t.root], walk_fuel(t)) matches Ok(l1) ==> {
                &&& dot_graph(t, names, true) == Ok::<Seq<u8>, TreeError>(dot_header() + lines_text(l1) + "}}".spec_bytes())
                &&& dot_graph(t, names, false) == Ok::<Seq<u8>, TreeError>(dot_header() + lines_text(plain_lines(l1)) + "}}".spec_bytes())
                &&& forall|i: int| 0 <= i < l1.len() && (#[trigger] l1[i]).0 ==> exists|id: NodeID, m: NodeID|
                    in_arena(t, id) && t.nodes[id as int].moved == Some(m) && l1[i].1 == moved_line(id, m)
            }
        },
{
    lemma_dot_lines(t, names, true, seq![t.root], dot_header(), walk_fuel(t));
    lemma_dot_lines(t, names, false, seq![t.root], dot_header(), walk_fuel(t));
}

/// With a table of valid UTF-8 words, the attributes of a value are valid UTF-8.
pub proof fn lemma_dot_attr_valid(t: Seq<Seq<u8>>, v: ValueV)
    requires
        all_valid(t),
    ensures
        valid_utf8(dot_attr(t, v)),
{
    lemma_str_valid("label=\"");
    match v {
        ValueV::Item(k) => {
            lemma_key_text_valid(t, k);
            lemma_str_valid("\", color=lightgreen");
            lemma_concat3("label=\"".spec_bytes(), key_text(t, k), "\", color=lightgreen".spec_bytes());
        },
        ValueV::Features(m) => {
            lemma_fs_text_valid(t, m);
            lemma_ascii_valid(10u8);
            lemma_join_valid(sorted_feature_texts(t, m), seq![10u8]);
            lemma_str_valid("\", color=lightblue");
            lemma_concat3(
                "label=\"".spec_bytes(),
                join_sep(sorted_feature_texts(t, m), seq![10u8]),
                "\", color=lightblue".spec_bytes(),
            );
        },
    }
}

/// Marking a chain on valid attributes keeps them valid.
pub proof fn lemma_decorated_valid(attr: Seq<u8>, chain_id: Option<usize>)
    requires
        valid_utf8(attr),
    ensures
        valid_utf8(decorated(attr, chain_id)),
{
    if let Some(c) = chain_id {
        lemma_label_end_range(attr);
        if let Some(i) = label_end(attr) {
            lemma_split_at_ascii(attr, i);
            assert(attr.take(i) =~= attr.subrange(0, i));
            lemma_ascii_valid(34u8);
            lemma_concat(seq![34u8], attr.subrange(i + 1, attr.len() as int));
            assert(attr.skip(i) =~= seq![34u8] + attr.subrange(i + 1, attr.len() as int));
            lemma_str_valid("\\nCH");
            lemma_decimal_valid(c as nat);
            lemma_concat3(attr.take(i), "\\nCH".spec_bytes(), decimal(c as nat));
            lemma_concat(attr.take(i) + "\\nCH".spec_bytes() + decimal(c as nat), attr.skip(i));
        }
    }
}

proof fn lemma_lines_valid(id: NodeID, to: NodeID, attr: Seq<u8>)
    requires
        valid_utf8(attr),
    ensures
        valid_utf8(node_line(id, attr)),
        valid_utf8(edge_line(id, to)),
        valid_utf8(moved_line(id, to)),
{
    lemma_ascii_valid(34u8);
    lemma_decimal_valid(id as nat);
    lemma_decimal_valid(to as nat);
    lemma_concat3(seq![34u8], decimal(id as nat), seq![34u8]);
    lemma_concat3(seq![34u8], decimal(to as nat), seq![34u8]);
    lemma_str_valid("    ");
    lemma_str_valid(" [");
    lemma_str_valid("];\n");
    lemma_str_valid(" -> ");
    lemma_str_valid(" [arrowhead=none];\n");
    lemma_str_valid(" [style=dashed, constraint=false, color=blue];\n");
    lemma_concat3("    ".spec_bytes(), quoted_id(id), " [".spec_bytes());
    lemma_concat3("    ".spec_bytes() + quoted_id(id) + " [".spec_bytes(), attr, "];\n".spec_bytes());
    lemma_concat3("    ".spec_bytes(), quoted_id(id), " -> ".spec_bytes());
    lemma_concat3("    ".spec_bytes() + quoted_id(id) + " -> ".spec_bytes(), quoted_id(to), " [arrowhead=none];\n".spec_bytes());
    lemma_concat3(
        "    ".spec_bytes() + quoted_id(id) + " -> ".spec_bytes(),
        quoted_id(to),
        " [style=dashed, constraint=false, color=blue];\n".spec_bytes(),
    );
}

proof fn lemma_dot_loop_valid(t: TreeV, names: Seq<Seq<u8>>, show: bool, stack: Seq<NodeID>, acc: Seq<u8>, fuel: nat)
    requires
        all_valid(names),
        valid_utf8(acc),
    ensures
        s_dot_loop(t, names, show, stack, acc, fuel) matches Ok(s) ==> valid_utf8(s),
    decreases fuel,
{
    if stack.len() > 0 && fuel > 0 {
        let id = stack.last();
        if in_arena(t, id) {
            let n = t.nodes[id as int];
            let attr = decorated(dot_attr(names, n.value), n.chain_id);
            lemma_dot_attr_valid(names, n.value);
            lemma_decorated_valid(dot_attr(names, n.value), n.chain_id);
            let acc1 = acc + node_line(id, attr);
            lemma_lines_valid(id, id, attr);
            lemma_concat(acc, node_line(id, attr));
            let acc2 = match n.left {
                Some(l) => {
                    lemma_lines_valid(id, l, attr);
                    lemma_concat(acc1, edge_line(id, l));
                    acc1 + edge_line(id, l)
                },
                None => acc1,
            };
            let acc3 = match n.right {
                Some(r) => {
                    lemma_lines_valid(id, r, attr);
                    lemma_concat(acc2, edge_line(id, r));
                    acc2 + edge_line(id, r)
                },
                None => acc2,
            };
            match n.moved {
                Some(m) => {
                    lemma_lines_valid(id, m, attr);
                    lemma_concat(acc3, moved_line(id, m));
                },
                None => {},
            }
            let rest = stack.drop_last();
            let s1 = match n.left {
                Some(l) => rest.push(l),
                None => rest,
            };
            let s2 = match n.right {
                Some(r) => s1.push(r),
                None => s1,
            };
            let acc4 = match n.moved {
                Some(m) => if show {
                    acc3 + moved_line(id, m)
                } else {
                    acc3
                },
                None => acc3,
            };
            lemma_dot_loop_valid(t, names, show, s2, acc4, (fuel - 1) as nat);
        }
    }
}

/// With a table of valid UTF-8 words, the graph of a tree is valid UTF-8.
pub proof fn lemma_dot_graph_valid(t: TreeV, names: Seq<Seq<u8>>, show: bool)
    requires
        all_valid(names),
    ensures
        dot_graph(t, names, show) matches Ok(s) ==> valid_utf8(s),
{
    if t.nodes.len() == 0 {
        assert(valid_utf8(Seq::<u8>::empty()));
    } else {
        lemma_str_valid("digraph {{\n");
        lemma_str_valid("    rankdir=TB;\n");
        lemma_str_valid("    node [shape=box, style=filled];\n");
        lemma_concat3(
            "digraph {{\n".spec_bytes(),
            "    rankdir=TB;\n".spec_bytes(),
            "    node [shape=box, style=filled];\n".spec_bytes(),
        );
        lemma_dot_loop_valid(t, names, show, seq![t.root], dot_header(), walk_fuel(t));
        lemma_str_valid("}}");
        if let Ok(body) = s_dot_loop(t, names, show, seq![t.root], dot_header(), walk_fuel(t)) {
            lemma_concat(body, "}}".spec_bytes());
        }
    }
}

impl SyntaxValue {
    /// The attributes of the value in the dot language, as bytes.
    pub fn dot_attr_bytes(&self, names: &Interner) -> (r: Vec<u8>)
        ensures
            r@ == dot_attr(names@, self@),
    {
        let mut out = str_bytes("label=\"");
        match self {
            SyntaxValue::Item(item) => {
                let w = crate::syntax::render::key_bytes(names, *item);
                append_bytes(&mut out, w.as_slice());
                let tail = str_bytes("\", color=lightgreen");
                append_bytes(&mut out, tail.as_slice());
            },
            SyntaxValue::Features(features) => {
                let texts = features.sorted_texts(names);
                let nl: Vec<u8> = vec![10u8];
                assert(nl@ =~= seq![10u8]);
                let body = join_with(&texts, nl.as_slice());
                append_bytes(&mut out, body.as_slice());
                let tail = str_bytes("\", color=lightblue");
                append_bytes(&mut out, tail.as_slice());
            },
        }
        out
    }

    /// The attributes of the value in the dot language.
    pub fn to_dot_attr(&self, names: &Interner) -> (r: String)
        requires
            names.wf(),
        ensures
            r@ == vstd::utf8::decode_utf8(dot_attr(names@, self@)),
    {
        proof {
            lemma_dot_attr_valid(names@, self@);
        }
        bytes_to_string(self.dot_attr_bytes(names))
    }
}

fn find_label_end(s: &Vec<u8>) -> (r: Option<usize>)
    ensures
        match label_end(s@) {
            Some(i) => r == Some(i as usize),
            None => r is None,
        },
        r matches Some(i) ==> i + 1 < s@.len(),
{
    let mut i: usize = 0;
    while s.len() > 1 && i < s.len() - 1
        invariant
            0 <= i,
            i <= s@.len(),
            forall|j: int| 0 <= j < i && j + 1 < s@.len() ==> !(#[trigger] s@[j] == 34u8 && s@[j + 1] == 44u8),
        decreases s@.len() - i,
    {
        if s[i] == 34u8 && s[i + 1] == 44u8 {
            proof { lemma_label_end(s@, i as int); }
            return Some(i);
        }
        i = i + 1;
    }
    proof { lemma_label_end_none(s@); }
    None
}

proof fn lemma_label_end(s: Seq<u8>, i: int)
    requires
        0 <= i,
        i + 1 < s.len(),
        s[i] == 34u8 && s[i + 1] == 44u8,
        forall|j: int| 0 <= j < i && j + 1 < s.len() ==> !(#[trigger] s[j] == 34u8 && s[j + 1] == 44u8),
    ensures
        label_end(s) == Some(i),
    decreases s.len(),
{
    if i + 2 < s.len() {
        lemma_label_end(s.drop_last(), i);
    } else {
        lemma_label_end_none(s.drop_last());
    }
}

proof fn lemma_label_end_range(s: Seq<u8>)
    ensures
        label_end(s) matches Some(i) ==> 0 <= i && i + 1 < s.len() && s[i] == 34u8,
    decreases s.len(),
{
    if s.len() >= 2 {
        lemma_label_end_range(s.drop_last());
    }
}

proof fn lemma_label_end_none(s: Seq<u8>)
    requires
        forall|j: int| 0 <= j && j + 1 < s.len() ==> !(#[trigger] s[j] == 34u8 && s[j + 1] == 44u8),
    ensures
        label_end(s) is None,
    decreases s.len(),
{
    if s.len() >= 2 {
        lemma_label_end_none(s.drop_last());
    }
}

/// The attributes with the chain marked at the end of the label, when there is a chain.
pub fn decorate_with_chain(attr: Vec<u8>, chain_id: Option<usize>) -> (r: Vec<u8>)
    ensures
        r@ == decorated(attr@, chain_id),
{
    let c = match chain_id {
        None => {
            return attr;
        },
        Some(c) => c,
    };
    proof { lemma_label_end_range(attr@); }
    match find_label_end(&attr) {
        None => attr,
        Some(label_end) => {
            let mut out: Vec<u8> = Vec::new();
            let mut i: usize = 0;
            while i < label_end
                invariant
                    0 <= i <= label_end,
                    label_end < attr@.len(),
                    out@ == attr@.take(i as int),
                decreases label_end - i,
            {
                out.push(attr[i]);
                assert(out@ =~= attr@.take(i + 1));
                i = i + 1;
            }
            let marker = str_bytes("\\nCH");
            append_bytes(&mut out, marker.as_slice());
            let digits = decimal_bytes(c);
            append_bytes(&mut out, digits.as_slice());
            let ghost before = out@;
            let mut j: usize = label_end;
            while j < attr.len()
                invariant
                    label_end <= j <= attr@.len(),
                    out@ == before + attr@.subrange(label_end as int, j as int),
                decreases attr@.len() - j,
            {
                out.push(attr[j]);
                assert(out@ =~= before + attr@.subrange(label_end as int, j + 1));
                j = j + 1;
            }
            assert(attr@.subrange(label_end as int, attr@.len() as int) =~= attr@.skip(label_end as int));
            assert(out@ =~= attr@.take(label_end as int) + "\\nCH".spec_bytes() + decimal(c as nat) + attr@.skip(label_end as int));
            out
        },
    }
}

fn push_quoted_id(out: &mut Vec<u8>, id: NodeID)
    ensures
        final(out)@ == old(out)@ + quoted_id(id),
{
    out.push(34u8);
    let d = decimal_bytes(id);
    append_bytes(out, d.as_slice());
    out.push(34u8);
    assert(final(out)@ =~= old(out)@ + quoted_id(id));
}

fn push_edge(out: &mut Vec<u8>, from: NodeID, to: NodeID, moved: bool)
    ensures
        !moved ==> final(out)@ == old(out)@ + edge_line(from, to),
        moved ==> final(out)@ == old(out)@ + moved_line(from, to),
{
    let indent = str_bytes("    ");
    append_bytes(out, indent.as_slice());
    push_quoted_id(out, from);
    let arrow = str_bytes(" -> ");
    append_bytes(out, arrow.as_slice());
    push_quoted_id(out, to);
    if moved {
        let tail = str_bytes(" [style=dashed, constraint=false, color=blue];\n");
        append_bytes(out, tail.as_slice());
        assert(final(out)@ =~= old(out)@ + moved_line(from, to));
    } else {
        let tail = str_bytes(" [arrowhead=none];\n");
        append_bytes(out, tail.as_slice());
        assert(final(out)@ =~= old(out)@ + edge_line(from, to));
    }
}

impl TreeModel {
    /// The graph of the tree in the dot language, as bytes (see `dot_graph`).
    pub fn dot_graph_bytes(&self, names: &Interner, show_movement_arrows: bool) -> (r: Result<Vec<u8>, TreeError>)
        ensures
            match dot_graph(self@, names@, show_movement_arrows) {
                Ok(s) => r matches Ok(v) && v@ == s,
                Err(e) => r matches Err(e2) && e2 == e,
            },
    {
        let mut graph: Vec<u8> = Vec::new();
        if self.is_empty() {
            assert(graph@ =~= Seq::<u8>::empty());
            return Ok(graph);
        }
        let h1 = str_bytes("digraph {{\n");
        append_bytes(&mut graph, h1.as_slice());
        let h2 = str_bytes("    rankdir=TB;\n");
        append_bytes(&mut graph, h2.as_slice());
        let h3 = str_bytes("    node [shape=box, style=filled];\n");
        append_bytes(&mut graph, h3.as_slice());
        assert(graph@ =~= dot_header());
        let mut nodes: Vec<NodeID> = Vec::new();
        nodes.push(self.get_root());
        let mut fuel: usize = self.node_count();
        assert(nodes@ =~= seq![self@.root]);
        loop
            invariant
                s_dot_loop(self@, names@, show_movement_arrows, nodes@, graph@, fuel as nat)
                    == s_dot_loop(self@, names@, show_movement_arrows, seq![self@.root], dot_header(), walk_fuel(self@)),
                self@.nodes.len() > 0,
            decreases fuel,
        {
            if nodes.len() == 0 {
                let tail = str_bytes("}}");
                append_bytes(&mut graph, tail.as_slice());
                return Ok(graph);
            }
            if fuel == 0 {
                return Err(TreeError::MalformedLinks);
            }
            let ghost stack = nodes@;
            let ghost g0 = graph@;
            let id = nodes.pop().unwrap();
            assert(nodes@ =~= stack.drop_last());
            let value = self.get_value(id)?;
            let attr = value.dot_attr_bytes(names);
            let chain = self.get_chain_id(id)?;
            let attr = decorate_with_chain(attr, chain);
            let indent = str_bytes("    ");
            append_bytes(&mut graph, indent.as_slice());
            push_quoted_id(&mut graph, id);
            let open = str_bytes(" [");
            append_bytes(&mut graph, open.as_slice());
            append_bytes(&mut graph, attr.as_slice());
            let close = str_bytes("];\n");
            append_bytes(&mut graph, close.as_slice());
            let ghost n = self@.nodes[id as int];
            assert(graph@ =~= g0 + node_line(id, decorated(dot_attr(names@, n.value), n.chain_id)));
            let ghost acc1 = graph@;
            let ghost rest = nodes@;
            if let Some(left_id) = self.get_left(id)? {
                push_edge(&mut graph, id, left_id, false);
                nodes.push(left_id);
            }
            if let Some(right_id) = self.get_right(id)? {
                push_edge(&mut graph, id, right_id, false);
                nodes.push(right_id);
            }
            let moved = self.get_moved(id)?;
            if show_movement_arrows {
                if let Some(moved_id) = moved {
                    push_edge(&mut graph, id, moved_id, true);
                }
            }
            proof {
                let (acc2, s1) = match n.left {
                    Some(l) => (acc1 + edge_line(id, l), rest.push(l)),
                    None => (acc1, rest),
                };
                let (acc3, s2) = match n.right {
                    Some(r) => (acc2 + edge_line(id, r), s1.push(r)),
                    None => (acc2, s1),
                };
                assert(nodes@ == s2);
            }
            fuel = fuel - 1;
        }
    }

    /// The graph of the tree in the dot language, with or without the dashed edges of movement.
    pub fn to_dot_graph_with_arrows(&self, names: &Interner, show_movement_arrows: bool) -> (r: Result<String, TreeError>)
        requires
            names.wf(),
        ensures
            match dot_graph(self@, names@, show_movement_arrows) {
                Ok(s) => r is Ok && r->Ok_0@ == vstd::utf8::decode_utf8(s),
                Err(e) => r matches Err(e2) && e2 == e,
            },
    {
        proof {
            lemma_dot_graph_valid(self@, names@, show_movement_arrows);
        }
        let bytes = self.dot_graph_bytes(names, show_movement_arrows)?;
        Ok(bytes_to_string(bytes))
    }

    /// The graph of the tree in the dot language, with the dashed edges of movement.
    pub fn to_dot_graph(&self, names: &Interner) -> (r: Result<String, TreeError>)
        requires
            names.wf(),
        ensures
            match dot_graph(self@, names@, true) {
                Ok(s) => r is Ok && r->Ok_0@ == vstd::utf8::decode_utf8(s),
                Err(e) => r matches Err(e2) && e2 == e,
            },
    {
        self.to_dot_graph_with_arrows(names, true)
    }
}

} // verus!
