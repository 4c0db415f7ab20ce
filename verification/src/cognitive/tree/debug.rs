use super::model::TreeModel;
use super::node::{child_count, Node, NodeID, TNodeV};
use super::spec::{in_arena, walk_fuel, TreeV};
use crate::error::TreeError;
use crate::interner::Interner;
use crate::syntax::render::{bytes_to_string, lemma_value_text_valid, value_text};
use crate::utf8::{all_valid, lemma_concat, lemma_concat3, lemma_decimal_valid, lemma_spaces_valid, lemma_str_valid};
use vstd::utf8::valid_utf8;
use crate::text::{append_bytes, decimal, decimal_bytes, str_bytes};
use vstd::prelude::*;
use vstd::string::StringSliceAdditionalSpecFns;

verus! {

/// `n` spaces.
pub open spec fn spaces(n: nat) -> Seq<u8> {
    Seq::new(n, |_i: int| 32u8)
}

/// The indentation of a child: four more spaces, up to the largest `usize`.
pub open spec fn next_indent(i: usize) -> usize {
    if i <= usize::MAX - 4 {
        (i + 4) as usize
    } else {
        usize::MAX
    }
}

/// The start of a node's line: indentation, a tick when its subtree is complete, a
/// star when it has features to pass up, its id, and the node it was moved from.
pub open spec fn line_head(n: TNodeV, indent: usize, full: bool) -> Seq<u8> {
    spaces(indent as nat) + "[".spec_bytes() + (if full && n.done {
        "✔  ".spec_bytes()
    } else {
        Seq::empty()
    }) + (if n.project is Some {
        "★ ".spec_bytes()
    } else {
        Seq::empty()
    }) + decimal(n.id as nat) + "]".spec_bytes() + (match n.moved {
        Some(m) => " --> [".spec_bytes() + decimal(m as nat) + "]".spec_bytes(),
        None => Seq::empty(),
    })
}

/// The end of a node's line: the cursors that point at it and its number of children.
pub open spec fn line_tail(t: TreeV, id: NodeID) -> Seq<u8> {
    (if id == t.upper {
        " <--UPPER_CURSOR|".spec_bytes()
    } else {
        Seq::empty()
    }) + (if id == t.lower {
        " <--LOWER_CURSOR|".spec_bytes()
    } else {
        Seq::empty()
    }) + "(".spec_bytes() + decimal(child_count(t.nodes[id as int])) + " children)\n".spec_bytes()
}

/// The line that shows node `id`: its head, its value, and, in the full form, its
/// tail; the short form leaves out the tick and the tail.
pub open spec fn debug_line(t: TreeV, names: Seq<Seq<u8>>, id: NodeID, indent: usize, full: bool) -> Seq<u8> {
    line_head(t.nodes[id as int], indent, full) + " ".spec_bytes() + value_text(names, t.nodes[id as int].value) + (if full {
        line_tail(t, id)
    } else {
        "\n".spec_bytes()
    })
}

/// The walk that shows subtrees: nodes are taken from the top of `stack` with their
/// indentation; each adds its line, then its left subtree, then its right subtree,
/// both indented further.
pub open spec fn s_debug_loop(t: TreeV, names: Seq<Seq<u8>>, full: bool, stack: Seq<(NodeID, usize)>, acc: Seq<u8>, fuel: nat) -> Result<Seq<u8>, TreeError>
    decreases fuel,
{
    if stack.len() == 0 {
        Ok(acc)
    } else if fuel == 0 {
        Err(TreeError::MalformedLinks)
    } else {
        let (id, indent) = stack.last();
        let rest = stack.drop_last();
        if !in_arena(t, id) {
            Err(TreeError::NodeNotFound(id))
        } else {
            let n = t.nodes[id as int];
            let acc1 = acc + debug_line(t, names, id, indent, full);
            let s1 = match n.right {
                Some(r) => rest.push((r, next_indent(indent))),
                None => rest,
            };
            let s2 = match n.left {
                Some(l) => s1.push((l, next_indent(indent))),
                None => s1,
            };
            s_debug_loop(t, names, full, s2, acc1, (fuel - 1) as nat)
        }
    }
}

/// The subtrees set aside, as a walk stack that takes them in order, unindented.
pub open spec fn unattached_stack(u: Seq<NodeID>) -> Seq<(NodeID, usize)> {
    Seq::new(u.len(), |i: int| (u[u.len() - 1 - i], 0usize))
}

/// The tree shown one node per line from the root, followed by the subtrees set aside.
pub open spec fn debug_text(t: TreeV, names: Seq<Seq<u8>>) -> Result<Seq<u8>, TreeError> {
    let main = if t.nodes.len() > 0 {
        s_debug_loop(t, names, true, seq![(t.root, 0usize)], Seq::empty(), walk_fuel(t))
    } else {
        Ok(Seq::empty())
    };
    match main {
        Err(e) => Err(e),
        Ok(a) => if t.unattached.len() == 0 {
            Ok(a)
        } else {
            s_debug_loop(t, names, true, unattached_stack(t.unattached), a + "Unattached subtrees:\n".spec_bytes(), walk_fuel(t))
        },
    }
}

/// The tree shown one node per line in the short form, from the node with id 0.
pub open spec fn display_text(t: TreeV, names: Seq<Seq<u8>>) -> Result<Seq<u8>, TreeError> {
    if t.nodes.len() > 0 {
        s_debug_loop(t, names, false, seq![(0usize, 0usize)], Seq::empty(), walk_fuel(t))
    } else {
        Ok(Seq::empty())
    }
}

proof fn lemma_line_valid(t: TreeV, names: Seq<Seq<u8>>, id: NodeID, indent: usize, full: bool)
    requires
        all_valid(names),
        in_arena(t, id),
    ensures
        valid_utf8(debug_line(t, names, id, indent, full)),
{
    let n = t.nodes[id as int];
    lemma_spaces_valid(indent as nat);
    lemma_str_valid("[");
    lemma_str_valid("✔  ");
    lemma_str_valid("★ ");
    lemma_str_valid("]");
    lemma_str_valid(" --> [");
    lemma_str_valid(" ");
    lemma_str_valid(" <--UPPER_CURSOR|");
    lemma_str_valid(" <--LOWER_CURSOR|");
    lemma_str_valid("(");
    lemma_str_valid(" children)\n");
    lemma_str_valid("\n");
    lemma_decimal_valid(n.id as nat);
    lemma_decimal_valid(child_count(n));
    assert(valid_utf8(Seq::<u8>::empty()));
    let tick = if full && n.done { "✔  ".spec_bytes() } else { Seq::empty() };
    let star = if n.project is Some { "★ ".spec_bytes() } else { Seq::empty() };
    let moved = match n.moved {
        Some(m) => {
            lemma_decimal_valid(m as nat);
            lemma_concat3(" --> [".spec_bytes(), decimal(m as nat), "]".spec_bytes());
            " --> [".spec_bytes() + decimal(m as nat) + "]".spec_bytes()
        },
        None => Seq::empty(),
    };
    let a = spaces(indent as nat) + "[".spec_bytes();
    lemma_concat(spaces(indent as nat), "[".spec_bytes());
    lemma_concat3(a, tick, star);
    lemma_concat3(a + tick + star, decimal(n.id as nat), "]".spec_bytes());
    lemma_concat(a + tick + star + decimal(n.id as nat) + "]".spec_bytes(), moved);
    assert(line_head(n, indent, full) == a + tick + star + decimal(n.id as nat) + "]".spec_bytes() + moved);
    lemma_value_text_valid(names, n.value);
    lemma_concat3(line_head(n, indent, full), " ".spec_bytes(), value_text(names, n.value));
    let up = if id == t.upper { " <--UPPER_CURSOR|".spec_bytes() } else { Seq::empty() };
    let low = if id == t.lower { " <--LOWER_CURSOR|".spec_bytes() } else { Seq::empty() };
    lemma_concat3(up, low, "(".spec_bytes());
    lemma_concat3(up + low + "(".spec_bytes(), decimal(child_count(n)), " children)\n".spec_bytes());
    assert(line_tail(t, id) == up + low + "(".spec_bytes() + decimal(child_count(n)) + " children)\n".spec_bytes());
    let tail = if full { line_tail(t, id) } else { "\n".spec_bytes() };
    lemma_concat(line_head(n, indent, full) + " ".spec_bytes() + value_text(names, n.value), tail);
}

proof fn lemma_debug_loop_valid(t: TreeV, names: Seq<Seq<u8>>, full: bool, stack: Seq<(NodeID, usize)>, acc: Seq<u8>, fuel: nat)
    requires
        all_valid(names),
        valid_utf8(acc),
    ensures
        s_debug_loop(t, names, full, stack, acc, fuel) matches Ok(s) ==> valid_utf8(s),
    decreases fuel,
{
    if stack.len() > 0 && fuel > 0 {
        let (id, indent) = stack.last();
        if in_arena(t, id) {
            let n = t.nodes[id as int];
            lemma_line_valid(t, names, id, indent, full);
            lemma_concat(acc, debug_line(t, names, id, indent, full));
            let rest = stack.drop_last();
            let s1 = match n.right {
                Some(r) => rest.push((r, next_indent(indent))),
                None => rest,
            };
            let s2 = match n.left {
                Some(l) => s1.push((l, next_indent(indent))),
                None => s1,
            };
            lemma_debug_loop_valid(t, names, full, s2, acc + debug_line(t, names, id, indent, full), (fuel - 1) as nat);
        }
    }
}

/// With a table of valid UTF-8 words, the texts of a tree are valid UTF-8.
pub proof fn lemma_tree_texts_valid(t: TreeV, names: Seq<Seq<u8>>)
    requires
        all_valid(names),
    ensures
        debug_text(t, names) matches Ok(s) ==> valid_utf8(s),
        display_text(t, names) matches Ok(s) ==> valid_utf8(s),
{
    assert(valid_utf8(Seq::<u8>::empty()));
    lemma_debug_loop_valid(t, names, true, seq![(t.root, 0usize)], Seq::empty(), walk_fuel(t));
    lemma_debug_loop_valid(t, names, false, seq![(0usize, 0usize)], Seq::empty(), walk_fuel(t));
    let main = if t.nodes.len() > 0 {
        s_debug_loop(t, names, true, seq![(t.root, 0usize)], Seq::empty(), walk_fuel(t))
    } else {
        Ok(Seq::empty())
    };
    if let Ok(a) = main {
        lemma_str_valid("Unattached subtrees:\n");
        lemma_concat(a, "Unattached subtrees:\n".spec_bytes());
        lemma_debug_loop_valid(
            t,
            names,
            true,
            unattached_stack(t.unattached),
            a + "Unattached subtrees:\n".spec_bytes(),
            walk_fuel(t),
        );
    }
}

fn push_spaces(out: &mut Vec<u8>, n: usize)
    ensures
        final(out)@ == old(out)@ + spaces(n as nat),
{
    let mut k: usize = 0;
    while k < n
        invariant
            0 <= k <= n,
            out@ == old(out)@ + spaces(k as nat),
        decreases n - k,
    {
        out.push(32u8);
        assert(out@ =~= old(out)@ + spaces((k + 1) as nat));
        k = k + 1;
    }
}

fn push_str(out: &mut Vec<u8>, s: &str)
    ensures
        final(out)@ == old(out)@ + s.spec_bytes(),
{
    let b = str_bytes(s);
    append_bytes(out, b.as_slice());
}

fn push_decimal(out: &mut Vec<u8>, n: usize)
    ensures
        final(out)@ == old(out)@ + decimal(n as nat),
{
    let b = decimal_bytes(n);
    append_bytes(out, b.as_slice());
}

impl TreeModel {
    fn push_line_head(&self, out: &mut Vec<u8>, node: &Node, indent: usize, full: bool)
        ensures
            final(out)@ == old(out)@ + line_head(node@, indent, full),
    {
        let ghost n = node@;
        let ghost tick: Seq<u8> = if full && n.done { "✔  ".spec_bytes() } else { Seq::empty() };
        let ghost star: Seq<u8> = if n.project is Some { "★ ".spec_bytes() } else { Seq::empty() };
        push_spaces(out, indent);
        push_str(out, "[");
        let ghost after_open = out@;
        if full && node.if_done() {
            push_str(out, "✔  ");
        }
        assert(out@ =~= after_open + tick);
        let ghost after_tick = out@;
        if node.get_project().is_some() {
            push_str(out, "★ ");
        }
        assert(out@ =~= after_tick + star);
        push_decimal(out, node.get_id());
        push_str(out, "]");
        let ghost after_id = out@;
        if let Some(moved_id) = node.get_moved() {
            push_str(out, " --> [");
            push_decimal(out, moved_id);
            push_str(out, "]");
        }
        proof {
            let moved: Seq<u8> = match n.moved {
                Some(m) => " --> [".spec_bytes() + decimal(m as nat) + "]".spec_bytes(),
                None => Seq::empty(),
            };
            assert(out@ =~= after_id + moved);
            assert(line_head(n, indent, full) =~= spaces(indent as nat) + "[".spec_bytes() + tick + star
                + decimal(n.id as nat) + "]".spec_bytes() + moved);
            assert(out@ =~= old(out)@ + line_head(n, indent, full));
        }
    }

    fn push_line_tail(&self, out: &mut Vec<u8>, node: &Node, id: NodeID)
        requires
            in_arena(self@, id),
            node@ == self@.nodes[id as int],
        ensures
            final(out)@ == old(out)@ + line_tail(self@, id),
    {
        if id == self.get_upper_cursor() {
            push_str(out, " <--UPPER_CURSOR|");
        }
        if id == self.get_lower_cursor() {
            push_str(out, " <--LOWER_CURSOR|");
        }
        push_str(out, "(");
        push_decimal(out, node.number_of_children());
        push_str(out, " children)\n");
        assert(out@ =~= old(out)@ + line_tail(self@, id));
    }

    fn push_debug_line(&self, names: &Interner, out: &mut Vec<u8>, node: &Node, id: NodeID, indent: usize, full: bool)
        requires
            in_arena(self@, id),
            node@ == self@.nodes[id as int],
        ensures
            final(out)@ == old(out)@ + debug_line(self@, names@, id, indent, full),
    {
        self.push_line_head(out, node, indent, full);
        push_str(out, " ");
        let v = node.get_value().text_bytes(names);
        append_bytes(out, v.as_slice());
        if full {
            self.push_line_tail(out, node, id);
        } else {
            push_str(out, "\n");
        }
        assert(out@ =~= old(out)@ + debug_line(self@, names@, id, indent, full));
    }

    fn debug_walk(&self, names: &Interner, full: bool, stack: Vec<(NodeID, usize)>, acc: Vec<u8>, fuel: usize) -> (r: Result<Vec<u8>, TreeError>)
        ensures
            match s_debug_loop(self@, names@, full, stack@, acc@, fuel as nat) {
                Ok(s) => r matches Ok(v) && v@ == s,
                Err(e) => r matches Err(e2) && e2 == e,
            },
    {
        let ghost want = s_debug_loop(self@, names@, full, stack@, acc@, fuel as nat);
        let mut st = stack;
        let mut out = acc;
        let mut f = fuel;
        loop
            invariant
                want == s_debug_loop(self@, names@, full, stack@, acc@, fuel as nat),
                s_debug_loop(self@, names@, full, st@, out@, f as nat) == want,
            decreases f,
        {
            if st.len() == 0 {
                return Ok(out);
            }
            if f == 0 {
                return Err(TreeError::MalformedLinks);
            }
            let ghost st0 = st@;
            let (id, indent) = st.pop().unwrap();
            assert(st@ =~= st0.drop_last());
            let node = self.get_node(id)?;
            self.push_debug_line(names, &mut out, node, id, indent, full);
            let ni = if indent <= usize::MAX - 4 {
                indent + 4
            } else {
                usize::MAX
            };
            if let Some(right_id) = node.get_right() {
                st.push((right_id, ni));
            }
            if let Some(left_id) = node.get_left() {
                st.push((left_id, ni));
            }
            f = f - 1;
        }
    }

    /// The tree shown one node per line, as bytes (see `debug_text`).
    pub fn debug_bytes(&self, names: &Interner) -> (r: Result<Vec<u8>, TreeError>)
        ensures
            match debug_text(self@, names@) {
                Ok(s) => r matches Ok(v) && v@ == s,
                Err(e) => r matches Err(e2) && e2 == e,
            },
    {
        let mut out: Vec<u8> = Vec::new();
        if !self.is_empty() {
            let mut stack: Vec<(NodeID, usize)> = Vec::new();
            stack.push((self.get_root(), 0usize));
            assert(stack@ =~= seq![(self@.root, 0usize)]);
            assert(out@ =~= Seq::<u8>::empty());
            out = self.debug_walk(names, true, stack, out, self.node_count())?;
        } else {
            assert(out@ =~= Seq::<u8>::empty());
        }
        let n = self.unattached_count();
        if n == 0 {
            return Ok(out);
        }
        push_str(&mut out, "Unattached subtrees:\n");
        let mut stack: Vec<(NodeID, usize)> = Vec::new();
        let mut i: usize = n;
        while i > 0
            invariant
                n == self@.unattached.len(),
                0 <= i <= n,
                stack@ =~= unattached_stack(self@.unattached).take((n - i) as int),
            decreases i,
        {
            i = i - 1;
            let id = self.unattached_at(i);
            stack.push((id, 0usize));
        }
        assert(stack@ =~= unattached_stack(self@.unattached));
        self.debug_walk(names, true, stack, out, self.node_count())
    }

    /// The tree shown one node per line in the short form, as bytes (see `display_text`).
    pub fn display_bytes(&self, names: &Interner) -> (r: Result<Vec<u8>, TreeError>)
        ensures
            match display_text(self@, names@) {
                Ok(s) => r matches Ok(v) && v@ == s,
                Err(e) => r matches Err(e2) && e2 == e,
            },
    {
        let out: Vec<u8> = Vec::new();
        assert(out@ =~= Seq::<u8>::empty());
        if self.is_empty() {
            return Ok(out);
        }
        let mut stack: Vec<(NodeID, usize)> = Vec::new();
        stack.push((0usize, 0usize));
        assert(stack@ =~= seq![(0usize, 0usize)]);
        self.debug_walk(names, false, stack, out, self.node_count())
    }

    /// The tree shown one node per line in the short form (see `display_text`).
    pub fn to_text(&self, names: &Interner) -> (r: Result<String, TreeError>)
        requires
            names.wf(),
        ensures
            match display_text(self@, names@) {
                Ok(s) => r is Ok && r->Ok_0@ == vstd::utf8::decode_utf8(s),
                Err(e) => r matches Err(e2) && e2 == e,
            },
    {
        proof {
            lemma_tree_texts_valid(self@, names@);
        }
        let bytes = self.display_bytes(names)?;
        Ok(bytes_to_string(bytes))
    }

    /// The tree shown one node per line from the root, followed by the subtrees set aside.
    pub fn debug_string(&self, names: &Interner) -> (r: Result<String, TreeError>)
        requires
            names.wf(),
        ensures
            match debug_text(self@, names@) {
                Ok(s) => r is Ok && r->Ok_0@ == vstd::utf8::decode_utf8(s),
                Err(e) => r matches Err(e2) && e2 == e,
            },
    {
        proof {
            lemma_tree_texts_valid(self@, names@);
        }
        let bytes = self.debug_bytes(names)?;
        Ok(bytes_to_string(bytes))
    }
}

} // verus!
