use super::sections::{add_word, feature_words, file_words, functional_words, intern_all, lexical_words, node_words};
use super::syntax::{
    fset_more, is_blank, is_mark, line_tokens, line_tokens_from, lines, lines_from, mark_tok, parse_feature_line, parse_fset,
    parse_functional_line, parse_lexical_line, parse_node, parse_node_to_end, read_file, read_line, read_lines, FileAst,
    NodeAst, TokV,
};
use crate::utf8::{all_valid, lemma_all_valid_concat, lemma_all_valid_push, lemma_split_at_ascii};
use vstd::prelude::*;
use vstd::utf8::valid_utf8;

verus! {

/// Every word token of `toks` is valid UTF-8.
pub open spec fn toks_valid(toks: Seq<TokV>) -> bool {
    forall|i: int| 0 <= i < toks.len() && (#[trigger] toks[i]) is Word ==> valid_utf8(toks[i]->Word_0)
}

proof fn lemma_toks_valid_concat(a: Seq<TokV>, b: Seq<TokV>)
    requires
        toks_valid(a),
        toks_valid(b),
    ensures
        toks_valid(a + b),
{
    assert forall|i: int| 0 <= i < (a + b).len() && (#[trigger] (a + b)[i]) is Word implies valid_utf8(
        (a + b)[i]->Word_0,
    ) by {
        if i < a.len() {
            assert((a + b)[i] == a[i]);
        } else {
            assert((a + b)[i] == b[i - a.len()]);
        }
    }
}

/// The lines of valid UTF-8 text are valid UTF-8.
proof fn lemma_lines_valid(s: Seq<u8>, cur: Seq<u8>)
    requires
        valid_utf8(cur + s),
    ensures
        all_valid(lines_from(s, cur)),
    decreases s.len(),
{
    if s.len() == 0 {
        assert(cur + s =~= cur);
        lemma_all_valid_push(Seq::empty(), cur);
        assert(seq![cur] =~= Seq::<Seq<u8>>::empty().push(cur));
    } else if s[0] == 10u8 {
        let b = cur + s;
        lemma_split_at_ascii(b, cur.len() as int);
        assert(b.subrange(0, cur.len() as int) =~= cur);
        assert(b.subrange(cur.len() as int + 1, b.len() as int) =~= Seq::<u8>::empty() + s.drop_first());
        lemma_lines_valid(s.drop_first(), Seq::empty());
        lemma_all_valid_push(Seq::empty(), cur);
        assert(seq![cur] =~= Seq::<Seq<u8>>::empty().push(cur));
        lemma_all_valid_concat(seq![cur], lines_from(s.drop_first(), Seq::empty()));
    } else {
        assert(cur.push(s[0]) + s.drop_first() =~= cur + s);
        lemma_lines_valid(s.drop_first(), cur.push(s[0]));
    }
}

/// The word tokens of a valid UTF-8 line are valid UTF-8.
proof fn lemma_line_tokens_valid(s: Seq<u8>, cur: Seq<u8>)
    requires
        valid_utf8(cur + s),
    ensures
        toks_valid(line_tokens_from(s, cur)),
    decreases s.len(),
{
    if s.len() == 0 {
        assert(cur + s =~= cur);
    } else {
        let b = s[0];
        if is_blank(b) || is_mark(b) {
            let all = cur + s;
            lemma_split_at_ascii(all, cur.len() as int);
            assert(all.subrange(0, cur.len() as int) =~= cur);
            assert(all.subrange(cur.len() as int + 1, all.len() as int) =~= Seq::<u8>::empty() + s.drop_first());
            lemma_line_tokens_valid(s.drop_first(), Seq::empty());
            let rest = line_tokens_from(s.drop_first(), Seq::empty());
            let f = super::syntax::flush_word(cur);
            assert(toks_valid(f));
            if is_blank(b) {
                lemma_toks_valid_concat(f, rest);
            } else {
                assert(toks_valid(seq![mark_tok(b)]));
                lemma_toks_valid_concat(f, seq![mark_tok(b)]);
                lemma_toks_valid_concat(f + seq![mark_tok(b)], rest);
            }
        } else {
            assert(cur.push(b) + s.drop_first() =~= cur + s);
            lemma_line_tokens_valid(s.drop_first(), cur.push(b));
        }
    }
}

proof fn lemma_fset_more_valid(toks: Seq<TokV>, pos: int, acc: Seq<Seq<u8>>)
    requires
        toks_valid(toks),
        all_valid(acc),
    ensures
        all_valid(fset_more(toks, pos, acc).0),
    decreases toks.len() - pos,
{
    if 0 <= pos && pos + 1 < toks.len() && toks[pos] == TokV::Comma && toks[pos + 1] is Word {
        lemma_all_valid_push(acc, toks[pos + 1]->Word_0);
        lemma_fset_more_valid(toks, pos + 2, acc.push(toks[pos + 1]->Word_0));
    }
}

proof fn lemma_parse_fset_valid(toks: Seq<TokV>, pos: int)
    requires
        toks_valid(toks),
    ensures
        parse_fset(toks, pos) matches Some((fs, _)) ==> all_valid(fs),
{
    if 0 <= pos < toks.len() && toks[pos] is Word {
        lemma_all_valid_push(Seq::empty(), toks[pos]->Word_0);
        assert(seq![toks[pos]->Word_0] =~= Seq::<Seq<u8>>::empty().push(toks[pos]->Word_0));
        lemma_fset_more_valid(toks, pos + 1, seq![toks[pos]->Word_0]);
    }
}

proof fn lemma_parse_node_valid(toks: Seq<TokV>, pos: int, fuel: nat)
    requires
        toks_valid(toks),
    ensures
        parse_node(toks, pos, fuel) matches Some((n, _)) ==> all_valid(node_words(n)),
    decreases fuel,
{
    if fuel > 0 && 0 <= pos < toks.len() {
        if toks[pos] == TokV::Open {
            lemma_parse_node_valid(toks, pos + 1, (fuel - 1) as nat);
            if let Some((l, p1)) = parse_node(toks, pos + 1, (fuel - 1) as nat) {
                lemma_parse_node_valid(toks, p1 + 1, (fuel - 1) as nat);
                if let Some((r, _)) = parse_node(toks, p1 + 1, (fuel - 1) as nat) {
                    lemma_all_valid_concat(node_words(l), node_words(r));
                }
            }
        } else {
            lemma_parse_fset_valid(toks, pos + 2);
            lemma_parse_fset_valid(toks, pos);
        }
    }
}

proof fn lemma_parse_lines_valid(toks: Seq<TokV>)
    requires
        toks_valid(toks),
    ensures
        parse_feature_line(toks) matches Some((c, vs)) ==> valid_utf8(c) && all_valid(vs),
        parse_functional_line(toks) matches Some((fs, n)) ==> all_valid(fs) && all_valid(node_words(n)),
        parse_lexical_line(toks) matches Some((w, n)) ==> valid_utf8(w) && all_valid(node_words(n)),
{
    lemma_parse_fset_valid(toks, 2);
    lemma_parse_fset_valid(toks, 0);
    if let Some((fs, p)) = parse_fset(toks, 0) {
        lemma_parse_node_valid(toks, p + 1, toks.len());
    }
    lemma_parse_node_valid(toks, 2, toks.len());
}

/// The words of the entries read so far are valid UTF-8.
pub open spec fn file_valid(f: FileAst) -> bool {
    &&& all_valid(feature_words(f.features))
    &&& all_valid(functional_words(f.functional))
    &&& all_valid(lexical_words(f.lexical))
}

proof fn lemma_read_line_valid(state: nat, line: Seq<u8>, acc: FileAst)
    requires
        valid_utf8(line),
        file_valid(acc),
    ensures
        read_line(state, line, acc) matches Some((_, a)) ==> file_valid(a),
{
    assert(Seq::<u8>::empty() + line =~= line);
    lemma_line_tokens_valid(line, Seq::empty());
    let toks = line_tokens(line);
    lemma_parse_lines_valid(toks);
    if let Some((c, vs)) = parse_feature_line(toks) {
        let es = acc.features.push((c, vs));
        assert(es.drop_last() =~= acc.features);
        lemma_all_valid_push(feature_words(acc.features), c);
        assert(feature_words(acc.features) + seq![c] =~= feature_words(acc.features).push(c));
        lemma_all_valid_concat(feature_words(acc.features) + seq![c], vs);
    }
    if let Some((fs, n)) = parse_functional_line(toks) {
        let es = acc.functional.push((fs, n));
        assert(es.drop_last() =~= acc.functional);
        lemma_all_valid_concat(functional_words(acc.functional), fs);
        lemma_all_valid_concat(functional_words(acc.functional) + fs, node_words(n));
    }
    if let Some((w, n)) = parse_lexical_line(toks) {
        let es = acc.lexical.push((w, n));
        assert(es.drop_last() =~= acc.lexical);
        lemma_all_valid_push(lexical_words(acc.lexical), w);
        assert(lexical_words(acc.lexical) + seq![w] =~= lexical_words(acc.lexical).push(w));
        lemma_all_valid_concat(lexical_words(acc.lexical) + seq![w], node_words(n));
    }
}

proof fn lemma_read_lines_valid(ls: Seq<Seq<u8>>, i: int, state: nat, acc: FileAst)
    requires
        all_valid(ls),
        file_valid(acc),
    ensures
        read_lines(ls, i, state, acc) matches Ok(f) ==> file_valid(f),
    decreases ls.len() - i,
{
    if 0 <= i < ls.len() {
        lemma_read_line_valid(state, ls[i], acc);
        if let Some((st, a)) = read_line(state, ls[i], acc) {
            lemma_read_lines_valid(ls, i + 1, st, a);
        }
    }
}

/// The words that a lexicon file written in valid UTF-8 holds are valid UTF-8.
pub proof fn lemma_file_words_valid(text: Seq<u8>)
    requires
        valid_utf8(text),
    ensures
        read_file(text) matches Ok(f) ==> all_valid(file_words(f)),
{
    assert(Seq::<u8>::empty() + text =~= text);
    lemma_lines_valid(text, Seq::empty());
    let e = super::syntax::empty_file();
    assert(file_valid(e));
    lemma_read_lines_valid(lines(text), 0, 0, e);
    if let Ok(f) = read_file(text) {
        lemma_all_valid_concat(feature_words(f.features), functional_words(f.functional));
        lemma_all_valid_concat(feature_words(f.features) + functional_words(f.functional), lexical_words(f.lexical));
    }
}

/// Adding valid words to a table of valid words keeps it valid.
pub proof fn lemma_intern_all_valid(t: Seq<Seq<u8>>, ws: Seq<Seq<u8>>)
    requires
        all_valid(t),
        all_valid(ws),
    ensures
        all_valid(intern_all(t, ws)),
    decreases ws.len(),
{
    if ws.len() > 0 {
        let d = ws.drop_last();
        assert(all_valid(d)) by {
            assert forall|i: int| 0 <= i < d.len() implies valid_utf8(#[trigger] d[i]) by {
                assert(d[i] == ws[i]);
            }
        }
        lemma_intern_all_valid(t, d);
        assert(valid_utf8(ws[ws.len() - 1]));
        let p = intern_all(t, d);
        if !p.contains(ws.last()) {
            lemma_all_valid_push(p, ws.last());
        }
    }
}

} // verus!
