use crate::interpreter::normalize::{trim, trim_bytes};
use crate::text::bytes_equal;
use crate::tokenizer::views;
use vstd::prelude::*;
use vstd::string::StringSliceAdditionalSpecFns;

verus! {

// ---------------------------------------------------------------------------
// Lines and tokens.
// ---------------------------------------------------------------------------

/// The lines of `s` when `cur` has been read on the current line: `s` split at line feeds.
pub open spec fn lines_from(s: Seq<u8>, cur: Seq<u8>) -> Seq<Seq<u8>>
    decreases s.len(),
{
    if s.len() == 0 {
        seq![cur]
    } else if s[0] == 10u8 {
        seq![cur] + lines_from(s.drop_first(), Seq::empty())
    } else {
        lines_from(s.drop_first(), cur.push(s[0]))
    }
}

/// The lines of the text `s`.
pub open spec fn lines(s: Seq<u8>) -> Seq<Seq<u8>> {
    lines_from(s, Seq::empty())
}

/// A token of an entry line.
pub ghost enum TokV {
    Word(Seq<u8>),
    Eq,
    Comma,
    Open,
    Close,
    Lt,
    Gt,
}

/// Space, tab or carriage return: separates tokens on a line.
pub open spec fn is_blank(b: u8) -> bool {
    b == 32 || b == 9 || b == 13
}

/// `=` `,` `(` `)` `<` `>`: a token of its own.
pub open spec fn is_mark(b: u8) -> bool {
    b == 61 || b == 44 || b == 40 || b == 41 || b == 60 || b == 62
}

pub open spec fn mark_tok(b: u8) -> TokV {
    if b == 61 {
        TokV::Eq
    } else if b == 44 {
        TokV::Comma
    } else if b == 40 {
        TokV::Open
    } else if b == 41 {
        TokV::Close
    } else if b == 60 {
        TokV::Lt
    } else {
        TokV::Gt
    }
}

pub open spec fn flush_word(cur: Seq<u8>) -> Seq<TokV> {
    if cur.len() > 0 {
        seq![TokV::Word(cur)]
    } else {
        Seq::empty()
    }
}

/// The tokens of `s` when the word `cur` has been read just before it: marks are
/// tokens of their own, blanks separate, and a word is a maximal run of other bytes.
pub open spec fn line_tokens_from(s: Seq<u8>, cur: Seq<u8>) -> Seq<TokV>
    decreases s.len(),
{
    if s.len() == 0 {
        flush_word(cur)
    } else {
        let b = s[0];
        if is_blank(b) {
            flush_word(cur) + line_tokens_from(s.drop_first(), Seq::empty())
        } else if is_mark(b) {
            flush_word(cur) + seq![mark_tok(b)] + line_tokens_from(s.drop_first(), Seq::empty())
        } else {
            line_tokens_from(s.drop_first(), cur.push(b))
        }
    }
}

/// The tokens of a line.
pub open spec fn line_tokens(s: Seq<u8>) -> Seq<TokV> {
    line_tokens_from(s, Seq::empty())
}

// ---------------------------------------------------------------------------
// The grammar of entries.
// ---------------------------------------------------------------------------

/// The right-hand side of an entry, as written: a bundle of features, a moved
/// bundle `MOVED(..)`, or a function `(from > to)` / `(from < to)`, where `>` says
/// that the argument's features pass up.
pub ghost enum NodeAst {
    Features(Seq<Seq<u8>>),
    Moved(Seq<Seq<u8>>),
    Lambda(Box<NodeAst>, Box<NodeAst>, bool),
}

pub open spec fn moved_word() -> Seq<u8> {
    "MOVED".spec_bytes()
}

/// More features after the ones in `acc`: each one a comma and a word.
pub open spec fn fset_more(toks: Seq<TokV>, pos: int, acc: Seq<Seq<u8>>) -> (Seq<Seq<u8>>, int)
    decreases toks.len() - pos,
{
    if 0 <= pos && pos + 1 < toks.len() && toks[pos] == TokV::Comma && toks[pos + 1] is Word {
        fset_more(toks, pos + 2, acc.push(toks[pos + 1]->Word_0))
    } else {
        (acc, pos)
    }
}

/// A bundle of features at `pos`: words separated by commas; with the position after it.
pub open spec fn parse_fset(toks: Seq<TokV>, pos: int) -> Option<(Seq<Seq<u8>>, int)> {
    if 0 <= pos < toks.len() && toks[pos] is Word {
        Some(fset_more(toks, pos + 1, seq![toks[pos]->Word_0]))
    } else {
        None
    }
}

/// A node at `pos`, nested at most `fuel` deep; with the position after it.
pub open spec fn parse_node(toks: Seq<TokV>, pos: int, fuel: nat) -> Option<(NodeAst, int)>
    decreases fuel,
{
    if fuel == 0 || pos < 0 || pos >= toks.len() {
        None
    } else if toks[pos] == TokV::Open {
        match parse_node(toks, pos + 1, (fuel - 1) as nat) {
            None => None,
            Some((l, p1)) => if 0 <= p1 < toks.len() && (toks[p1] == TokV::Lt || toks[p1] == TokV::Gt) {
                match parse_node(toks, p1 + 1, (fuel - 1) as nat) {
                    None => None,
                    Some((r, p2)) => if 0 <= p2 < toks.len() && toks[p2] == TokV::Close {
                        Some((NodeAst::Lambda(Box::new(l), Box::new(r), toks[p1] == TokV::Gt), p2 + 1))
                    } else {
                        None
                    },
                }
            } else {
                None
            },
        }
    } else if pos + 1 < toks.len() && toks[pos] == TokV::Word(moved_word()) && toks[pos + 1] == TokV::Open {
        match parse_fset(toks, pos + 2) {
            Some((fs, p)) => if 0 <= p < toks.len() && toks[p] == TokV::Close {
                Some((NodeAst::Moved(fs), p + 1))
            } else {
                None
            },
            None => None,
        }
    } else {
        match parse_fset(toks, pos) {
            Some((fs, p)) => Some((NodeAst::Features(fs), p)),
            None => None,
        }
    }
}

/// A node that spans the tokens from `pos` to the end.
pub open spec fn parse_node_to_end(toks: Seq<TokV>, pos: int) -> Option<NodeAst> {
    match parse_node(toks, pos, toks.len()) {
        Some((n, p)) => if p == toks.len() {
            Some(n)
        } else {
            None
        },
        None => None,
    }
}

/// An entry of the feature section: `category=value,value,..`.
pub open spec fn parse_feature_line(toks: Seq<TokV>) -> Option<(Seq<u8>, Seq<Seq<u8>>)> {
    if toks.len() >= 3 && toks[0] is Word && toks[1] == TokV::Eq {
        match parse_fset(toks, 2) {
            Some((vals, p)) => if p == toks.len() {
                Some((toks[0]->Word_0, vals))
            } else {
                None
            },
            None => None,
        }
    } else {
        None
    }
}

/// An entry of the functional section: `features=node`.
pub open spec fn parse_functional_line(toks: Seq<TokV>) -> Option<(Seq<Seq<u8>>, NodeAst)> {
    match parse_fset(toks, 0) {
        Some((fs, p)) => if 0 <= p < toks.len() && toks[p] == TokV::Eq {
            match parse_node_to_end(toks, p + 1) {
                Some(n) => Some((fs, n)),
                None => None,
            }
        } else {
            None
        },
        None => None,
    }
}

/// An entry of the lexical section: `word=node`.
pub open spec fn parse_lexical_line(toks: Seq<TokV>) -> Option<(Seq<u8>, NodeAst)> {
    if toks.len() >= 2 && toks[0] is Word && toks[1] == TokV::Eq {
        match parse_node_to_end(toks, 2) {
            Some(n) => Some((toks[0]->Word_0, n)),
            None => None,
        }
    } else {
        None
    }
}

// ---------------------------------------------------------------------------
// Sections.
// ---------------------------------------------------------------------------

/// The entries of a lexicon file, section by section, as written.
pub ghost struct FileAst {
    pub features: Seq<(Seq<u8>, Seq<Seq<u8>>)>,
    pub functional: Seq<(Seq<Seq<u8>>, NodeAst)>,
    pub lexical: Seq<(Seq<u8>, NodeAst)>,
}

pub open spec fn header(k: nat) -> Seq<u8> {
    if k == 1 {
        "[Features]".spec_bytes()
    } else if k == 2 {
        "[Functional]".spec_bytes()
    } else {
        "[Lexical]".spec_bytes()
    }
}

/// Reads one line in section `state` (0 before the first header): a blank line is
/// skipped, a header opens the next section in the order features, functional,
/// lexical, and any other line is an entry of the current section.
pub open spec fn read_line(state: nat, line: Seq<u8>, acc: FileAst) -> Option<(nat, FileAst)> {
    let l = trim(line);
    if l.len() == 0 {
        Some((state, acc))
    } else if l == header(1) || l == header(2) || l == header(3) {
        if (state == 0 && l == header(1)) || (state == 1 && l == header(2)) || (state == 2 && l == header(3)) {
            Some((state + 1, acc))
        } else {
            None
        }
    } else if state == 1 {
        match parse_feature_line(line_tokens(line)) {
            Some(e) => Some((state, FileAst { features: acc.features.push(e), ..acc })),
            None => None,
        }
    } else if state == 2 {
        match parse_functional_line(line_tokens(line)) {
            Some(e) => Some((state, FileAst { functional: acc.functional.push(e), ..acc })),
            None => None,
        }
    } else if state == 3 {
        match parse_lexical_line(line_tokens(line)) {
            Some(e) => Some((state, FileAst { lexical: acc.lexical.push(e), ..acc })),
            None => None,
        }
    } else {
        None
    }
}

/// Reads the lines from the `i`-th on; an error gives the number (from 1) of the
/// first line that cannot be read, or that of the last line when a section is missing.
pub open spec fn read_lines(ls: Seq<Seq<u8>>, i: int, state: nat, acc: FileAst) -> Result<FileAst, nat>
    decreases ls.len() - i,
{
    if i < 0 || i >= ls.len() {
        if state == 3 {
            Ok(acc)
        } else {
            Err(ls.len())
        }
    } else {
        match read_line(state, ls[i], acc) {
            None => Err((i + 1) as nat),
            Some((st, a)) => read_lines(ls, i + 1, st, a),
        }
    }
}

pub open spec fn empty_file() -> FileAst {
    FileAst { features: Seq::empty(), functional: Seq::empty(), lexical: Seq::empty() }
}

/// The entries of a lexicon file, or the number of the first line in error.
pub open spec fn read_file(text: Seq<u8>) -> Result<FileAst, nat> {
    read_lines(lines(text), 0, 0, empty_file())
}

// ---------------------------------------------------------------------------
// Executable counterparts.
// ---------------------------------------------------------------------------

/// A token of an entry line.
#[derive(Debug)]
pub enum Tok {
    Word(Vec<u8>),
    Eq,
    Comma,
    Open,
    Close,
    Lt,
    Gt,
}

impl View for Tok {
    type V = TokV;

    open spec fn view(&self) -> TokV {
        match self {
            Tok::Word(w) => TokV::Word(w@),
            Tok::Eq => TokV::Eq,
            Tok::Comma => TokV::Comma,
            Tok::Open => TokV::Open,
            Tok::Close => TokV::Close,
            Tok::Lt => TokV::Lt,
            Tok::Gt => TokV::Gt,
        }
    }
}

pub open spec fn toks_view(t: Seq<Tok>) -> Seq<TokV> {
    t.map_values(|x: Tok| x@)
}

/// The right-hand side of an entry, as written.
#[derive(Debug)]
pub enum NodeSyntax {
    Features(Vec<Vec<u8>>),
    Moved(Vec<Vec<u8>>),
    Lambda(Box<NodeSyntax>, Box<NodeSyntax>, bool),
}

pub open spec fn node_syntax_view(n: NodeSyntax) -> NodeAst
    decreases n,
{
    match n {
        NodeSyntax::Features(ws) => NodeAst::Features(views(ws@)),
        NodeSyntax::Moved(ws) => NodeAst::Moved(views(ws@)),
        NodeSyntax::Lambda(l, r, p) => NodeAst::Lambda(
            Box::new(node_syntax_view(*l)),
            Box::new(node_syntax_view(*r)),
            p,
        ),
    }
}

impl View for NodeSyntax {
    type V = NodeAst;

    open spec fn view(&self) -> NodeAst {
        node_syntax_view(*self)
    }
}

/// The entries of a lexicon file, as written.
#[derive(Debug)]
pub struct LexiconSyntax {
    pub features: Vec<(Vec<u8>, Vec<Vec<u8>>)>,
    pub functional: Vec<(Vec<Vec<u8>>, NodeSyntax)>,
    pub lexical: Vec<(Vec<u8>, NodeSyntax)>,
}

impl View for LexiconSyntax {
    type V = FileAst;

    open spec fn view(&self) -> FileAst {
        FileAst {
            features: self.features@.map_values(|e: (Vec<u8>, Vec<Vec<u8>>)| (e.0@, views(e.1@))),
            functional: self.functional@.map_values(|e: (Vec<Vec<u8>>, NodeSyntax)| (views(e.0@), e.1@)),
            lexical: self.lexical@.map_values(|e: (Vec<u8>, NodeSyntax)| (e.0@, e.1@)),
        }
    }
}

fn copy_words(ws: &Vec<Vec<u8>>) -> (r: Vec<Vec<u8>>)
    ensures
        views(r@) == views(ws@),
{
    let mut out: Vec<Vec<u8>> = Vec::new();
    let mut i: usize = 0;
    while i < ws.len()
        invariant
            0 <= i <= ws@.len(),
            views(out@) == views(ws@).take(i as int),
        decreases ws@.len() - i,
    {
        let w = crate::text::copy_bytes(ws[i].as_slice());
        let ghost prev = views(out@);
        out.push(w);
        assert(views(ws@)[i as int] == ws@[i as int]@);
        assert(views(out@) =~= prev.push(w@));
        assert(views(ws@).take(i + 1) =~= views(ws@).take(i as int).push(ws@[i as int]@));
        i = i + 1;
    }
    assert(views(ws@).take(ws@.len() as int) =~= views(ws@));
    out
}

/// Splits `text` into lines at line feeds.
pub fn split_lines(text: &[u8]) -> (r: Vec<Vec<u8>>)
    ensures
        views(r@) == lines(text@),
{
    let mut out: Vec<Vec<u8>> = Vec::new();
    let mut cur: Vec<u8> = Vec::new();
    let mut i: usize = 0;
    assert(text@.skip(0) =~= text@);
    assert(views(out@) =~= Seq::<Seq<u8>>::empty());
    while i < text.len()
        invariant
            0 <= i <= text@.len(),
            views(out@) + lines_from(text@.skip(i as int), cur@) == lines(text@),
        decreases text@.len() - i,
    {
        let b = text[i];
        let ghost s = text@.skip(i as int);
        assert(s[0] == b);
        assert(s.drop_first() =~= text@.skip(i + 1));
        if b == 10u8 {
            let ghost o = views(out@);
            let ghost c = cur@;
            let w = cur;
            out.push(w);
            assert(views(out@) =~= o + seq![c]);
            cur = Vec::new();
            assert(cur@ =~= Seq::<u8>::empty());
        } else {
            cur.push(b);
        }
        i = i + 1;
    }
    let ghost o = views(out@);
    let ghost c = cur@;
    assert(text@.skip(i as int) =~= Seq::<u8>::empty());
    out.push(cur);
    assert(views(out@) =~= o + seq![c]);
    out
}

fn is_blank_byte(b: u8) -> (r: bool)
    ensures
        r == is_blank(b),
{
    b == 32 || b == 9 || b == 13
}

fn mark_of(b: u8) -> (r: Option<Tok>)
    ensures
        is_mark(b) ==> (r matches Some(t) && t@ == mark_tok(b)),
        !is_mark(b) ==> r is None,
{
    if b == 61 {
        Some(Tok::Eq)
    } else if b == 44 {
        Some(Tok::Comma)
    } else if b == 40 {
        Some(Tok::Open)
    } else if b == 41 {
        Some(Tok::Close)
    } else if b == 60 {
        Some(Tok::Lt)
    } else if b == 62 {
        Some(Tok::Gt)
    } else {
        None
    }
}

proof fn lemma_toks_push(v: Seq<Tok>, t: Tok)
    ensures
        toks_view(v.push(t)) == toks_view(v).push(t@),
{
    assert(toks_view(v.push(t)) =~= toks_view(v).push(t@));
}

/// Splits a line into tokens.
pub fn tokenize_line(line: &[u8]) -> (r: Vec<Tok>)
    ensures
        toks_view(r@) == line_tokens(line@),
{
    let mut out: Vec<Tok> = Vec::new();
    let mut cur: Vec<u8> = Vec::new();
    let mut i: usize = 0;
    assert(line@.skip(0) =~= line@);
    assert(toks_view(out@) =~= Seq::<TokV>::empty());
    while i < line.len()
        invariant
            0 <= i <= line@.len(),
            toks_view(out@) + line_tokens_from(line@.skip(i as int), cur@) == line_tokens(line@),
        decreases line@.len() - i,
    {
        let b = line[i];
        let ghost s = line@.skip(i as int);
        assert(s[0] == b);
        assert(s.drop_first() =~= line@.skip(i + 1));
        let mark = mark_of(b);
        if is_blank_byte(b) || mark.is_some() {
            let ghost o = toks_view(out@);
            let ghost c = cur@;
            if cur.len() > 0 {
                let w = Tok::Word(cur);
                proof { lemma_toks_push(out@, w); }
                out.push(w);
                cur = Vec::new();
            } else {
                assert(flush_word(c) =~= Seq::<TokV>::empty());
            }
            assert(toks_view(out@) =~= o + flush_word(c));
            if let Some(t) = mark {
                let ghost tv = t@;
                proof { lemma_toks_push(out@, t); }
                out.push(t);
                assert(toks_view(out@) =~= o + flush_word(c) + seq![tv]);
            }
            assert(cur@ =~= Seq::<u8>::empty());
            assert(toks_view(out@) + line_tokens_from(line@.skip(i + 1), cur@) =~= o + line_tokens_from(s, c));
        } else {
            cur.push(b);
        }
        i = i + 1;
    }
    let ghost o = toks_view(out@);
    let ghost c = cur@;
    assert(line@.skip(i as int) =~= Seq::<u8>::empty());
    if cur.len() > 0 {
        let w = Tok::Word(cur);
        proof { lemma_toks_push(out@, w); }
        out.push(w);
    }
    assert(toks_view(out@) =~= o + flush_word(c));
    out
}

fn tok_is(toks: &Vec<Tok>, pos: usize, want: &Tok) -> (r: bool)
    ensures
        r == (pos < toks@.len() && toks_view(toks@)[pos as int] == want@),
{
    if pos >= toks.len() {
        return false;
    }
    assert(toks_view(toks@)[pos as int] == toks@[pos as int]@);
    match (&toks[pos], want) {
        (Tok::Word(a), Tok::Word(b)) => bytes_equal(a.as_slice(), b.as_slice()),
        (Tok::Eq, Tok::Eq) => true,
        (Tok::Comma, Tok::Comma) => true,
        (Tok::Open, Tok::Open) => true,
        (Tok::Close, Tok::Close) => true,
        (Tok::Lt, Tok::Lt) => true,
        (Tok::Gt, Tok::Gt) => true,
        _ => false,
    }
}

fn word_at(toks: &Vec<Tok>, pos: usize) -> (r: Option<Vec<u8>>)
    ensures
        match r {
            Some(w) => pos < toks@.len() && toks_view(toks@)[pos as int] == TokV::Word(w@),
            None => !(pos < toks@.len() && toks_view(toks@)[pos as int] is Word),
        },
{
    if pos >= toks.len() {
        return None;
    }
    assert(toks_view(toks@)[pos as int] == toks@[pos as int]@);
    match &toks[pos] {
        Tok::Word(w) => Some(crate::text::copy_bytes(w.as_slice())),
        _ => None,
    }
}

/// A bundle of features at `pos` (see `parse_fset`).
fn read_fset(toks: &Vec<Tok>, pos: usize) -> (r: Option<(Vec<Vec<u8>>, usize)>)
    ensures
        match parse_fset(toks_view(toks@), pos as int) {
            Some((fs, p)) => r matches Some((v, q)) && views(v@) == fs && q == p,
            None => r is None,
        },
{
    let ghost t = toks_view(toks@);
    let first = match word_at(toks, pos) {
        Some(w) => w,
        None => {
            return None;
        },
    };
    let n = toks.len();
    assert(pos < n);
    let mut acc: Vec<Vec<u8>> = Vec::new();
    acc.push(first);
    assert(views(acc@) =~= seq![t[pos as int]->Word_0]);
    let mut p: usize = pos + 1;
    while p < toks.len() - 1 && tok_is(toks, p, &Tok::Comma) && word_at(toks, p + 1).is_some()
        invariant
            t == toks_view(toks@),
            pos < p <= toks@.len(),
            fset_more(t, p as int, views(acc@)) == fset_more(t, pos + 1, seq![t[pos as int]->Word_0]),
        decreases toks@.len() - p,
    {
        let w = word_at(toks, p + 1).unwrap();
        let ghost before = views(acc@);
        acc.push(w);
        assert(views(acc@) =~= before.push(t[p + 1]->Word_0));
        p = p + 2;
    }
    Some((acc, p))
}

/// The direction at `pos`: `>` (the argument's features pass up) or `<`.
pub fn parse_project(toks: &Vec<Tok>, pos: usize) -> (r: Option<bool>)
    ensures
        r == (if pos < toks@.len() && toks_view(toks@)[pos as int] == TokV::Gt {
            Some(true)
        } else if pos < toks@.len() && toks_view(toks@)[pos as int] == TokV::Lt {
            Some(false)
        } else {
            None::<bool>
        }),
{
    if tok_is(toks, pos, &Tok::Gt) {
        Some(true)
    } else if tok_is(toks, pos, &Tok::Lt) {
        Some(false)
    } else {
        None
    }
}

/// A node at `pos`, nested at most `fuel` deep (see `parse_node`).
fn read_node(toks: &Vec<Tok>, pos: usize, fuel: usize) -> (r: Option<(NodeSyntax, usize)>)
    ensures
        match parse_node(toks_view(toks@), pos as int, fuel as nat) {
            Some((n, p)) => r matches Some((v, q)) && v@ == n && q == p,
            None => r is None,
        },
    decreases fuel,
{
    let ghost t = toks_view(toks@);
    if fuel == 0 || pos >= toks.len() {
        return None;
    }
    if tok_is(toks, pos, &Tok::Open) {
        let (l, p1) = match read_node(toks, pos + 1, fuel - 1) {
            Some(x) => x,
            None => {
                return None;
            },
        };
        let is_gt = match parse_project(toks, p1) {
            Some(b) => b,
            None => {
                return None;
            },
        };
        if p1 >= usize::MAX {
            return None;
        }
        let (r, p2) = match read_node(toks, p1 + 1, fuel - 1) {
            Some(x) => x,
            None => {
                return None;
            },
        };
        if !tok_is(toks, p2, &Tok::Close) {
            return None;
        }
        let ghost lv = l@;
        let ghost rv = r@;
        let n = NodeSyntax::Lambda(Box::new(l), Box::new(r), is_gt);
        assert(n@ == NodeAst::Lambda(Box::new(lv), Box::new(rv), is_gt));
        return Some((n, p2 + 1));
    }
    let moved: Vec<u8> = crate::text::str_bytes("MOVED");
    if pos + 1 < toks.len() && tok_is(toks, pos, &Tok::Word(moved)) && tok_is(toks, pos + 1, &Tok::Open) {
        let (fs, p) = match read_fset(toks, pos + 2) {
            Some(x) => x,
            None => {
                return None;
            },
        };
        if !tok_is(toks, p, &Tok::Close) {
            return None;
        }
        return Some((NodeSyntax::Moved(fs), p + 1));
    }
    match read_fset(toks, pos) {
        Some((fs, p)) => Some((NodeSyntax::Features(fs), p)),
        None => None,
    }
}

fn read_node_to_end(toks: &Vec<Tok>, pos: usize) -> (r: Option<NodeSyntax>)
    ensures
        match parse_node_to_end(toks_view(toks@), pos as int) {
            Some(n) => r matches Some(v) && v@ == n,
            None => r is None,
        },
{
    match read_node(toks, pos, toks.len()) {
        Some((n, p)) => if p == toks.len() {
            Some(n)
        } else {
            None
        },
        None => None,
    }
}

fn read_feature_line(toks: &Vec<Tok>) -> (r: Option<(Vec<u8>, Vec<Vec<u8>>)>)
    ensures
        match parse_feature_line(toks_view(toks@)) {
            Some((c, vs)) => r matches Some((a, b)) && a@ == c && views(b@) == vs,
            None => r is None,
        },
{
    if toks.len() < 3 || !tok_is(toks, 1, &Tok::Eq) {
        return None;
    }
    let c = match word_at(toks, 0) {
        Some(w) => w,
        None => {
            return None;
        },
    };
    match read_fset(toks, 2) {
        Some((vals, p)) => if p == toks.len() {
            Some((c, vals))
        } else {
            None
        },
        None => None,
    }
}

fn read_functional_line(toks: &Vec<Tok>) -> (r: Option<(Vec<Vec<u8>>, NodeSyntax)>)
    ensures
        match parse_functional_line(toks_view(toks@)) {
            Some((fs, n)) => r matches Some((a, b)) && views(a@) == fs && b@ == n,
            None => r is None,
        },
{
    let (fs, p) = match read_fset(toks, 0) {
        Some(x) => x,
        None => {
            return None;
        },
    };
    if !tok_is(toks, p, &Tok::Eq) {
        return None;
    }
    let n = toks.len();
    assert(p < n);
    match read_node_to_end(toks, p + 1) {
        Some(n) => Some((fs, n)),
        None => None,
    }
}

fn read_lexical_line(toks: &Vec<Tok>) -> (r: Option<(Vec<u8>, NodeSyntax)>)
    ensures
        match parse_lexical_line(toks_view(toks@)) {
            Some((w, n)) => r matches Some((a, b)) && a@ == w && b@ == n,
            None => r is None,
        },
{
    if toks.len() < 2 || !tok_is(toks, 1, &Tok::Eq) {
        return None;
    }
    let w = match word_at(toks, 0) {
        Some(w) => w,
        None => {
            return None;
        },
    };
    match read_node_to_end(toks, 2) {
        Some(n) => Some((w, n)),
        None => None,
    }
}

/// Reads a lexicon file into its entries, as written (see `read_file`); an error is
/// the number of the first line in error.
pub fn read_lexicon_text(text: &[u8]) -> (r: Result<LexiconSyntax, usize>)
    ensures
        match read_file(text@) {
            Ok(f) => r matches Ok(s) && s@ == f,
            Err(n) => r matches Err(m) && m as nat == n,
        },
{
    let ls = split_lines(text);
    let ghost lsv = views(ls@);
    let mut out = LexiconSyntax { features: Vec::new(), functional: Vec::new(), lexical: Vec::new() };
    assert(out@ == empty_file()) by {
        assert(out@.features =~= Seq::<(Seq<u8>, Seq<Seq<u8>>)>::empty());
        assert(out@.functional =~= Seq::<(Seq<Seq<u8>>, NodeAst)>::empty());
        assert(out@.lexical =~= Seq::<(Seq<u8>, NodeAst)>::empty());
    }
    let h1 = crate::text::str_bytes("[Features]");
    let h2 = crate::text::str_bytes("[Functional]");
    let h3 = crate::text::str_bytes("[Lexical]");
    let mut state: usize = 0;
    let mut i: usize = 0;
    while i < ls.len()
        invariant
            lsv == views(ls@),
            lsv == lines(text@),
            0 <= i <= ls@.len(),
            state <= 3,
            h1@ == header(1),
            h2@ == header(2),
            h3@ == header(3),
            read_lines(lsv, i as int, state as nat, out@) == read_file(text@),
        decreases ls@.len() - i,
    {
        let line = &ls[i];
        assert(lsv[i as int] == line@);
        let l = trim_bytes(line.as_slice());
        if l.len() == 0 {
            i = i + 1;
            continue;
        }
        let is1 = bytes_equal(l.as_slice(), h1.as_slice());
        let is2 = bytes_equal(l.as_slice(), h2.as_slice());
        let is3 = bytes_equal(l.as_slice(), h3.as_slice());
        if is1 || is2 || is3 {
            let next_ok = (state == 0 && is1) || (state == 1 && is2) || (state == 2 && is3);
            if !next_ok {
                return Err(i + 1);
            }
            state = state + 1;
            i = i + 1;
            continue;
        }
        let toks = tokenize_line(line.as_slice());
        if state == 1 {
            match read_feature_line(&toks) {
                Some(e) => {
                    let ghost ev = (e.0@, views(e.1@));
                    let ghost before = out@;
                    out.features.push(e);
                    assert(out@.features =~= before.features.push(ev));
                    assert(out@ == FileAst { features: before.features.push(ev), ..before });
                },
                None => {
                    return Err(i + 1);
                },
            }
        } else if state == 2 {
            match read_functional_line(&toks) {
                Some(e) => {
                    let ghost ev = (views(e.0@), e.1@);
                    let ghost before = out@;
                    out.functional.push(e);
                    assert(out@.functional =~= before.functional.push(ev));
                    assert(out@ == FileAst { functional: before.functional.push(ev), ..before });
                },
                None => {
                    return Err(i + 1);
                },
            }
        } else if state == 3 {
            match read_lexical_line(&toks) {
                Some(e) => {
                    let ghost ev = (e.0@, e.1@);
                    let ghost before = out@;
                    out.lexical.push(e);
                    assert(out@.lexical =~= before.lexical.push(ev));
                    assert(out@ == FileAst { lexical: before.lexical.push(ev), ..before });
                },
                None => {
                    return Err(i + 1);
                },
            }
        } else {
            return Err(i + 1);
        }
        i = i + 1;
    }
    if state == 3 {
        Ok(out)
    } else {
        Err(ls.len())
    }
}

} // verus!
