# langbda

An incremental parser that models a listener who receives a stream of words and
builds syntactic interpretations, with movement chains in the style of Minimalist
Grammar. The library is written in Verus: its operations carry contracts, and the
properties below are proved.

## Layout

- `src/syntax`: feature sets (finite maps from categories to optional values) and
  syntax values, with their text forms.
- `src/interner.rs`: the table of words; every symbol is an integer key.
- `src/tokenizer.rs`: splitting text into words and marks.
- `src/lexicon`: lexicon nodes and entries, the lexicon, and the reader of lexicon
  files (`lexicon/parser`).
- `src/cognitive/lambda`: the lambda model of the listener (a stack of
  expectations), with movement chains and the derivation log.
- `src/cognitive/tree`: the tree model (an arena tree grown at two cursors), its
  pruning, its surface words and its drawing in the dot language.
- `src/interpreter`: the memoized search for derivations, their replay on a model,
  and the derivation record.
- `app/main.rs`: the command line: it reads the English lexicon from
  `assets/lexicons/en.lexicon`, interprets sentences, draws trees with graphviz and
  writes derivation records as JSON.

## Lexicon files

A lexicon file has three sections, in this order, each opened by its header on a
line of its own: `[Features]`, `[Functional]`, `[Lexical]`. Blank lines are
ignored; every other line is one entry of the current section.

- `category=value,value,...` declares the values of a feature category.
- `features=node` (functional) and `word=node` (lexical) add rules.
- A node is a bundle of features `a,b,...`, a moved bundle `MOVED(a,b,...)`, or a
  function `(from > to)` or `(from < to)`, where `>` says that the argument's
  features pass up.

In a bundle, a category stands for each of its values in turn, a value stands for
itself under its category, and any other word is a category without a value; a
category named twice in one entry takes one value.

## Proved properties

Among others: every derivation that the search returns is a derivation of the
input from the target, and no derivation comes twice where the lexicon answers each
value with distinct entries (as a lexicon built rule by rule does); when the search
succeeds and no loop of actions can be reached from the start, it returns every
derivation; the derivations come in the order the search tries them (a word taken
in before an entry applied, entries in the order of the lexicon's rules); it gives up
only where a run of `usize::MAX - 1` actions passing no state twice exists; each derivation replays without error and ends with nothing expected;
a moved constituent opens exactly one movement chain, features that satisfy a
pending chain discharge exactly one, and a discharged chain is never reopened;
chain ids increase in the order of introduction; the tree operations never remove
a node and keep each node's id equal to its place in the arena; a rule added to the
lexicon answers its own key, and adding it twice changes nothing; listing a feature
set and inserting the entries again rebuilds it; every model built from a new one
numbers its chains 1, 2, ... in order, logs nothing unless traced, and a traced copy
differs from the untraced one only in its log, over any sequence of calls; a tree
started by `init` keeps node 0 as its root; the graph without movement arrows is the
graph with arrows less its dashed movement lines; a question is trimmed and split at
Unicode white space as `str::trim` and `str::split_whitespace` do.
