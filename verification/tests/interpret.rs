use langbda::cognitive::TreeModel;
use langbda::dialect::Dialect;
use langbda::interner::Interner;
use langbda::interpreter::derivation::build_derivation_artifact;
use langbda::interpreter::follow::{follow, follow_lambda};
use langbda::interpreter::interpret::interpret;
use langbda::interpreter::Action;
use langbda::lexicon::parser::PestLexiconParser;
use langbda::lexicon::{LexiconNode, SimpleLexicon};
use langbda::syntax::{FeatureSet, SyntaxValue};

fn dialect_from(text: &str) -> Dialect {
    let mut lexicon = SimpleLexicon::new();
    let mut names = Interner::new();
    PestLexiconParser::parse_str(&mut lexicon, &mut names, text).unwrap();
    Dialect::new("Test", lexicon, names)
}

#[test]
fn cyclic_functional_rules_terminate_with_memoization() {
    let mut names = Interner::new();
    let mut lexicon = SimpleLexicon::new();
    let s = FeatureSet::from_category(names.intern_str("S"));
    let a = FeatureSet::from_category(names.intern_str("A"));
    let b = FeatureSet::from_category(names.intern_str("B"));
    lexicon.add_entry(
        SyntaxValue::Features(s.duplicate()),
        LexiconNode::Value { value: SyntaxValue::Features(a.duplicate()) },
    );
    lexicon.add_entry(
        SyntaxValue::Features(a.duplicate()),
        LexiconNode::Value { value: SyntaxValue::Features(b.duplicate()) },
    );
    lexicon.add_entry(SyntaxValue::Features(b), LexiconNode::Value { value: SyntaxValue::Features(a.duplicate()) });
    lexicon.add_entry(SyntaxValue::Item(names.intern_str("word")), LexiconNode::Value { value: SyntaxValue::Features(a) });
    let dialect = Dialect::new("CyclicDialect", lexicon, names);
    let _ = interpret(&dialect, "word", "S").unwrap();
}

#[test]
fn a_word_of_the_target_category_has_one_parse() {
    let dialect = dialect_from("[Features]\n[Functional]\n[Lexical]\nword=S\n");
    let parses = interpret(&dialect, "word", "S").unwrap();
    assert_eq!(parses.len(), 1);
    let word = dialect.interner().lookup_str("word").unwrap();
    assert_eq!(parses[0][0], Action::AddToken(word));
    assert_eq!(parses[0].len(), 2);
}

#[test]
fn unknown_target_has_no_parse() {
    let dialect = dialect_from("[Features]\n[Functional]\n[Lexical]\nword=S\n");
    assert!(interpret(&dialect, "word", "Nothing").unwrap().is_empty());
    assert!(interpret(&dialect, "other", "S").unwrap().is_empty());
    assert!(interpret(&dialect, "word word", "S").unwrap().is_empty());
}

#[test]
fn a_function_word_takes_its_argument() {
    let dialect = dialect_from("[Features]\n[Functional]\n[Lexical]\nthe=(N > DP)\nchild=N\n");
    let parses = interpret(&dialect, "the child", "DP").unwrap();
    assert_eq!(parses.len(), 1);
    assert!(interpret(&dialect, "the", "DP").unwrap().is_empty());
}

#[test]
fn derivation_artifact_records_the_replay() {
    let dialect = dialect_from("[Features]\n[Functional]\n[Lexical]\nword=S\n");
    let parses = interpret(&dialect, "word", "S").unwrap();
    let artifact = build_derivation_artifact(dialect.interner(), "word", "S", 1, &parses[0]).unwrap();
    assert_eq!(artifact.sentence, "word");
    assert_eq!(artifact.target, "S");
    assert_eq!(artifact.parse_index, 1);
    assert_eq!(artifact.tokens, vec!["word".to_string()]);
    assert!(artifact.well_formed);
    assert_eq!(artifact.well_formed, artifact.unresolved_chains.is_empty());
    assert_eq!(artifact.derivation_steps.len(), 2);
    assert_eq!(artifact.derivation_steps[0].step, 1);
    assert_eq!(artifact.derivation_steps[0].operation, "merge");
    assert_eq!(artifact.derivation_steps[0].detail, "token word");
    assert_eq!(artifact.derivation_steps[1].step, 2);
    assert_eq!(artifact.derivation_steps[1].detail, "entry S");
    assert!(artifact.chain_events.is_empty());
}

#[test]
fn replaying_a_parse_on_models() {
    let dialect = dialect_from("[Features]\n[Functional]\n[Lexical]\nthe=(N > DP)\nchild=N\n");
    let parses = interpret(&dialect, "the child", "DP").unwrap();
    let model = follow_lambda(dialect.interner(), "DP", &parses[0]).unwrap();
    assert!(model.understood());
    let mut tree: TreeModel = follow(dialect.interner(), "DP", &parses[0]).unwrap();
    assert!(tree.understood());
    tree.prune().unwrap();
    let the = dialect.interner().lookup_str("the").unwrap();
    let child = dialect.interner().lookup_str("child").unwrap();
    assert_eq!(tree.surface_items().unwrap(), vec![the, child]);
    let graph = tree.to_dot_graph(dialect.interner()).unwrap();
    assert!(graph.starts_with("digraph {{\n"));
    assert!(graph.ends_with("}}"));
    assert!(graph.contains("label=\"the\", color=lightgreen"));
}

#[test]
fn a_rule_given_twice_gives_one_parse() {
    let dialect = dialect_from("[Features]\n[Functional]\n[Lexical]\nword=S\nword=S\n");
    let parses = interpret(&dialect, "word", "S").unwrap();
    assert_eq!(parses.len(), 1);
}

#[test]
fn parses_never_repeat() {
    let dialect = dialect_from("[Features]\n[Functional]\n[Lexical]\nthe=(N > DP)\nchild=N\nchild=DP\n");
    let parses = interpret(&dialect, "the child", "DP").unwrap();
    for i in 0..parses.len() {
        for j in (i + 1)..parses.len() {
            assert_ne!(parses[i], parses[j]);
        }
    }
}
