use langbda::cognitive::lambda::{Node, ValidEntry};
use langbda::cognitive::{LambdaModel, TreeModel};
use langbda::dialect::Dialect;
use langbda::error::{InterpretError, LambdaError, SyntaxError, TreeError};
use langbda::interner::Interner;
use langbda::interpreter::follow::{follow, follow_lambda};
use langbda::interpreter::interpret::interpret;
use langbda::interpreter::Action;
use langbda::lexicon::parser::PestLexiconParser;
use langbda::lexicon::{LexiconEntry, LexiconNode, SimpleLexicon};
use langbda::syntax::{FeatureSet, SyntaxValue};

fn cat(names: &mut Interner, c: &str) -> FeatureSet {
    FeatureSet::from_category(names.intern_str(c))
}

#[test]
fn lambda_model_errors() {
    let mut names = Interner::new();
    let w = names.intern_str("w");
    let s = cat(&mut names, "S");

    assert_eq!(LambdaModel::new().receive(w), Err(LambdaError::NoExpectation));

    let mut m = LambdaModel::init(s.duplicate());
    let lexical = LexiconEntry::Lexical(LexiconNode::Value { value: SyntaxValue::Features(s.duplicate()) });
    assert_eq!(m.decide(lexical), Err(LambdaError::ApplyEntryToNonLambda));

    let mut m = LambdaModel::init(s.duplicate());
    m.receive(w).unwrap();
    let functional = LexiconEntry::Functional {
        to: LexiconNode::Value { value: SyntaxValue::Features(s.duplicate()) },
        project: None,
    };
    assert_eq!(m.decide(functional), Err(LambdaError::QueryAndEntryTypeMismatch));

    let mut m = LambdaModel::init(s.duplicate());
    m.receive(w).unwrap();
    let word_value = LexiconEntry::Lexical(LexiconNode::Value { value: SyntaxValue::Item(w) });
    assert_eq!(m.decide(word_value), Err(LambdaError::TypeConversion));

    let mut m = LambdaModel::new();
    let r = m.push_lexicon_lambda(ValidEntry::Features(s.duplicate()), Node::Value { value: SyntaxValue::Item(w) });
    assert_eq!(r, Err(LambdaError::LambdaToMustBeFeatures));
}

#[test]
fn projection_onto_a_clashing_category_is_a_syntax_error() {
    let mut names = Interner::new();
    let c = names.intern_str("c");
    let d = names.intern_str("d");
    let e = names.intern_str("e");
    let mut m = LambdaModel::new();
    let mut onto = FeatureSet::new();
    onto.insert(c, Some(e));
    m.push(Node::from_features(onto));
    m.push(Node::Projection { ignore: FeatureSet::new() });
    let mut from = FeatureSet::new();
    from.insert(c, Some(d));
    let r = m.push_lambda_features(from.duplicate(), from);
    assert_eq!(r, Err(LambdaError::Syntax(SyntaxError::CategoryAlreadyHasValue)));
}

#[test]
fn lambda_model_inspection() {
    let mut names = Interner::new();
    let w = names.intern_str("w");
    let s = cat(&mut names, "S");
    let mut m = LambdaModel::init(s.duplicate());
    assert!(m.demand());
    assert!(m.wonder().is_none());
    assert!(!m.understood());
    m.receive(w).unwrap();
    assert_eq!(m.wonder(), Some(&SyntaxValue::Item(w)));
    assert_eq!(m.step_count(), 1);
    let top = m.pop().unwrap();
    assert_eq!(top, Node::Lambda { from: SyntaxValue::Item(w), to: Box::new(Node::from_features(s)) });
    assert!(m.is_empty());
    assert!(m.peek().is_none());
    assert!(m.pop().is_none());
}

#[test]
fn tree_errors() {
    let mut names = Interner::new();
    let w = names.intern_str("w");
    let x = names.intern_str("x");
    let n = cat(&mut names, "N");
    let s = cat(&mut names, "S");
    let tree = TreeModel::init(s.duplicate());
    assert_eq!(tree.get_value(99).unwrap_err(), TreeError::NodeNotFound(99));

    let actions = vec![Action::ApplyEntry(LexiconEntry::Lexical(LexiconNode::Value {
        value: SyntaxValue::Features(s.duplicate()),
    }))];
    assert_eq!(follow(&names, "S", &actions).unwrap_err(), InterpretError::Tree(TreeError::NodeHasNoParent(0)));

    let nested = LexiconEntry::Lexical(LexiconNode::Lambda {
        from: Box::new(LexiconNode::Value { value: SyntaxValue::Features(n.duplicate()) }),
        to: Box::new(LexiconNode::Lambda {
            from: Box::new(LexiconNode::Value { value: SyntaxValue::Features(n.duplicate()) }),
            to: Box::new(LexiconNode::Value { value: SyntaxValue::Features(s.duplicate()) }),
            project: false,
        }),
        project: false,
    });
    let actions = vec![Action::AddToken(w), Action::ApplyEntry(nested)];
    assert_eq!(follow(&names, "S", &actions).unwrap_err(), InterpretError::Tree(TreeError::LambdaToIsNestedLambda));

    let word_argument = LexiconEntry::Lexical(LexiconNode::Lambda {
        from: Box::new(LexiconNode::Value { value: SyntaxValue::Item(x) }),
        to: Box::new(LexiconNode::Value { value: SyntaxValue::Features(s.duplicate()) }),
        project: true,
    });
    let actions = vec![Action::AddToken(w), Action::ApplyEntry(word_argument)];
    assert_eq!(follow(&names, "S", &actions).unwrap_err(), InterpretError::Tree(TreeError::NodeIsNotFeatures(3)));
}

#[test]
fn replay_errors_come_from_the_model() {
    let mut names = Interner::new();
    let s = cat(&mut names, "S");
    let actions = vec![Action::ApplyEntry(LexiconEntry::Lexical(LexiconNode::Value {
        value: SyntaxValue::Features(s),
    }))];
    assert_eq!(
        follow_lambda(&names, "S", &actions).unwrap_err(),
        InterpretError::Lambda(LambdaError::ApplyEntryToNonLambda)
    );
}

#[test]
fn a_long_text_without_a_parse_has_none() {
    let mut lexicon = SimpleLexicon::new();
    let mut names = Interner::new();
    PestLexiconParser::parse_str(&mut lexicon, &mut names, "[Features]\n[Functional]\n[Lexical]\nw=S\n").unwrap();
    let dialect = Dialect::new("Test", lexicon, names);
    let text = vec!["w"; 8].join(" ");
    assert_eq!(interpret(&dialect, &text, "S"), Ok(vec![]));
}
