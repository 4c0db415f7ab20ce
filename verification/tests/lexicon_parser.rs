use langbda::interner::Interner;
use langbda::lexicon::parser::PestLexiconParser;
use langbda::lexicon::{LexiconEntry, LexiconNode, SimpleLexicon};
use langbda::syntax::{FeatureSet, SyntaxValue};

#[test]
fn category_feature_in_lexical_entry_expands_to_finite_values() {
    let mut lexicon = SimpleLexicon::new();
    let mut names = Interner::new();
    let input = "[Features]\nnumber=sg,pl\n\n[Functional]\n\n[Lexical]\nword=number\n";

    PestLexiconParser::parse_str(&mut lexicon, &mut names, input).unwrap();
    let word = names.lookup_str("word").unwrap();
    let entries = lexicon.get_entries(&SyntaxValue::Item(word));

    let number = names.lookup_str("number").unwrap();
    let sg = names.lookup_str("sg").unwrap();
    let pl = names.lookup_str("pl").unwrap();
    let mut number_sg = FeatureSet::new();
    number_sg.insert(number, Some(sg));
    let mut number_pl = FeatureSet::new();
    number_pl.insert(number, Some(pl));
    let expected = vec![
        LexiconEntry::Lexical(LexiconNode::Value { value: SyntaxValue::Features(number_sg) }),
        LexiconEntry::Lexical(LexiconNode::Value { value: SyntaxValue::Features(number_pl) }),
    ];

    assert_eq!(entries, expected);
}

#[test]
fn category_feature_in_functional_entry_expands_to_finite_values() {
    let mut lexicon = SimpleLexicon::new();
    let mut names = Interner::new();
    let input = "[Features]\nnumber=sg,pl\n\n[Functional]\nS=number\n\n[Lexical]\n";

    PestLexiconParser::parse_str(&mut lexicon, &mut names, input).unwrap();

    let s = names.lookup_str("S").unwrap();
    let mut from = FeatureSet::new();
    from.insert(s, None);
    let entries = lexicon.get_entries(&SyntaxValue::Features(from.duplicate()));

    let number = names.lookup_str("number").unwrap();
    let sg = names.lookup_str("sg").unwrap();
    let pl = names.lookup_str("pl").unwrap();
    let mut number_sg = FeatureSet::new();
    number_sg.insert(number, Some(sg));
    let mut number_pl = FeatureSet::new();
    number_pl.insert(number, Some(pl));
    let expected = vec![
        LexiconEntry::Functional {
            to: LexiconNode::Value { value: SyntaxValue::Features(number_sg) },
            project: Some(from.duplicate()),
        },
        LexiconEntry::Functional {
            to: LexiconNode::Value { value: SyntaxValue::Features(number_pl) },
            project: Some(from),
        },
    ];

    assert_eq!(entries, expected);
}

#[test]
fn a_category_named_twice_takes_one_value() {
    let mut lexicon = SimpleLexicon::new();
    let mut names = Interner::new();
    let input = "[Features]\nnumber=sg,pl\n[Functional]\n[Lexical]\nw=(number < number)\n";
    PestLexiconParser::parse_str(&mut lexicon, &mut names, input).unwrap();
    let w = names.lookup_str("w").unwrap();
    let entries = lexicon.get_entries(&SyntaxValue::Item(w));
    assert_eq!(entries.len(), 2);
    for entry in entries {
        match entry {
            LexiconEntry::Lexical(LexiconNode::Lambda { from, to, project }) => {
                assert!(!project);
                assert_eq!(from, to);
            }
            other => panic!("unexpected entry {other:?}"),
        }
    }
}

#[test]
fn a_value_reads_as_its_category_and_moved_stays_moved() {
    let mut lexicon = SimpleLexicon::new();
    let mut names = Interner::new();
    let input = "[Features]\ncase=nom,obj\n[Functional]\n[Lexical]\nwhom=MOVED(DP,obj)\n";
    PestLexiconParser::parse_str(&mut lexicon, &mut names, input).unwrap();
    let whom = names.lookup_str("whom").unwrap();
    let entries = lexicon.get_entries(&SyntaxValue::Item(whom));
    let mut expected_fs = FeatureSet::new();
    expected_fs.insert(names.lookup_str("DP").unwrap(), None);
    expected_fs.insert(names.lookup_str("case").unwrap(), Some(names.lookup_str("obj").unwrap()));
    assert_eq!(entries, vec![LexiconEntry::Lexical(LexiconNode::Moved { from: expected_fs })]);
}

#[test]
fn syntax_errors_name_the_line_and_change_nothing() {
    let mut lexicon = SimpleLexicon::new();
    let mut names = Interner::new();
    let err = PestLexiconParser::parse_str(&mut lexicon, &mut names, "[Features]\n[Functional]\nS=(A >\n[Lexical]\n")
        .unwrap_err();
    assert_eq!(err, "syntax error on line 3");
    assert_eq!(names.len(), 0);
    let err = PestLexiconParser::parse_str(&mut lexicon, &mut names, "[Lexical]\nw=A\n").unwrap_err();
    assert_eq!(err, "syntax error on line 1");
    let err = PestLexiconParser::parse_str(&mut lexicon, &mut names, "[Features]\n[Functional]\n").unwrap_err();
    assert_eq!(err, "syntax error on line 3");
    assert_eq!(names.len(), 0);
}

#[test]
fn entries_added_twice_are_kept_once() {
    let mut lexicon = SimpleLexicon::new();
    let mut names = Interner::new();
    let input = "[Features]\n[Functional]\n[Lexical]\nw=A\nw=A\n";
    PestLexiconParser::parse_str(&mut lexicon, &mut names, input).unwrap();
    let w = names.lookup_str("w").unwrap();
    assert_eq!(lexicon.get_entries(&SyntaxValue::Item(w)).len(), 1);
    assert_eq!(names.len(), 2);
}
