use langbda::cognitive::lambda::ValidEntry;
use langbda::interner::Interner;
use langbda::lexicon::LexiconNode;
use langbda::syntax::{FeatureSet, SyntaxValue};

#[test]
fn moved_is_preserved_as_moved_entry() {
    let mut names = Interner::new();
    let mut fs = FeatureSet::new();
    fs.insert(names.intern_str("xp"), None);
    let obj = names.intern_str("obj");
    fs.insert(names.intern_str("case"), Some(obj));

    let moved = LexiconNode::Moved { from: fs.duplicate() };
    let valid = ValidEntry::try_from(moved).unwrap();
    match valid {
        ValidEntry::Moved { from: parsed } => assert_eq!(parsed, fs),
        ValidEntry::Features(_) => panic!("MOVED should not flatten to plain features"),
        ValidEntry::Lambda { .. } => panic!("MOVED should remain moved"),
    }
}

#[test]
fn lambda_with_moved_target_is_accepted_as_feature_target() {
    let mut names = Interner::new();
    let mut left = FeatureSet::new();
    left.insert(names.intern_str("v"), None);

    let mut right = FeatureSet::new();
    let obj = names.intern_str("obj");
    right.insert(names.intern_str("dp"), Some(obj));

    let node = LexiconNode::Lambda {
        from: Box::new(LexiconNode::Value { value: SyntaxValue::Features(left.duplicate()) }),
        to: Box::new(LexiconNode::Moved { from: right.duplicate() }),
        project: false,
    };

    let valid = ValidEntry::try_from(node).unwrap();
    match valid {
        ValidEntry::Lambda { from, to, project } => {
            assert!(!project);
            assert_eq!(to, right);
            match *from {
                ValidEntry::Features(fs) => assert_eq!(fs, left),
                ValidEntry::Moved { .. } => panic!("left side should not become MOVED"),
                ValidEntry::Lambda { .. } => panic!("left side should stay feature-based"),
            }
        }
        ValidEntry::Features(_) => panic!("expected lambda entry"),
        ValidEntry::Moved { .. } => panic!("expected lambda entry"),
    }
}

#[test]
fn word_value_is_not_a_valid_entry() {
    let mut names = Interner::new();
    let node = LexiconNode::Value { value: SyntaxValue::Item(names.intern_str("word")) };
    assert!(ValidEntry::try_from(node).is_err());
}
