use langbda::error::SyntaxError;
use langbda::interner::Interner;
use langbda::syntax::FeatureSet;

#[test]
fn project_feature_set() {
    let mut names = Interner::new();
    let (a, b, c, d) = (
        names.intern_str("a"),
        names.intern_str("b"),
        names.intern_str("c"),
        names.intern_str("d"),
    );
    let mut from = FeatureSet::new();
    from.insert(a, Some(b));
    from.insert(c, Some(d));
    let mut ignore = FeatureSet::new();
    ignore.insert(c, Some(d));
    let mut onto = FeatureSet::new();

    FeatureSet::project(&from, &mut onto, &ignore).unwrap();
    let mut expected = FeatureSet::new();
    expected.insert(a, Some(b));
    assert_eq!(onto, expected);
}

#[test]
fn project_feature_set_conflict() {
    let mut names = Interner::new();
    let (a, b, c, d, e) = (
        names.intern_str("a"),
        names.intern_str("b"),
        names.intern_str("c"),
        names.intern_str("d"),
        names.intern_str("e"),
    );
    let mut from = FeatureSet::new();
    from.insert(a, Some(b));
    from.insert(c, Some(d));
    let ignore = FeatureSet::new();
    let mut onto = FeatureSet::new();
    onto.insert(c, Some(e));
    assert!(FeatureSet::project(&from, &mut onto, &ignore).is_err());
}

#[test]
fn print_feature_set() {
    let mut names = Interner::new();
    let a = names.intern_str("a");
    let b = names.intern_str("b");
    let c = names.intern_str("c");
    let d = names.intern_str("d");
    let mut feature_set = FeatureSet::new();
    feature_set.insert(a, Some(b));
    feature_set.insert(c, Some(d));
    assert_eq!(feature_set.to_text(&names), "a:b--c:d");
}

#[test]
fn text_sorts_entries_by_their_text() {
    let mut names = Interner::new();
    let z = names.intern_str("zz");
    let a = names.intern_str("aa");
    let mut fs = FeatureSet::new();
    fs.insert(z, None);
    fs.insert(a, Some(z));
    assert_eq!(fs.to_text(&names), "aa:zz--zz");
}

#[test]
fn insert_if_absent_refuses_a_present_category() {
    let mut names = Interner::new();
    let a = names.intern_str("a");
    let b = names.intern_str("b");
    let mut fs = FeatureSet::new();
    assert_eq!(fs.insert_if_absent(a, None), Ok(()));
    assert_eq!(fs.insert_if_absent(a, Some(b)), Err(SyntaxError::CategoryAlreadyHasValue));
    assert_eq!(fs.get(&a), Some(&None));
}

#[test]
fn subset_and_compatibility() {
    let mut names = Interner::new();
    let (a, b, c) = (names.intern_str("a"), names.intern_str("b"), names.intern_str("c"));
    let mut small = FeatureSet::new();
    small.insert(a, None);
    let mut big = FeatureSet::new();
    big.insert(a, Some(b));
    big.insert(c, None);
    assert!(!small.is_subset(&big));
    assert!(small.is_feature_compatible_subset(&big));
    assert!(small.overlaps_category(&big));
    let mut other = FeatureSet::new();
    other.insert(c, None);
    assert!(other.is_subset(&big));
    assert!(!other.overlaps_category(&small));
}

#[test]
fn remove_key_value_only_removes_exact_match() {
    let mut names = Interner::new();
    let (a, b, c) = (names.intern_str("a"), names.intern_str("b"), names.intern_str("c"));
    let mut fs = FeatureSet::new();
    fs.insert(a, Some(b));
    fs.remove_key_value(&a, &Some(c));
    assert!(fs.contains_key(&a));
    fs.remove_key_value(&a, &Some(b));
    assert!(!fs.contains_key(&a));
}
