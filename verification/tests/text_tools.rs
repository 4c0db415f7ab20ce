use langbda::naming::sanitize_for_filename;
use langbda::interner::Interner;
use langbda::interpreter::normalize::normalize_english_questions_for_legacy_grammar;
use langbda::lexicon::parser::topology::FeatureTopology;
use langbda::syntax::FeatureSet;
use langbda::tokenizer::{split_words, tokenize};

fn strings(v: Vec<Vec<u8>>) -> Vec<String> {
    v.into_iter().map(|w| String::from_utf8(w).unwrap()).collect()
}

#[test]
fn tokenizer_splits_marks_from_words() {
    assert_eq!(strings(tokenize(b"Hello, world!")), vec!["Hello", ",", "world", "!"]);
    assert_eq!(strings(tokenize(b"  the child ate.")), vec!["the", "child", "ate", "."]);
    assert!(tokenize(b"   ").is_empty());
    assert_eq!(strings(split_words(b" a  b, ")), vec!["a", "b,"]);
}

#[test]
fn questions_are_rewritten_into_declarative_order() {
    let yes_no = normalize_english_questions_for_legacy_grammar(b"did the child eat an apple?").unwrap();
    assert_eq!(String::from_utf8(yes_no).unwrap(), "the child did an apple?");
    let wh = normalize_english_questions_for_legacy_grammar(b"whose apple did the child eat?").unwrap();
    assert_eq!(String::from_utf8(wh).unwrap(), "the child did whose apple?");
    assert!(normalize_english_questions_for_legacy_grammar(b"the child ate an apple.").is_none());
    assert!(normalize_english_questions_for_legacy_grammar(b"did child the eat an apple?").is_none());
    assert!(normalize_english_questions_for_legacy_grammar(b"?").is_none());
}

#[test]
fn interning_gives_one_key_per_word() {
    let mut names = Interner::new();
    let a = names.intern_str("alpha");
    let b = names.intern_str("beta");
    assert_ne!(a, b);
    assert_eq!(names.intern_str("alpha"), a);
    assert_eq!(names.len(), 2);
    assert_eq!(names.lookup_str("beta"), Some(b));
    assert_eq!(names.lookup_str("gamma"), None);
    assert_eq!(names.resolve(a).unwrap().as_slice(), b"alpha");
    assert!(names.resolve(7).is_none());
    assert_eq!(names.key_or_next(b"gamma"), 2);
}

#[test]
fn topology_maps_categories_and_values() {
    let mut ft = FeatureTopology::new();
    ft.insert(1, 10);
    ft.insert(1, 11);
    ft.insert(1, 10);
    ft.insert(2, 20);
    assert!(ft.is_category(&1));
    assert!(!ft.is_category(&10));
    assert_eq!(ft.get_from_category(&1), Some(vec![10, 11]));
    assert_eq!(ft.get_from_category(&3), None);
    assert_eq!(ft.get_from_value(&20), Some(2));
    assert_eq!(ft.get_from_value(&1), None);
}

#[test]
fn listing_a_feature_set_rebuilds_it() {
    let mut fs = FeatureSet::new();
    fs.insert(5, Some(6));
    fs.insert(1, None);
    let entries = fs.entries();
    assert_eq!(entries, vec![(1, None), (5, Some(6))]);
    assert_eq!(FeatureSet::from_entries(entries), fs);
    assert_eq!(FeatureSet::from_entries(vec![(1, None), (1, Some(2))]).get(&1), Some(&Some(2)));
}

#[test]
fn walking_a_feature_set_hands_out_entries_in_order() {
    let mut fs = FeatureSet::new();
    fs.insert(9, Some(2));
    fs.insert(4, None);
    let mut walk = fs.iter();
    assert_eq!(walk.next(), Some((4, None)));
    assert_eq!(walk.next(), Some((9, Some(2))));
    assert_eq!(walk.next(), None);
    assert_eq!(walk.next(), None);
}

#[test]
fn a_default_feature_set_is_empty() {
    let fs = FeatureSet::default();
    assert_eq!(fs, FeatureSet::new());
    assert_eq!(fs.entries(), vec![]);
}

#[test]
fn questions_are_trimmed_and_split_at_unicode_white_space() {
    let form_feed = normalize_english_questions_for_legacy_grammar("did the child eat an apple?\u{c}".as_bytes()).unwrap();
    assert_eq!(String::from_utf8(form_feed).unwrap(), "the child did an apple?");
    let wide = normalize_english_questions_for_legacy_grammar("\u{3000}did\u{a0}the child\u{2003}eat an apple\u{85}?".as_bytes()).unwrap();
    assert_eq!(String::from_utf8(wide).unwrap(), "the child did an apple?");
    let vertical = normalize_english_questions_for_legacy_grammar("whose apple did the child eat\u{b}?".as_bytes()).unwrap();
    assert_eq!(String::from_utf8(vertical).unwrap(), "the child did whose apple?");
}

#[test]
fn file_names_keep_only_ascii_letters_and_digits() {
    assert_eq!(sanitize_for_filename("did the child eat an apple?"), "did-the-child-eat-an-apple-");
    assert_eq!(sanitize_for_filename("Café au lait"), "Caf--au-lait");
    assert_eq!(sanitize_for_filename(""), "");
}
