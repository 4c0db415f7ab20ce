use langbda::cognitive::lambda::Node;
use langbda::cognitive::tree::graph::decorate_with_chain;
use langbda::interner::Interner;
use langbda::lexicon::{LexiconEntry, LexiconNode};
use langbda::syntax::{FeatureSet, SyntaxValue};

fn features(names: &mut Interner, cats: &[&str]) -> FeatureSet {
    let mut fs = FeatureSet::new();
    for c in cats {
        fs.insert(names.intern_str(c), None);
    }
    fs
}

#[test]
fn values_render_as_words_or_features() {
    let mut names = Interner::new();
    let w = names.intern_str("apple");
    assert_eq!(SyntaxValue::Item(w).to_text(&names), "apple");
    let fs = features(&mut names, &["DP", "CP"]);
    assert_eq!(SyntaxValue::Features(fs).to_text(&names), "CP--DP");
    assert_eq!(SyntaxValue::Item(99).to_text(&names), "?");
}

#[test]
fn lexicon_nodes_render_in_file_notation() {
    let mut names = Interner::new();
    let n = features(&mut names, &["N"]);
    let dp = features(&mut names, &["DP"]);
    let up = LexiconNode::Lambda {
        from: Box::new(LexiconNode::Value { value: SyntaxValue::Features(n.duplicate()) }),
        to: Box::new(LexiconNode::Value { value: SyntaxValue::Features(dp.duplicate()) }),
        project: true,
    };
    assert_eq!(up.to_text(&names), "(N > DP)");
    let down = LexiconNode::Lambda {
        from: Box::new(LexiconNode::Moved { from: n.duplicate() }),
        to: Box::new(LexiconNode::Value { value: SyntaxValue::Features(dp.duplicate()) }),
        project: false,
    };
    assert_eq!(down.to_text(&names), "(MOVED(N) < DP)");
    assert_eq!(down.count_moved(), 1);
    assert_eq!(up.count_moved(), 0);
    let entry = LexiconEntry::Functional { to: down, project: Some(dp) };
    assert_eq!(entry.to_text(&names), "(MOVED(N) < DP)");
}

#[test]
fn expectations_render_with_lambda_and_projection_marks() {
    let mut names = Interner::new();
    let n = features(&mut names, &["N"]);
    let dp = features(&mut names, &["DP"]);
    let node = Node::Lambda { from: SyntaxValue::Features(n.duplicate()), to: Box::new(Node::from_features(dp)) };
    assert_eq!(node.to_text(&names), "λ(N -> DP)");
    let marker = Node::Projection { ignore: n };
    assert_eq!(marker.to_text(&names), ">>(ignore: N)");
}

#[test]
fn dot_attributes_label_and_colour_values() {
    let mut names = Interner::new();
    let w = names.intern_str("apple");
    assert_eq!(SyntaxValue::Item(w).to_dot_attr(&names), "label=\"apple\", color=lightgreen");
    let mut fs = FeatureSet::new();
    let b = names.intern_str("b");
    fs.insert(names.intern_str("a"), Some(b));
    fs.insert(names.intern_str("c"), None);
    assert_eq!(SyntaxValue::Features(fs).to_dot_attr(&names), "label=\"a:b\nc\", color=lightblue");
}

#[test]
fn chain_marker_goes_at_the_end_of_the_label() {
    let attr = b"label=\"apple\", color=lightgreen".to_vec();
    assert_eq!(decorate_with_chain(attr.clone(), None), attr);
    assert_eq!(decorate_with_chain(attr, Some(3)), b"label=\"apple\\nCH3\", color=lightgreen".to_vec());
    let no_label = b"color=red".to_vec();
    assert_eq!(decorate_with_chain(no_label.clone(), Some(3)), no_label);
}
