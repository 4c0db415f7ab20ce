use langbda::cognitive::TreeModel;
use langbda::interner::Interner;
use langbda::syntax::FeatureSet;

#[test]
fn a_new_tree_shows_its_root_and_cursors() {
    let mut names = Interner::new();
    let tree = TreeModel::init(FeatureSet::from_category(names.intern_str("S")));
    assert_eq!(tree.debug_string(&names).unwrap(), "[0] S <--UPPER_CURSOR| <--LOWER_CURSOR|(0 children)\n");
    assert_eq!(tree.to_text(&names).unwrap(), "[0] S\n");
    assert!(tree.demand());
    assert!(!tree.understood());
}

#[test]
fn a_word_becomes_the_left_child_at_the_upper_cursor() {
    let mut names = Interner::new();
    let w = names.intern_str("w");
    let mut tree = TreeModel::init(FeatureSet::from_category(names.intern_str("S")));
    tree.receive(w).unwrap();
    assert_eq!(
        tree.debug_string(&names).unwrap(),
        "[0] S <--UPPER_CURSOR|(1 children)\n    [1] w <--LOWER_CURSOR|(0 children)\n"
    );
    assert_eq!(tree.to_text(&names).unwrap(), "[0] S\n    [1] w\n");
    assert_eq!(tree.get_left(0).unwrap(), Some(1));
    assert_eq!(tree.get_right(0).unwrap(), None);
    assert_eq!(tree.surface_items().unwrap(), vec![w]);
    assert_eq!(
        tree.to_dot_graph(&names).unwrap(),
        "digraph {{\n    rankdir=TB;\n    node [shape=box, style=filled];\n    \"0\" [label=\"S\", color=lightblue];\n    \"0\" -> \"1\" [arrowhead=none];\n    \"1\" [label=\"w\", color=lightgreen];\n}}"
    );
}

#[test]
fn an_empty_tree_draws_nothing() {
    let names = Interner::new();
    let mut tree = TreeModel::init(FeatureSet::new());
    assert_eq!(tree.node_count(), 1);
    tree.prune().unwrap();
    assert_eq!(tree.surface_items().unwrap(), Vec::<u64>::new());
    assert!(tree.to_dot_graph(&names).unwrap().starts_with("digraph"));
}
