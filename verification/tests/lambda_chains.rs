use langbda::cognitive::lambda::{Node, ValidEntry};
use langbda::cognitive::LambdaModel;
use langbda::interner::Interner;
use langbda::syntax::FeatureSet;

fn moved_model(names: &mut Interner) -> LambdaModel {
    let mut model = LambdaModel::new();
    let mut moved = FeatureSet::new();
    moved.insert(names.intern_str("aux"), None);
    let mut target = FeatureSet::new();
    target.insert(names.intern_str("tp"), None);
    let inserted = model
        .push_lexicon_lambda(ValidEntry::Moved { from: moved.duplicate() }, Node::from_features(target))
        .unwrap();
    assert!(inserted);
    model
}

#[test]
fn moved_entry_introduces_pending_chain() {
    let mut names = Interner::new();
    let model = moved_model(&mut names);
    assert_eq!(model.pending_chain_count(), 1);
}

#[test]
fn compatible_features_discharge_one_pending_chain() {
    let mut names = Interner::new();
    let mut model = moved_model(&mut names);
    assert_eq!(model.pending_chain_count(), 1);

    let mut provided = FeatureSet::new();
    provided.insert(names.intern_str("aux"), None);
    let past = names.intern_str("past");
    provided.insert(names.intern_str("tense"), Some(past));
    let mut onto = FeatureSet::new();
    onto.insert(names.intern_str("aux"), None);
    let _ = model.push_lambda_features(provided, onto).unwrap();

    assert_eq!(model.pending_chain_count(), 0);
}

#[test]
fn incompatible_features_do_not_discharge_chain() {
    let mut names = Interner::new();
    let mut model = moved_model(&mut names);
    assert_eq!(model.pending_chain_count(), 1);

    let obj = names.intern_str("obj");
    let mut provided = FeatureSet::new();
    provided.insert(names.intern_str("case"), Some(obj));
    let mut onto = FeatureSet::new();
    onto.insert(names.intern_str("case"), Some(obj));
    let _ = model.push_lambda_features(provided, onto).unwrap();

    assert_eq!(model.pending_chain_count(), 1);
}

#[test]
fn chain_discharge_is_one_time() {
    let mut names = Interner::new();
    let mut model = LambdaModel::new();
    model.enable_trace();
    let mut moved = FeatureSet::new();
    moved.insert(names.intern_str("aux"), None);
    let mut target = FeatureSet::new();
    target.insert(names.intern_str("tp"), None);
    model
        .push_lexicon_lambda(ValidEntry::Moved { from: moved.duplicate() }, Node::from_features(target))
        .unwrap();
    assert_eq!(model.pending_chain_count(), 1);

    let mut provided = FeatureSet::new();
    provided.insert(names.intern_str("aux"), None);
    let mut onto = FeatureSet::new();
    onto.insert(names.intern_str("aux"), None);
    let _ = model.push_lambda_features(provided.duplicate(), onto.duplicate()).unwrap();
    let _ = model.push_lambda_features(provided, onto).unwrap();

    let chains = model.chain_lifecycle_records(&names);
    let discharged = chains.iter().filter(|chain| chain.status == "discharged").count();
    assert_eq!(discharged, 1);
}

#[test]
fn chain_records_describe_introduction_and_discharge() {
    let mut names = Interner::new();
    let mut model = LambdaModel::new();
    model.enable_trace();
    let mut moved = FeatureSet::new();
    moved.insert(names.intern_str("aux"), None);
    let mut target = FeatureSet::new();
    target.insert(names.intern_str("tp"), None);
    model
        .push_lexicon_lambda(ValidEntry::Moved { from: moved.duplicate() }, Node::from_features(target))
        .unwrap();
    let chains = model.chain_lifecycle_records(&names);
    assert_eq!(chains.len(), 1);
    assert_eq!(chains[0].chain_id, 1);
    assert_eq!(chains[0].requirement, "aux");
    assert_eq!(chains[0].introduced_at, 0);
    assert_eq!(chains[0].discharged_at, None);
    assert_eq!(chains[0].status, "pending");
    assert_eq!(model.unresolved_chain_requirements(&names), vec!["aux".to_string()]);

    let mut provided = FeatureSet::new();
    provided.insert(names.intern_str("aux"), None);
    let mut onto = FeatureSet::new();
    onto.insert(names.intern_str("aux"), None);
    model.push_lambda_features(provided, onto).unwrap();

    let chains = model.chain_lifecycle_records(&names);
    assert_eq!(chains[0].status, "discharged");
    assert_eq!(chains[0].discharged_at, Some(0));
    assert!(model.unresolved_chain_requirements(&names).is_empty());

    let steps = model.derivation_step_records(&names);
    assert_eq!(steps.len(), 2);
    assert_eq!(steps[0].operation, "move");
    assert_eq!(steps[0].detail, "CH1 introduced for aux");
    assert_eq!(steps[1].operation, "check");
    assert_eq!(steps[1].detail, "CH1: aux <= aux");
}

#[test]
fn unresolved_requirements_are_sorted() {
    let mut names = Interner::new();
    let mut model = LambdaModel::new();
    let tp = names.intern_str("tp");
    for word in ["zeta", "alpha"] {
        let mut moved = FeatureSet::new();
        moved.insert(names.intern_str(word), None);
        let mut target = FeatureSet::new();
        target.insert(tp, None);
        model
            .push_lexicon_lambda(ValidEntry::Moved { from: moved }, Node::from_features(target))
            .unwrap();
    }
    assert_eq!(model.pending_chain_count(), 2);
    assert_eq!(
        model.unresolved_chain_requirements(&names),
        vec!["alpha".to_string(), "zeta".to_string()]
    );
    let chains = model.chain_lifecycle_records(&names);
    assert_eq!(chains[0].chain_id, 1);
    assert_eq!(chains[1].chain_id, 2);
    assert_eq!(chains[0].requirement, "zeta");
}

#[test]
fn untraced_model_logs_nothing() {
    let mut names = Interner::new();
    let model = moved_model(&mut names);
    assert!(model.derivation_step_records(&names).is_empty());
    assert_eq!(model.chain_lifecycle_records(&names).len(), 1);
}

#[test]
fn model_text_shows_expectations_and_pending_chains() {
    let mut names = Interner::new();
    let model = moved_model(&mut names);
    assert_eq!(model.to_text(&names), "λ(aux -> tp) | pending: aux");
    let mut target = FeatureSet::new();
    target.insert(names.intern_str("S"), None);
    let plain = LambdaModel::init(target);
    assert_eq!(plain.to_text(&names), "S");
}

#[test]
fn a_traced_copy_differs_only_in_its_log() {
    let mut names = Interner::new();
    let mut plain = LambdaModel::new();
    let mut traced = LambdaModel::new();
    traced.enable_trace();
    let mut moved = FeatureSet::new();
    moved.insert(names.intern_str("aux"), None);
    let mut target = FeatureSet::new();
    target.insert(names.intern_str("tp"), None);
    let a = plain.push_lexicon_lambda(ValidEntry::Moved { from: moved.duplicate() }, Node::from_features(target.duplicate()));
    let b = traced.push_lexicon_lambda(ValidEntry::Moved { from: moved }, Node::from_features(target));
    assert_eq!(a, b);
    assert_eq!(plain.chain_lifecycle_records(&names), traced.chain_lifecycle_records(&names));
    assert_eq!(plain.unresolved_chain_requirements(&names), traced.unresolved_chain_requirements(&names));
    assert_eq!(plain.pending_chain_count(), traced.pending_chain_count());
    assert!(plain.derivation_step_records(&names).is_empty());
    assert!(!traced.derivation_step_records(&names).is_empty());
}

#[test]
fn chains_are_numbered_from_one_in_order() {
    let mut names = Interner::new();
    let model = moved_model(&mut names);
    let chains = model.chain_lifecycle_records(&names);
    assert_eq!(chains.len(), 1);
    assert_eq!(chains[0].chain_id, 1);
    assert_eq!(chains[0].status, "pending");
    assert_eq!(chains[0].discharged_at, None);
    assert_eq!(model.pending_chain_count(), model.unresolved_chain_requirements(&names).len());
}
