use super::model::{spec_add_chain, spec_begin_step, spec_decide, spec_discharge, spec_entry_to_node, spec_log, spec_possibly_project, spec_push, spec_push_lambda_features, spec_push_lexicon_lambda, spec_receive, LambdaV, OpV};
use super::node::NodeV;
use super::valid_entry::ValidV;
use crate::lexicon::EntryV;
use crate::syntax::Key;
use vstd::prelude::*;

verus! {

/// Two models agree on their expectations.
pub open spec fn same_expects(m1: LambdaV, m2: LambdaV) -> bool {
    m1.expects == m2.expects
}

/// Passing features up and discharging chains depend on the expectations alone:
/// models with the same expectations end with the same expectations and the same result.
pub proof fn lemma_possibly_project_expects(m1: LambdaV, m2: LambdaV, from: Map<Key, Option<Key>>)
    requires
        same_expects(m1, m2),
    ensures
        same_expects(spec_possibly_project(m1, from).0, spec_possibly_project(m2, from).0),
        spec_possibly_project(m1, from).1 == spec_possibly_project(m2, from).1,
{
}

pub proof fn lemma_discharge_expects(m: LambdaV, p: Map<Key, Option<Key>>)
    ensures
        spec_discharge(m, p).expects == m.expects,
{
}

pub proof fn lemma_add_chain_expects(m: LambdaV, p: Map<Key, Option<Key>>)
    ensures
        spec_add_chain(m, p).expects == m.expects,
{
}

pub proof fn lemma_push_lambda_features_expects(m1: LambdaV, m2: LambdaV, f: Map<Key, Option<Key>>, t: Map<Key, Option<Key>>)
    requires
        same_expects(m1, m2),
    ensures
        same_expects(spec_push_lambda_features(m1, f, t).0, spec_push_lambda_features(m2, f, t).0),
        spec_push_lambda_features(m1, f, t).1 == spec_push_lambda_features(m2, f, t).1,
{
    lemma_discharge_expects(m1, f);
    lemma_discharge_expects(m2, f);
    lemma_possibly_project_expects(spec_discharge(m1, f), spec_discharge(m2, f), f);
}

pub proof fn lemma_entry_to_node_expects(m1: LambdaV, m2: LambdaV, e: ValidV)
    requires
        same_expects(m1, m2),
    ensures
        same_expects(spec_entry_to_node(m1, e).0, spec_entry_to_node(m2, e).0),
        spec_entry_to_node(m1, e).1 == spec_entry_to_node(m2, e).1,
{
    match e {
        ValidV::Features(fs) => {
            lemma_discharge_expects(m1, fs);
            lemma_discharge_expects(m2, fs);
        },
        ValidV::Moved(fs) => {
            lemma_add_chain_expects(m1, fs);
            lemma_add_chain_expects(m2, fs);
        },
        ValidV::Lambda(from, _, _) => match *from {
            ValidV::Features(fs) => {
                lemma_discharge_expects(m1, fs);
                lemma_discharge_expects(m2, fs);
            },
            ValidV::Moved(fs) => {
                lemma_add_chain_expects(m1, fs);
                lemma_add_chain_expects(m2, fs);
            },
            _ => {},
        },
    }
}

pub proof fn lemma_push_lexicon_lambda_expects(m1: LambdaV, m2: LambdaV, from: ValidV, to: NodeV)
    requires
        same_expects(m1, m2),
    ensures
        same_expects(spec_push_lexicon_lambda(m1, from, to).0, spec_push_lexicon_lambda(m2, from, to).0),
        spec_push_lexicon_lambda(m1, from, to).1 == spec_push_lexicon_lambda(m2, from, to).1,
    decreases to,
{
    match (from, to) {
        (ValidV::Features(f), NodeV::Value(crate::syntax::ValueV::Features(t))) => {
            lemma_push_lambda_features_expects(m1, m2, f, t);
        },
        (ValidV::Features(f), NodeV::Lambda(_, _)) => {
            lemma_discharge_expects(m1, f);
            lemma_discharge_expects(m2, f);
        },
        (ValidV::Moved(f), NodeV::Value(crate::syntax::ValueV::Features(t))) => {
            lemma_add_chain_expects(m1, f);
            lemma_add_chain_expects(m2, f);
            lemma_possibly_project_expects(spec_add_chain(m1, f), spec_add_chain(m2, f), f);
        },
        (ValidV::Moved(f), NodeV::Lambda(_, _)) => {
            lemma_add_chain_expects(m1, f);
            lemma_add_chain_expects(m2, f);
        },
        (ValidV::Lambda(new, from_fs, project), NodeV::Value(crate::syntax::ValueV::Features(t))) => {
            lemma_push_lambda_features_expects(m1, m2, from_fs, t);
            let (a1, r1) = spec_push_lambda_features(m1, from_fs, t);
            let (a2, r2) = spec_push_lambda_features(m2, from_fs, t);
            if let Ok(inserted) = r1 {
                let b1 = if inserted && project { spec_push(a1, NodeV::Projection(super::valid_entry::right_of(*new))) } else { a1 };
                let b2 = if inserted && project { spec_push(a2, NodeV::Projection(super::valid_entry::right_of(*new))) } else { a2 };
                lemma_entry_to_node_expects(b1, b2, *new);
            }
        },
        (ValidV::Lambda(a, b, project_ab), NodeV::Lambda(c, d)) => {
            lemma_push_lexicon_lambda_expects(m1, m2, ValidV::Features(b), *d);
            let (a1, r1) = spec_push_lexicon_lambda(m1, ValidV::Features(b), *d);
            let (a2, r2) = spec_push_lexicon_lambda(m2, ValidV::Features(b), *d);
            if let Ok(inserted) = r1 {
                let b1 = if inserted && project_ab { spec_push(a1, NodeV::Projection(super::valid_entry::right_of(*a))) } else { a1 };
                let b2 = if inserted && project_ab { spec_push(a2, NodeV::Projection(super::valid_entry::right_of(*a))) } else { a2 };
                lemma_entry_to_node_expects(b1, b2, *a);
            }
        },
        _ => {},
    }
}

/// Taking in a word depends on the expectations alone.
pub proof fn lemma_receive_expects(m1: LambdaV, m2: LambdaV, token: Key)
    requires
        same_expects(m1, m2),
    ensures
        same_expects(spec_receive(m1, token).0, spec_receive(m2, token).0),
        spec_receive(m1, token).1 == spec_receive(m2, token).1,
{
}

/// Applying a rule depends on the expectations alone.
pub proof fn lemma_decide_expects(m1: LambdaV, m2: LambdaV, entry: EntryV)
    requires
        same_expects(m1, m2),
    ensures
        same_expects(spec_decide(m1, entry).0, spec_decide(m2, entry).0),
        spec_decide(m1, entry).1 == spec_decide(m2, entry).1,
{
    let a1 = spec_log(spec_begin_step(m1), OpV::MergeEntry(entry));
    let a2 = spec_log(spec_begin_step(m2), OpV::MergeEntry(entry));
    assert(same_expects(a1, a2));
    if a1.expects.len() > 0 {
        let b1 = LambdaV { expects: a1.expects.drop_last(), ..a1 };
        let b2 = LambdaV { expects: a2.expects.drop_last(), ..a2 };
        match a1.expects.last() {
            NodeV::Lambda(awaited_from, to) => match (awaited_from, entry) {
                (crate::syntax::ValueV::Features(from_fs), EntryV::Functional(node, entry_project)) => {
                    match super::valid_entry::valid_of(node) {
                        Some(v) => {
                            let v1 = match entry_project {
                                Some(ignore) => {
                                    let onto = super::valid_entry::right_of(v);
                                    let p = crate::syntax::feature_set::projected(from_fs, ignore);
                                    super::valid_entry::with_right(v, onto.union_prefer_right(crate::syntax::feature_set::before_first_clash(p, onto)))
                                },
                                None => v,
                            };
                            lemma_push_lexicon_lambda_expects(b1, b2, v1, *to);
                        },
                        None => {},
                    }
                },
                (crate::syntax::ValueV::Item(_), EntryV::Lexical(node)) => {
                    match super::valid_entry::valid_of(node) {
                        Some(v) => {
                            lemma_push_lexicon_lambda_expects(b1, b2, v, *to);
                        },
                        None => {},
                    }
                },
                _ => {},
            },
            _ => {},
        }
    }
}

} // verus!
