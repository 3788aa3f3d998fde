use learn_arta::{DagStateFormula, DagStateFormulaManager, LocationId, MinimalModelKey};

fn loc(name: &str) -> LocationId {
    LocationId::new(name)
}

#[test]
fn canonicalization_commutative_and_or() {
    let mgr = DagStateFormulaManager::new();
    let x = DagStateFormula::var(&mgr, loc("x"));
    let y = DagStateFormula::var(&mgr, loc("y"));

    assert_eq!(
        DagStateFormula::and(&mgr, vec![x.clone(), y.clone()]),
        DagStateFormula::and(&mgr, vec![y.clone(), x.clone()])
    );
    assert_eq!(
        DagStateFormula::or(&mgr, vec![x.clone(), y.clone()]),
        DagStateFormula::or(&mgr, vec![y, x])
    );
}

#[test]
fn idempotence_for_and_or() {
    let mgr = DagStateFormulaManager::new();
    let x = DagStateFormula::var(&mgr, loc("x"));

    assert_eq!(DagStateFormula::and(&mgr, vec![x.clone(), x.clone()]), x);
    assert_eq!(DagStateFormula::or(&mgr, vec![x.clone(), x.clone()]), x);
}

#[test]
fn constant_folding_rules() {
    let mgr = DagStateFormulaManager::new();
    let x = DagStateFormula::var(&mgr, loc("x"));
    let top = DagStateFormula::top(&mgr);
    let bot = DagStateFormula::bot(&mgr);

    assert_eq!(DagStateFormula::and(&mgr, vec![x.clone(), top]), x);
    assert_eq!(DagStateFormula::or(&mgr, vec![x.clone(), bot.clone()]), x);
    assert_eq!(DagStateFormula::and(&mgr, vec![x.clone(), bot.clone()]), bot);
    assert_eq!(
        DagStateFormula::or(&mgr, vec![x.clone(), DagStateFormula::top(&mgr)]),
        DagStateFormula::top(&mgr)
    );
}

#[test]
fn flattening_rules() {
    let mgr = DagStateFormulaManager::new();
    let x = DagStateFormula::var(&mgr, loc("x"));
    let y = DagStateFormula::var(&mgr, loc("y"));
    let z = DagStateFormula::var(&mgr, loc("z"));

    let nested_and = DagStateFormula::and(&mgr, vec![y.clone(), z.clone()]);
    let flat_and = DagStateFormula::and(&mgr, vec![x.clone(), y.clone(), z.clone()]);
    assert_eq!(DagStateFormula::and(&mgr, vec![x.clone(), nested_and]), flat_and);

    let nested_or = DagStateFormula::or(&mgr, vec![y.clone(), z.clone()]);
    let flat_or = DagStateFormula::or(&mgr, vec![x.clone(), y, z]);
    assert_eq!(DagStateFormula::or(&mgr, vec![x, nested_or]), flat_or);
}

#[test]
fn semantic_key_collapses_absorption_but_preserves_structural_inequality() {
    let mgr = DagStateFormulaManager::new();
    let x = loc("x");
    let y = loc("y");

    let base = DagStateFormula::var(&mgr, x.clone());
    let absorbed = DagStateFormula::or(
        &mgr,
        vec![
            base.clone(),
            DagStateFormula::and(
                &mgr,
                vec![DagStateFormula::var(&mgr, x.clone()), DagStateFormula::var(&mgr, y)],
            ),
        ],
    );

    assert_ne!(base, absorbed);
    assert_eq!(base.semantic_key(), absorbed.semantic_key());
    assert_eq!(absorbed.semantic_key().clauses(), &[vec![x]]);
}

#[test]
fn semantic_key_uses_expected_top_and_bot_shapes() {
    let mgr = DagStateFormulaManager::new();

    let top_key: MinimalModelKey = MinimalModelKey::top();
    let bot_key: MinimalModelKey = MinimalModelKey::bot();

    assert_eq!(DagStateFormula::top(&mgr).semantic_key(), top_key);
    assert_eq!(DagStateFormula::bot(&mgr).semantic_key(), bot_key);
    assert_eq!(DagStateFormula::top(&mgr).semantic_key().clauses(), &[Vec::new()]);
    assert!(DagStateFormula::bot(&mgr).semantic_key().clauses().is_empty());
}

#[test]
fn cross_manager_terms_are_imported_and_normalized() {
    let mgr1 = DagStateFormulaManager::new();
    let mgr2 = DagStateFormulaManager::new();

    let x1 = DagStateFormula::var(&mgr1, loc("x"));
    let y2 = DagStateFormula::var(&mgr2, loc("y"));

    let mixed = DagStateFormula::and(&mgr1, vec![x1.clone(), y2]);
    let expected = DagStateFormula::and(&mgr1, vec![x1, DagStateFormula::var(&mgr1, loc("y"))]);

    assert_eq!(mixed, expected);
}

#[test]
fn display_is_deterministic() {
    let mgr = DagStateFormulaManager::new();
    let x = DagStateFormula::var(&mgr, loc("x"));
    let y = DagStateFormula::var(&mgr, loc("y"));
    let formula = DagStateFormula::and(&mgr, vec![y, x]);

    assert_eq!(formula.to_string(), "(loc(x) & loc(y))");
}

#[test]
fn to_dnf_matches_expected_shapes() {
    let mgr = DagStateFormulaManager::new();
    let q0 = loc("q0");
    let q1 = loc("q1");
    let q2 = loc("q2");

    let disj = DagStateFormula::or(
        &mgr,
        vec![DagStateFormula::var(&mgr, q0.clone()), DagStateFormula::var(&mgr, q1.clone())],
    );
    let conj = DagStateFormula::and(&mgr, vec![disj, DagStateFormula::var(&mgr, q2.clone())]);

    let dnf = conj.to_dnf();
    assert_eq!(dnf.len(), 2);

    let mut opt_a = vec![q0, q2.clone()];
    opt_a.sort();
    let mut opt_b = vec![q1, q2];
    opt_b.sort();

    let mut actual0 = dnf[0].clone();
    actual0.sort();
    let mut actual1 = dnf[1].clone();
    actual1.sort();

    assert!((actual0 == opt_a && actual1 == opt_b) || (actual0 == opt_b && actual1 == opt_a));
}

#[test]
fn substitute_rewrites_vars_and_normalizes() {
    let mgr = DagStateFormulaManager::new();
    let q0 = loc("q0");
    let q1 = loc("q1");
    let q2 = loc("q2");
    let q3 = loc("q3");

    let formula = DagStateFormula::and(
        &mgr,
        vec![
            DagStateFormula::var(&mgr, q0.clone()),
            DagStateFormula::or(
                &mgr,
                vec![DagStateFormula::var(&mgr, q1.clone()), DagStateFormula::var(&mgr, q2.clone())],
            ),
        ],
    );

    let keys = vec![q0.clone(), q1.clone(), q2.clone()];
    let values = vec![
        DagStateFormula::or(
            &mgr,
            vec![DagStateFormula::var(&mgr, q1.clone()), DagStateFormula::bot(&mgr)],
        ),
        DagStateFormula::top(&mgr),
        DagStateFormula::var(&mgr, q3.clone()),
    ];
    let substituted = DagStateFormula::substitute_table(&mgr, &formula, &keys, &values);

    let expected = DagStateFormula::and(
        &mgr,
        vec![
            DagStateFormula::var(&mgr, q1),
            DagStateFormula::or(&mgr, vec![DagStateFormula::top(&mgr), DagStateFormula::var(&mgr, q3)]),
        ],
    );

    assert_eq!(substituted, expected);
    assert_eq!(substituted, DagStateFormula::and(&mgr, vec![DagStateFormula::var(&mgr, loc("q1"))]));
}

#[test]
fn eval_bool_matches_expected_truth_table() {
    let mgr = DagStateFormulaManager::new();
    let q0 = loc("q0");
    let q1 = loc("q1");
    let q2 = loc("q2");

    let formula = DagStateFormula::or(
        &mgr,
        vec![
            DagStateFormula::and(
                &mgr,
                vec![DagStateFormula::var(&mgr, q0.clone()), DagStateFormula::var(&mgr, q1.clone())],
            ),
            DagStateFormula::var(&mgr, q2.clone()),
        ],
    );

    assert!(!formula.eval_in(&[q0.clone()]));
    assert!(formula.eval_in(&[q0, q1]));
    assert!(formula.eval_in(&[q2]));
    assert!(!formula.eval_in(&[]));
}

#[test]
fn and_or_are_insensitive_to_argument_order() {
    let mgr = DagStateFormulaManager::new();
    let v = |n: &str| DagStateFormula::var(&mgr, loc(n));
    let terms = vec![
        DagStateFormula::or(&mgr, vec![v("v2"), v("v0")]),
        DagStateFormula::top(&mgr),
        v("v1"),
        DagStateFormula::and(&mgr, vec![v("v3"), v("v1")]),
        DagStateFormula::bot(&mgr),
    ];
    let mut reversed = terms.clone();
    reversed.reverse();
    assert_eq!(DagStateFormula::and(&mgr, terms.clone()), DagStateFormula::and(&mgr, reversed.clone()));
    assert_eq!(DagStateFormula::or(&mgr, terms), DagStateFormula::or(&mgr, reversed));
}
