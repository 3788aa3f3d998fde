use learn_arta::hypothesis_arta::compress_resolved_change_points;
use learn_arta::{
    convert_basis_formula_to_dag_state_formula, evidence_state_to_location_id, AfaStateId,
    BasisFormula, BasisVar, DagStateFormulaManager, DelayRep, LocationId,
};

#[test]
fn compress_change_points_keeps_last_delay_for_equal_target_run() {
    let q0 = BasisFormula::var(BasisVar(0));
    let q1 = BasisFormula::var(BasisVar(1));

    let compressed = compress_resolved_change_points(vec![
        (DelayRep::from_integer(1), q0.clone()),
        (DelayRep::from_floor_plus_half(2), q1.clone()),
        (DelayRep::from_integer(4), q1),
        (DelayRep::from_integer(5), q0.clone()),
    ]);

    assert_eq!(
        compressed,
        vec![
            (DelayRep::from_integer(1), q0),
            (DelayRep::from_integer(4), BasisFormula::var(BasisVar(1))),
            (DelayRep::from_integer(5), BasisFormula::var(BasisVar(0))),
        ]
    );
}

#[test]
fn compress_keeps_alternating_targets_and_empty_input() {
    let q0 = BasisFormula::var(BasisVar(0));
    let q1 = BasisFormula::var(BasisVar(1));
    let points = vec![
        (DelayRep::from_integer(0), q0.clone()),
        (DelayRep::from_integer(1), q1.clone()),
        (DelayRep::from_integer(2), q0.clone()),
    ];
    assert_eq!(compress_resolved_change_points(points.clone()), points);
    assert!(compress_resolved_change_points(vec![]).is_empty());
}

#[test]
fn basis_and_sorts_and_deduplicates_variables() {
    assert_eq!(
        BasisFormula::and(vec![BasisVar(2), BasisVar(0), BasisVar(2)]),
        BasisFormula::And(vec![BasisVar(0), BasisVar(2)])
    );
    assert_eq!(BasisFormula::and(vec![]), BasisFormula::Top);
    assert_eq!(BasisFormula::var(BasisVar(3)), BasisFormula::And(vec![BasisVar(3)]));
}

#[test]
fn basis_or_flattens_drops_bot_and_sorts_terms() {
    let v0 = BasisFormula::var(BasisVar(0));
    let v1 = BasisFormula::var(BasisVar(1));
    let v01 = BasisFormula::and(vec![BasisVar(1), BasisVar(0)]);
    let nested = BasisFormula::Or(vec![v1.clone(), v0.clone()]);
    assert_eq!(
        BasisFormula::or(vec![BasisFormula::Bot, v01.clone(), nested, v1.clone()]),
        BasisFormula::Or(vec![v0.clone(), v01, v1.clone()])
    );
    assert_eq!(BasisFormula::or(vec![]), BasisFormula::Bot);
    assert_eq!(BasisFormula::or(vec![BasisFormula::Bot, v1.clone()]), v1);
    assert_eq!(
        BasisFormula::or(vec![v0, BasisFormula::Or(vec![BasisFormula::Top])]),
        BasisFormula::Top
    );
}

#[test]
fn basis_formula_text_matches_display_shape() {
    let v0 = BasisFormula::var(BasisVar(0));
    let v12 = BasisFormula::and(vec![BasisVar(12), BasisVar(1)]);
    assert_eq!(v12.to_string(), "(v1 & v12)");
    assert_eq!(BasisFormula::or(vec![v12, v0]).to_string(), "((v0) | (v1 & v12))");
    assert_eq!(BasisFormula::top().to_string(), "⊤");
    assert_eq!(BasisFormula::bot().to_string(), "⊥");
}

#[test]
fn evidence_states_map_to_q_locations() {
    assert_eq!(evidence_state_to_location_id(AfaStateId(0)).name(), "q0");
    assert_eq!(evidence_state_to_location_id(AfaStateId(12)).name(), "q12");
}

#[test]
fn converted_formula_keeps_semantics_over_q_locations() {
    let mgr = DagStateFormulaManager::new();
    let f = BasisFormula::or(vec![
        BasisFormula::and(vec![BasisVar(0), BasisVar(1)]),
        BasisFormula::var(BasisVar(2)),
    ]);
    let g = convert_basis_formula_to_dag_state_formula(&f, &mgr);
    let q = |n: &str| LocationId::new(n);
    assert!(g.eval_in(&[q("q0"), q("q1")]));
    assert!(g.eval_in(&[q("q2")]));
    assert!(!g.eval_in(&[q("q0")]));
    assert!(!g.eval_in(&[]));
    let single = convert_basis_formula_to_dag_state_formula(&BasisFormula::var(BasisVar(4)), &mgr);
    assert_eq!(single.to_string(), "loc(q4)");
    let top = convert_basis_formula_to_dag_state_formula(&BasisFormula::top(), &mgr);
    assert_eq!(top.to_string(), "⊤");
}
