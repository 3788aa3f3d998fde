use learn_arta::time::interval::Interval;
use learn_arta::{
    Arta, ArtaBuilder, ArtaError, DagStateFormula, DagStateFormulaManager, DelayRep,
    GuardedTransition, LocationId, TimedWord,
};

fn loc(name: &str) -> LocationId {
    LocationId::new(name)
}

fn build_base_builder() -> (std::sync::Arc<DagStateFormulaManager>, ArtaBuilder<char>) {
    let mgr = DagStateFormulaManager::new();
    let q0 = loc("q0");
    let q1 = loc("q1");
    let init = DagStateFormula::var(&mgr, q0.clone());

    let mut builder = ArtaBuilder::new(init);
    builder.add_location(q0);
    builder.add_location(q1);
    (mgr, builder)
}

#[test]
fn determinism_accepts_adjacent_non_overlapping_guards() {
    let (mgr, mut builder) = build_base_builder();
    let q0 = loc("q0");
    let q1 = loc("q1");
    let target = DagStateFormula::var(&mgr, q1);

    builder.add_transition(
        q0.clone(),
        'a',
        Interval::left_open_right_closed(0, 1).expect("valid interval"),
        target.clone(),
    );
    builder.add_transition(q0.clone(), 'a', Interval::open(1, 2).expect("valid interval"), target);

    let arta = builder.build().expect("builder should accept");
    let outgoing = arta.outgoing(&q0, &'a').expect("transitions should exist");
    assert_eq!(outgoing.len(), 2);
}

#[test]
fn determinism_rejects_overlap_and_reports_valid_witness() {
    let (mgr, mut builder) = build_base_builder();
    let q0 = loc("q0");
    let q1 = loc("q1");
    let target = DagStateFormula::var(&mgr, q1);

    builder.add_transition(q0.clone(), 'a', Interval::closed(0, 1).expect("valid interval"), target.clone());
    builder.add_transition(q0, 'a', Interval::open(0, 2).expect("valid interval"), target);

    let err = builder.build().expect_err("overlap should fail determinism");
    match err {
        ArtaError::NonDeterministic { guard1, guard2, witness, .. } => {
            assert!(guard1.contains(witness));
            assert!(guard2.contains(witness));
        }
        other => panic!("expected NonDeterministic error, got {other:?}"),
    }
}

#[test]
fn overlap_is_allowed_for_different_symbols_or_locations() {
    let (mgr, mut builder) = build_base_builder();
    let q0 = loc("q0");
    let q1 = loc("q1");
    let target = DagStateFormula::var(&mgr, q1.clone());
    let overlap = Interval::closed(0, 2).expect("valid interval");

    builder.add_transition(q0.clone(), 'a', overlap.clone(), target.clone());
    builder.add_transition(q0, 'b', overlap.clone(), target.clone());
    builder.add_transition(q1, 'a', overlap, target);

    assert!(builder.build().is_ok());
}

#[test]
fn duplicate_transition_is_deduplicated() {
    let (mgr, mut builder) = build_base_builder();
    let q0 = loc("q0");
    let q1 = loc("q1");
    let target = DagStateFormula::var(&mgr, q1);
    let guard = Interval::closed(1, 1).expect("valid interval");

    builder.add_transition(q0.clone(), 'a', guard.clone(), target.clone());
    builder.add_transition(q0.clone(), 'a', guard, target);

    let arta = builder.build().expect("duplicates should be deduplicated");
    let outgoing = arta.outgoing(&q0, &'a').expect("transitions should exist");
    assert_eq!(outgoing.len(), 1);
}

fn simplify_fixture() -> Arta<char> {
    let mgr = DagStateFormulaManager::new();
    let q0 = loc("q0");
    let q1 = loc("q1");
    let q2 = loc("q2");

    let init = DagStateFormula::or(
        &mgr,
        vec![
            DagStateFormula::var(&mgr, q0.clone()),
            DagStateFormula::and(
                &mgr,
                vec![DagStateFormula::var(&mgr, q0.clone()), DagStateFormula::var(&mgr, q1.clone())],
            ),
            DagStateFormula::and(
                &mgr,
                vec![
                    DagStateFormula::var(&mgr, q0.clone()),
                    DagStateFormula::var(&mgr, q1.clone()),
                    DagStateFormula::var(&mgr, q2.clone()),
                ],
            ),
        ],
    );

    let merged_target = DagStateFormula::or(
        &mgr,
        vec![
            DagStateFormula::var(&mgr, q1.clone()),
            DagStateFormula::and(
                &mgr,
                vec![DagStateFormula::var(&mgr, q1.clone()), DagStateFormula::var(&mgr, q2.clone())],
            ),
        ],
    );

    let mut builder = ArtaBuilder::new(init);
    builder
        .add_location(q0.clone())
        .add_location(q1.clone())
        .add_location(q2.clone())
        .add_accepting(q1.clone())
        .add_transition(q0.clone(), 'a', Interval::closed(0, 0).expect("valid singleton"), merged_target)
        .add_transition(
            q0.clone(),
            'a',
            Interval::left_open_right_closed(0, 1).expect("valid interval"),
            DagStateFormula::var(&mgr, q1),
        )
        .add_transition(q0, 'a', Interval::open(1, 2).expect("valid interval"), DagStateFormula::bot(&mgr));

    builder.build().expect("simplify fixture should build")
}

fn transition_snapshot(arta: &Arta<char>) -> Vec<(String, char, String, String)> {
    let mut snapshot = arta
        .transitions()
        .iter()
        .flat_map(|((source, symbol), edges)| {
            edges.iter().map(move |edge: &GuardedTransition| {
                (
                    source.name().to_string(),
                    *symbol,
                    edge.guard.to_string(),
                    edge.target.to_string(),
                )
            })
        })
        .collect::<Vec<_>>();
    snapshot.sort();
    snapshot
}

fn execution_example1_arta() -> Arta<char> {
    let mgr = DagStateFormulaManager::new();
    let l0 = loc("l0");
    let init = DagStateFormula::var(&mgr, l0.clone());
    let loop_guard = Interval::from_bounds(true, 0, false, None).expect("valid [0,∞)");

    let mut builder = ArtaBuilder::new(init);
    builder
        .add_location(l0.clone())
        .add_accepting(l0.clone())
        .add_transition(l0.clone(), 'a', loop_guard, DagStateFormula::var(&mgr, l0));
    builder.build().expect("example 1 should build")
}

#[test]
fn execution_example1_accepts_any_a_word_with_finite_delays() {
    let arta = execution_example1_arta();
    assert!(arta.accepts(&TimedWord::empty()));

    let w = TimedWord::from_vec(vec![
        ('a', DelayRep::from_integer(0)),
        ('a', DelayRep::from_half_units(3)),
        ('a', DelayRep::from_integer(9)),
    ]);
    assert!(arta.accepts(&w));
}

#[test]
fn execution_example2_missing_transition_rejects() {
    let mgr = DagStateFormulaManager::new();
    let l0 = loc("l0");
    let init = DagStateFormula::var(&mgr, l0.clone());
    let mut builder = ArtaBuilder::<char>::new(init);
    builder.add_location(l0.clone());
    let arta = builder.build().expect("example 2 should build");

    assert!(!arta.accepts(&TimedWord::empty()));
    assert!(!arta.accepts(&TimedWord::from_vec(vec![('a', DelayRep::from_integer(1))])));
}

#[test]
fn simplify_rewrites_init_and_targets_removes_bot_and_merges_guards() {
    let mut arta = simplify_fixture();
    let q0 = loc("q0");

    arta.simplify();

    assert_eq!(arta.init().to_string(), "loc(q0)");

    let outgoing = arta.outgoing(&q0, &'a').expect("simplified transitions should exist");
    assert_eq!(outgoing.len(), 1);
    assert_eq!(outgoing[0].guard.to_string(), "[0,1]");
    assert_eq!(outgoing[0].target.to_string(), "loc(q1)");
}

#[test]
fn simplify_is_idempotent() {
    let mut once = simplify_fixture();
    once.simplify();

    let mut twice = simplify_fixture();
    twice.simplify();
    twice.simplify();

    assert_eq!(once.init(), twice.init());
    assert_eq!(transition_snapshot(&once), transition_snapshot(&twice));
}

#[test]
fn simplify_preserves_acceptance_on_representative_words() {
    let arta = simplify_fixture();
    let mut simplified = simplify_fixture();
    simplified.simplify();

    let words = [
        TimedWord::empty(),
        TimedWord::from_vec(vec![('a', DelayRep::from_integer(0))]),
        TimedWord::from_vec(vec![('a', DelayRep::from_half_units(1))]),
        TimedWord::from_vec(vec![('a', DelayRep::from_integer(1))]),
        TimedWord::from_vec(vec![('a', DelayRep::from_integer(2))]),
    ];

    for word in words {
        assert_eq!(arta.accepts(&word), simplified.accepts(&word));
    }
}

#[test]
fn execution_example3_eval_distinguishes_and_vs_or() {
    let mgr = DagStateFormulaManager::new();
    let l1 = loc("l1");
    let l2 = loc("l2");

    let and_formula = DagStateFormula::and(
        &mgr,
        vec![DagStateFormula::var(&mgr, l1.clone()), DagStateFormula::var(&mgr, l2.clone())],
    );
    let or_formula = DagStateFormula::or(
        &mgr,
        vec![DagStateFormula::var(&mgr, l1.clone()), DagStateFormula::var(&mgr, l2.clone())],
    );

    let arta = Arta::<char>::new(
        vec![l1.clone(), l2.clone()],
        DagStateFormula::top(&mgr),
        vec![l1],
        Vec::new(),
    )
    .expect("valid arta for eval");

    assert!(!arta.eval(&and_formula));
    assert!(arta.eval(&or_formula));
}

#[test]
fn step_location_missing_transition_returns_bot() {
    let mgr = DagStateFormulaManager::new();
    let l0 = loc("l0");
    let init = DagStateFormula::var(&mgr, l0.clone());
    let mut builder = ArtaBuilder::<char>::new(init);
    builder.add_location(l0.clone());
    let arta = builder.build().expect("arta should build");

    let bot = arta.step_location(l0, &'a', DelayRep::from_integer(0));
    assert_eq!(bot, DagStateFormula::bot(&mgr));
}

#[test]
fn run_from_empty_word_is_identity() {
    let arta = execution_example1_arta();
    let result = arta.run_from(arta.init(), &TimedWord::empty());
    assert_eq!(&result, arta.init());
}

#[test]
fn run_from_distributes_over_and_and_or_on_self_loops() {
    let mgr = DagStateFormulaManager::new();
    let vars = vec![loc("p0"), loc("p1"), loc("p2")];
    let init = DagStateFormula::var(&mgr, vars[0].clone());
    let mut builder = ArtaBuilder::new(init);
    for v in &vars {
        builder.add_location(v.clone());
    }
    let guard = Interval::from_bounds(true, 0, false, None).expect("valid [0,∞)");
    for v in &vars {
        builder.add_transition(v.clone(), 'a', guard.clone(), DagStateFormula::var(&mgr, v.clone()));
        builder.add_transition(v.clone(), 'b', guard.clone(), DagStateFormula::var(&mgr, v.clone()));
    }
    let arta = builder.build().expect("self-loop arta should build");

    let phi = DagStateFormula::or(
        &mgr,
        vec![DagStateFormula::var(&mgr, vars[0].clone()), DagStateFormula::var(&mgr, vars[1].clone())],
    );
    let psi = DagStateFormula::var(&mgr, vars[2].clone());
    let w = TimedWord::from_vec(vec![('a', DelayRep::from_half_units(3)), ('b', DelayRep::zero())]);

    let lhs = arta.run_from(&DagStateFormula::and(&mgr, vec![phi.clone(), psi.clone()]), &w);
    let rhs = DagStateFormula::and(&mgr, vec![arta.run_from(&phi, &w), arta.run_from(&psi, &w)]);
    assert_eq!(lhs, rhs);

    let lhs = arta.run_from(&DagStateFormula::or(&mgr, vec![phi.clone(), psi.clone()]), &w);
    let rhs = DagStateFormula::or(&mgr, vec![arta.run_from(&phi, &w), arta.run_from(&psi, &w)]);
    assert_eq!(lhs, rhs);
}

#[test]
fn simplify_merges_only_touching_guards_with_equal_targets() {
    let mgr = DagStateFormulaManager::new();
    let q0 = loc("q0");
    let q1 = loc("q1");
    let q2 = loc("q2");
    let mut builder = ArtaBuilder::new(DagStateFormula::var(&mgr, q0.clone()));
    builder
        .add_location(q0.clone())
        .add_location(q1.clone())
        .add_location(q2.clone())
        .add_accepting(q2.clone())
        .add_transition(q0.clone(), 'a', Interval::closed(0, 0).unwrap(), DagStateFormula::var(&mgr, q1.clone()))
        .add_transition(q0.clone(), 'a', Interval::open(0, 1).unwrap(), DagStateFormula::var(&mgr, q2.clone()))
        .add_transition(q0.clone(), 'a', Interval::closed(1, 1).unwrap(), DagStateFormula::var(&mgr, q2.clone()));
    let mut arta = builder.build().expect("touching fixture should build");

    arta.simplify();

    let outgoing = arta.outgoing(&q0, &'a').expect("simplified transitions should exist");
    assert_eq!(outgoing.len(), 2);
    assert_eq!(outgoing[0].guard.to_string(), "[0,0]");
    assert_eq!(outgoing[0].target.to_string(), "loc(q1)");
    assert_eq!(outgoing[1].guard.to_string(), "(0,1]");
    assert_eq!(outgoing[1].target.to_string(), "loc(q2)");

    let again = arta.clone();
    arta.simplify();
    let first = again.outgoing(&q0, &'a').unwrap();
    let second = arta.outgoing(&q0, &'a').unwrap();
    assert_eq!(first.len(), second.len());
    for (a, b) in first.iter().zip(second.iter()) {
        assert_eq!(a.guard.to_string(), b.guard.to_string());
        assert_eq!(a.target.to_string(), b.target.to_string());
    }
}
