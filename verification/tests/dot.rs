use learn_arta::time::interval::Interval;
use learn_arta::{
    Arta, DagStateFormula, DagStateFormulaManager, DotOptions, GuardedTransition, LocationId,
};

#[test]
fn dot_tiny_arta_matches_expected_snapshot() {
    let mgr = DagStateFormulaManager::new();
    let q0 = LocationId::new("q0");
    let q1 = LocationId::new("q1");

    let transitions = vec![
        (
            (q0.clone(), 'b'),
            vec![GuardedTransition {
                guard: Interval::closed(1, 2).expect("valid interval"),
                target: DagStateFormula::var(&mgr, q0.clone()),
            }],
        ),
        (
            (q0.clone(), 'a'),
            vec![GuardedTransition {
                guard: Interval::left_closed_right_open(0, 1).expect("valid interval"),
                target: DagStateFormula::var(&mgr, q1.clone()),
            }],
        ),
    ];

    let arta = Arta::new(
        vec![q1.clone(), q0.clone()],
        DagStateFormula::var(&mgr, q0),
        vec![q1],
        transitions,
    )
    .expect("valid arta");

    let expected = [
        "digraph ARTA {\n",
        "  rankdir=LR;\n",
        "  \"__init\" [shape=plaintext, label=\"L0 = loc(q0)\"];\n",
        "  \"l_0\" [shape=circle, label=\"q0\"];\n",
        "  \"l_1\" [shape=doublecircle, label=\"q1\"];\n",
        "  \"l_0\" -> \"l_1\" [label=\"'a' : [0,1)\"];\n",
        "  \"l_0\" -> \"l_0\" [label=\"'b' : [1,2]\"];\n",
        "}\n"
    ]
    .concat();
    assert_eq!(arta.to_dot_string(), expected);
}

#[test]
fn dot_output_is_identical_for_shuffled_transition_insertion() {
    let arta_a = build_shuffled_arta(true);
    let arta_b = build_shuffled_arta(false);
    assert_eq!(arta_a.to_dot_string(), arta_b.to_dot_string());
}

#[test]
fn dot_non_singleton_disjunct_uses_black_and_node() {
    let mgr = DagStateFormulaManager::new();
    let q0 = LocationId::new("q0");
    let q1 = LocationId::new("q1");
    let q2 = LocationId::new("q2");

    let transitions = vec![(
        (q0.clone(), 'a'),
        vec![GuardedTransition {
            guard: Interval::closed(0, 0).expect("valid interval"),
            target: DagStateFormula::and(
                &mgr,
                vec![
                    DagStateFormula::var(&mgr, q1.clone()),
                    DagStateFormula::var(&mgr, q2.clone()),
                ],
            ),
        }],
    )];

    let arta = Arta::new(
        vec![q0, q1, q2],
        DagStateFormula::top(&mgr),
        Vec::<LocationId>::new(),
        transitions,
    )
    .expect("valid arta");

    let dot = arta.to_dot_string();
    assert!(dot.contains("\"and_0\" [shape=box, style=filled, fillcolor=black"));
    assert!(dot.contains("\"l_0\" -> \"and_0\" [label=\"'a' : [0,0]\"]"));
    assert!(dot.contains("\"and_0\" -> \"l_1\";"));
    assert!(dot.contains("\"and_0\" -> \"l_2\";"));
}

#[test]
fn dot_escapes_labels_and_normalizes_ascii_by_default() {
    let mgr = DagStateFormulaManager::new();
    let q0 = LocationId::new("q\"0\nline");
    let q1 = LocationId::new("q\\1");

    let transitions = vec![(
        (q0.clone(), String::from("sym\"\\\n\t\r")),
        vec![GuardedTransition {
            guard: Interval::from_bounds(true, 0, false, None).expect("valid interval"),
            target: DagStateFormula::var(&mgr, q1.clone()),
        }],
    )];

    let arta = Arta::new(
        vec![q0, q1],
        DagStateFormula::bot(&mgr),
        Vec::<LocationId>::new(),
        transitions,
    )
    .expect("valid arta");

    let dot_default = arta.to_dot_string();
    assert!(dot_default.contains("L0 = BOT"));
    assert!(dot_default.contains("[0,inf)"));
    assert!(dot_default.contains("label=\"q\\\"0\\nline\""));
    assert!(dot_default.contains("label=\"q\\\\1\""));
    assert!(!dot_default.contains("q\"0\nline"));
    assert!(dot_default.contains("sym"));

    let dot_unicode = arta.to_dot_string_with(&DotOptions {
        unicode: true,
        show_init_node: true,
    });
    assert!(dot_unicode.contains("⊥"));
    assert!(dot_unicode.contains("∞"));
    assert!(!dot_unicode.contains("L0 = BOT"));
    assert!(!dot_unicode.contains("[0,inf)"));
}

fn build_shuffled_arta(reverse: bool) -> Arta<char> {
    let mgr = DagStateFormulaManager::new();
    let q0 = LocationId::new("q0");
    let q1 = LocationId::new("q1");
    let q2 = LocationId::new("q2");

    let entries = if reverse {
        vec![
            (
                (q1.clone(), 'a'),
                GuardedTransition {
                    guard: Interval::left_closed_right_open(2, 3).expect("valid interval"),
                    target: DagStateFormula::var(&mgr, q2.clone()),
                },
            ),
            (
                (q0.clone(), 'b'),
                GuardedTransition {
                    guard: Interval::left_closed_right_open(0, 1).expect("valid interval"),
                    target: DagStateFormula::or(
                        &mgr,
                        vec![
                            DagStateFormula::var(&mgr, q1.clone()),
                            DagStateFormula::var(&mgr, q2.clone()),
                        ],
                    ),
                },
            ),
            (
                (q0.clone(), 'a'),
                GuardedTransition {
                    guard: Interval::closed(0, 0).expect("valid interval"),
                    target: DagStateFormula::var(&mgr, q0.clone()),
                },
            ),
        ]
    } else {
        vec![
            (
                (q0.clone(), 'a'),
                GuardedTransition {
                    guard: Interval::closed(0, 0).expect("valid interval"),
                    target: DagStateFormula::var(&mgr, q0.clone()),
                },
            ),
            (
                (q1.clone(), 'a'),
                GuardedTransition {
                    guard: Interval::left_closed_right_open(2, 3).expect("valid interval"),
                    target: DagStateFormula::var(&mgr, q2.clone()),
                },
            ),
            (
                (q0.clone(), 'b'),
                GuardedTransition {
                    guard: Interval::left_closed_right_open(0, 1).expect("valid interval"),
                    target: DagStateFormula::or(
                        &mgr,
                        vec![
                            DagStateFormula::var(&mgr, q1.clone()),
                            DagStateFormula::var(&mgr, q2.clone()),
                        ],
                    ),
                },
            ),
        ]
    };

    let transitions: Vec<_> = entries
        .into_iter()
        .map(|(key, edge)| (key, vec![edge]))
        .collect();

    let locations = if reverse {
        vec![q2.clone(), q0.clone(), q1.clone()]
    } else {
        vec![q0.clone(), q1.clone(), q2.clone()]
    };
    let accepting = if reverse {
        vec![q2.clone(), q1.clone()]
    } else {
        vec![q1.clone(), q2.clone()]
    };

    Arta::new(locations, DagStateFormula::var(&mgr, q0), accepting, transitions)
        .expect("valid arta")
}

#[test]
fn dot_snapshot_of_or_target_and_tail_guard() {
    let arta = build_shuffled_arta(false);
    let expected = [
        "digraph ARTA {\n",
        "  rankdir=LR;\n",
        "  \"__init\" [shape=plaintext, label=\"L0 = loc(q0)\"];\n",
        "  \"l_0\" [shape=circle, label=\"q0\"];\n",
        "  \"l_1\" [shape=doublecircle, label=\"q1\"];\n",
        "  \"l_2\" [shape=doublecircle, label=\"q2\"];\n",
        "  \"l_0\" -> \"l_0\" [label=\"'a' : [0,0]\"];\n",
        "  \"l_0\" -> \"l_1\" [label=\"'b' : [0,1)\"];\n",
        "  \"l_0\" -> \"l_2\" [label=\"'b' : [0,1)\"];\n",
        "  \"l_1\" -> \"l_2\" [label=\"'a' : [2,3)\"];\n",
        "}\n"
    ]
    .concat();
    assert_eq!(arta.to_dot_string(), expected);
}

#[test]
fn dot_without_init_node_and_with_top_conjunction() {
    let mgr = DagStateFormulaManager::new();
    let q0 = LocationId::new("q0");
    let transitions = vec![(
        (q0.clone(), 'x'),
        vec![GuardedTransition {
            guard: Interval::from_bounds(false, 1, false, None).expect("valid interval"),
            target: DagStateFormula::top(&mgr),
        }],
    )];
    let arta = Arta::new(vec![q0.clone()], DagStateFormula::top(&mgr), vec![q0], transitions)
        .expect("valid arta");
    let dot = arta.to_dot_string_with(&DotOptions {
        unicode: false,
        show_init_node: false,
    });
    let expected = [
        "digraph ARTA {\n",
        "  rankdir=LR;\n",
        "  \"l_0\" [shape=doublecircle, label=\"q0\"];\n",
        "  \"and_0\" [shape=box, style=filled, fillcolor=black, label=\"\", width=0.2, height=0.2, fixedsize=true];\n",
        "  \"l_0\" -> \"and_0\" [label=\"'x' : (1,inf)\"];\n",
        "}\n"
    ]
    .concat();
    assert_eq!(dot, expected);
}

#[test]
fn dot_with_explicit_labels_uses_them() {
    let arta = build_shuffled_arta(true);
    let labels: Vec<String> = arta
        .transitions()
        .iter()
        .map(|((_, symbol), _)| format!("<{symbol}>"))
        .collect();
    let dot = arta.to_dot_string_with_labels(&DotOptions::default(), &labels);
    assert!(dot.contains("\"l_0\" -> \"l_0\" [label=\"<a> : [0,0]\"];\n"));
    assert!(dot.contains("\"l_1\" -> \"l_2\" [label=\"<a> : [2,3)\"];\n"));
}
