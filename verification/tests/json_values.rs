use learn_arta::json::{
    interval_to_json_guard, legacy_init_locations_from_state_formula, ArtaDocument, ArtaJsonError,
    JsonFormula, JsonInit, JsonTransition,
};
use learn_arta::time::interval::Interval;
use learn_arta::{DagStateFormula, DagStateFormulaManager, LocationId};

fn loc(name: &str) -> LocationId {
    LocationId::new(name)
}

#[test]
fn legacy_init_list_is_parsed_as_disjunction() {
    let doc = ArtaDocument {
        name: "legacy".to_string(),
        l: vec!["q0".to_string(), "q1".to_string()],
        sigma: vec![],
        tran: vec![],
        init: JsonInit::Locations(vec!["q0".to_string(), "q1".to_string()]),
        accept: vec!["q1".to_string()],
    };
    let arta = doc.into_parsed_arta_json().unwrap().arta;

    assert_eq!(arta.init().to_string(), "(loc(q0) | loc(q1))");
}

#[test]
fn init_locations_require_disjunction_of_atoms() {
    let manager = DagStateFormulaManager::new();
    let unsupported = DagStateFormula::and(
        &manager,
        vec![
            DagStateFormula::var(&manager, loc("q0")),
            DagStateFormula::var(&manager, loc("q1")),
        ],
    );

    assert_eq!(legacy_init_locations_from_state_formula(&unsupported), None);
}

#[test]
fn json_formula_from_state_formula_uses_constants_and_dnf() {
    let manager = DagStateFormulaManager::new();
    let formula = DagStateFormula::or(
        &manager,
        vec![
            DagStateFormula::and(
                &manager,
                vec![
                    DagStateFormula::var(&manager, loc("q1")),
                    DagStateFormula::var(&manager, loc("q0")),
                ],
            ),
            DagStateFormula::var(&manager, loc("q2")),
        ],
    );

    let json = JsonFormula::from_state_formula(&formula);
    assert_eq!(
        json,
        JsonFormula::Or(vec![
            JsonFormula::And(vec![
                JsonFormula::Atom("q0".to_string()),
                JsonFormula::Atom("q1".to_string()),
            ]),
            JsonFormula::Atom("q2".to_string()),
        ])
    );
    assert_eq!(
        JsonFormula::from_state_formula(&DagStateFormula::top(&manager)),
        JsonFormula::Const(true)
    );
    assert_eq!(
        JsonFormula::from_state_formula(&DagStateFormula::bot(&manager)),
        JsonFormula::Const(false)
    );
}

#[test]
fn interval_writer_uses_ascii_plus() {
    let interval = Interval::from_bounds(true, 4, false, None).unwrap();
    assert_eq!(interval_to_json_guard(&interval), "[4,+)");
}

#[test]
fn rejects_formula_arity_below_two() {
    let doc = ArtaDocument {
        name: "bad".to_string(),
        l: vec!["q0".to_string()],
        sigma: vec!["a".to_string()],
        tran: vec![(
            "0".to_string(),
            JsonTransition(
                "q0".to_string(),
                "a".to_string(),
                "[0,1)".to_string(),
                JsonFormula::And(vec![JsonFormula::Atom("q0".to_string())]),
            ),
        )],
        init: JsonInit::Locations(vec!["q0".to_string()]),
        accept: vec![],
    };
    let err = doc.into_parsed_arta_json().unwrap_err();

    assert_eq!(
        err,
        ArtaJsonError::InvalidFormulaArity {
            context: "transition 0 target".to_string(),
            operator: "and".to_string(),
            len: 1,
        }
    );
}

#[test]
fn nested_arity_error_names_the_operand() {
    let formula = JsonFormula::Or(vec![
        JsonFormula::Atom("q0".to_string()),
        JsonFormula::And(vec![]),
    ]);
    let manager = DagStateFormulaManager::new();
    let err = formula
        .into_state_formula(&manager, &"init".to_string())
        .unwrap_err();
    assert_eq!(
        err,
        ArtaJsonError::InvalidFormulaArity {
            context: "init.or[1]".to_string(),
            operator: "and".to_string(),
            len: 0,
        }
    );
}

#[test]
fn sort_key_joins_operands() {
    let formula = JsonFormula::Or(vec![
        JsonFormula::Atom("q0".to_string()),
        JsonFormula::Const(true),
    ]);
    assert_eq!(formula.sort_key(), "or:atom:q0\u{1f}const:true");
}
