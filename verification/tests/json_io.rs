use learn_arta::json::{
    infer_sigma, ArtaDocument, ArtaJsonError, JsonFormula, JsonInit, JsonTransition, ParsedArtaJson,
};
use learn_arta::{
    Arta, ArtaBuilder, DagStateFormula, DagStateFormulaManager, DelayRep, LocationId, TimedWord,
};
use serde_json::Value;

fn formula_of(v: &Value) -> JsonFormula {
    match v {
        Value::String(s) => JsonFormula::Atom(s.clone()),
        Value::Object(map) => {
            if let Some(Value::Array(terms)) = map.get("and") {
                JsonFormula::And(terms.iter().map(formula_of).collect())
            } else if let Some(Value::Array(terms)) = map.get("or") {
                JsonFormula::Or(terms.iter().map(formula_of).collect())
            } else if let Some(Value::Bool(b)) = map.get("const") {
                JsonFormula::Const(*b)
            } else {
                panic!("unexpected formula object")
            }
        }
        _ => panic!("unexpected formula"),
    }
}

fn strings_of(v: &Value) -> Vec<String> {
    v.as_array()
        .expect("array")
        .iter()
        .map(|s| s.as_str().expect("string").to_string())
        .collect()
}

/// The library document held by a JSON text.
fn document_of(src: &str) -> ArtaDocument {
    let v: Value = serde_json::from_str(src).expect("valid JSON");
    let mut tran: Vec<(String, JsonTransition)> = v["tran"]
        .as_object()
        .expect("object")
        .iter()
        .map(|(id, t)| {
            let t = t.as_array().expect("array");
            (
                id.clone(),
                JsonTransition(
                    t[0].as_str().expect("string").to_string(),
                    t[1].as_str().expect("string").to_string(),
                    t[2].as_str().expect("string").to_string(),
                    formula_of(&t[3]),
                ),
            )
        })
        .collect();
    tran.sort_by(|a, b| a.0.cmp(&b.0));
    let init = match &v["init"] {
        Value::Array(_) => JsonInit::Locations(strings_of(&v["init"])),
        other => JsonInit::Formula(formula_of(other)),
    };
    ArtaDocument {
        name: v["name"].as_str().expect("string").to_string(),
        l: strings_of(&v["l"]),
        sigma: strings_of(&v["sigma"]),
        tran,
        init,
        accept: strings_of(&v["accept"]),
    }
}

fn parse_arta_json_document(src: &str) -> Result<ParsedArtaJson, ArtaJsonError> {
    document_of(src).into_parsed_arta_json()
}

fn parse_arta_json(src: &str) -> Result<Arta<String>, ArtaJsonError> {
    Ok(parse_arta_json_document(src)?.arta)
}

fn timed_word(letters: &[(&str, u32)]) -> TimedWord<String> {
    TimedWord::from_vec(
        letters
            .iter()
            .map(|(symbol, half_units)| (symbol.to_string(), DelayRep::from_half_units(*half_units)))
            .collect(),
    )
}

fn ordering_example(reverse: bool) -> Arta<String> {
    let manager = DagStateFormulaManager::new();
    let q0 = LocationId::new("q0");
    let q1 = LocationId::new("q1");
    let q2 = LocationId::new("q2");
    let init = DagStateFormula::or(
        &manager,
        vec![
            DagStateFormula::var(&manager, q0.clone()),
            DagStateFormula::var(&manager, q2.clone()),
        ],
    );

    let mut builder = ArtaBuilder::new(init);
    builder.add_location(q2.clone());
    builder.add_location(q0.clone());
    builder.add_location(q1.clone());
    builder.add_accepting(q1.clone());

    let transitions = vec![
        (q2.clone(), "a".to_string(), "[0,+)".parse().unwrap(), DagStateFormula::bot(&manager)),
        (
            q1.clone(),
            "b".to_string(),
            "(0,2]".parse().unwrap(),
            DagStateFormula::or(
                &manager,
                vec![
                    DagStateFormula::var(&manager, q1.clone()),
                    DagStateFormula::var(&manager, q2.clone()),
                ],
            ),
        ),
        (
            q0.clone(),
            "a".to_string(),
            "[1,+)".parse().unwrap(),
            DagStateFormula::and(
                &manager,
                vec![
                    DagStateFormula::var(&manager, q2.clone()),
                    DagStateFormula::var(&manager, q1.clone()),
                ],
            ),
        ),
        (q0, "a".to_string(), "[0,1)".parse().unwrap(), DagStateFormula::var(&manager, q1)),
    ];

    let mut transitions = transitions;
    if reverse {
        transitions.reverse();
    }

    for (source, symbol, guard, target) in transitions {
        builder.add_transition(source, symbol, guard, target);
    }

    builder.build().expect("valid ARTA")
}

/// The small example automaton in its canonical JSON form: three
/// locations, initial formula `q0 ∨ q2`, accepting `q1`.
const SMALL_EXAMPLE_JSON: &str = r#"{
  "name": "small",
  "l": ["q0", "q1", "q2"],
  "sigma": ["a", "b"],
  "tran": {
    "0": ["q0", "a", "[0,1)", "q1"],
    "1": ["q0", "a", "[1,+)", {"and": ["q1", "q2"]}],
    "2": ["q1", "b", "(0,2]", {"or": ["q1", "q2"]}],
    "3": ["q2", "a", "[0,+)", {"const": false}]
  },
  "init": ["q0", "q2"],
  "accept": ["q1"]
}"#;

#[test]
fn example_json_loads_successfully() {
    let arta = parse_arta_json(SMALL_EXAMPLE_JSON).expect("example should parse");

    assert_eq!(arta.locations().len(), 3);
    assert_eq!(arta.accepting().len(), 1);
    assert!(!arta.accepts(&TimedWord::empty()));
    assert!(arta.accepts(&timed_word(&[("a", 0)])));
}

#[test]
fn writer_regenerates_stable_transition_ids_and_ordering() {
    let forward = ordering_example(false);
    let reverse = ordering_example(true);

    let forward_doc = ArtaDocument::from_parts(&forward, "ordered", infer_sigma(&forward));
    let reverse_doc = ArtaDocument::from_parts(&reverse, "ordered", infer_sigma(&reverse));

    assert_eq!(forward_doc, reverse_doc);
}

#[test]
fn writer_orders_transitions_and_numbers_them() {
    let doc = ArtaDocument::from_parts(&ordering_example(true), "ordered", vec!["a".to_string()]);
    let ids: Vec<&str> = doc.tran.iter().map(|(id, _)| id.as_str()).collect();
    assert_eq!(ids, vec!["0", "1", "2", "3"]);
    assert_eq!(doc.l, vec!["q0", "q1", "q2"]);
    assert_eq!(doc.accept, vec!["q1"]);
    assert_eq!(doc.init, JsonInit::Locations(vec!["q0".to_string(), "q2".to_string()]));
    assert_eq!(
        doc.tran[0].1,
        JsonTransition(
            "q0".to_string(),
            "a".to_string(),
            "[0,1)".to_string(),
            JsonFormula::Atom("q1".to_string())
        )
    );
    assert_eq!(
        doc.tran[1].1,
        JsonTransition(
            "q0".to_string(),
            "a".to_string(),
            "[1,+)".to_string(),
            JsonFormula::And(vec![
                JsonFormula::Atom("q1".to_string()),
                JsonFormula::Atom("q2".to_string())
            ])
        )
    );
    assert_eq!(doc.tran[2].1 .0, "q1");
    assert_eq!(doc.tran[3].1 .0, "q2");
    assert_eq!(doc.tran[3].1 .3, JsonFormula::Const(false));
}

#[test]
fn infer_sigma_is_sorted_and_distinct() {
    assert_eq!(infer_sigma(&ordering_example(false)), vec!["a".to_string(), "b".to_string()]);
}

#[test]
fn parse_reports_unknown_symbol() {
    let err = parse_arta_json(
        r#"{
          "name":"bad-symbol",
          "l":["q0","q1"],
          "sigma":[],
          "tran":{"0":["q0","a","[0,1)","q1"]},
          "init":["q0"],
          "accept":["q1"]
        }"#,
    )
    .unwrap_err();

    assert!(matches!(err, ArtaJsonError::UnknownSymbol { .. }));
}

#[test]
fn parse_reports_bad_guard() {
    let err = parse_arta_json(
        r#"{
          "name":"bad-guard",
          "l":["q0","q1"],
          "sigma":["a"],
          "tran":{"0":["q0","a","[2,1)","q1"]},
          "init":["q0"],
          "accept":["q1"]
        }"#,
    )
    .unwrap_err();

    assert!(matches!(err, ArtaJsonError::InvalidGuard { .. }));
}

#[test]
fn parse_reports_bad_transition_id_and_empty_init() {
    let err = parse_arta_json(
        r#"{"name":"x","l":["q0"],"sigma":["a"],"tran":{"t":["q0","a","[0,1)","q0"]},"init":["q0"],"accept":[]}"#,
    )
    .unwrap_err();
    assert_eq!(err, ArtaJsonError::InvalidTransitionId { id: "t".to_string() });

    let err = parse_arta_json(
        r#"{"name":"x","l":["q0"],"sigma":[],"tran":{},"init":[],"accept":[]}"#,
    )
    .unwrap_err();
    assert_eq!(err, ArtaJsonError::EmptyInit);
}

#[test]
fn parse_reports_guard_without_delay_and_unknown_location() {
    let err = parse_arta_json(
        r#"{"name":"x","l":["q0"],"sigma":["a"],"tran":{"0":["q0","a","(4294967295,+)","q0"]},"init":["q0"],"accept":[]}"#,
    )
    .unwrap_err();
    assert!(matches!(
        err,
        ArtaJsonError::Arta(learn_arta::ArtaError::InvalidInterval { .. })
    ));

    let err = parse_arta_json(
        r#"{"name":"x","l":["q0"],"sigma":["a"],"tran":{"0":["q0","a","[0,1)","q9"]},"init":["q0"],"accept":[]}"#,
    )
    .unwrap_err();
    assert!(matches!(err, ArtaJsonError::Arta(learn_arta::ArtaError::UnknownLocation { .. })));
}

#[test]
fn parse_canonicalizes_legacy_overlaps_into_disjoint_arta_edges() {
    let arta = parse_arta_json(
        r#"{
          "name":"overlap",
          "l":["q0","q1","q2"],
          "sigma":["a"],
          "tran":{
            "0":["q0","a","[0,1]","q1"],
            "1":["q0","a","(0,2)","q2"]
          },
          "init":["q0"],
          "accept":["q2"]
        }"#,
    )
    .expect("legacy overlap should be canonicalized");

    let symbol = "a".to_string();
    let outgoing = arta
        .outgoing(&LocationId::new("q0"), &symbol)
        .expect("canonicalized transitions should exist");

    assert_eq!(outgoing.len(), 3);
    assert_eq!(outgoing[0].guard.to_string(), "[0,0]");
    assert_eq!(outgoing[0].target.to_string(), "loc(q1)");
    assert_eq!(outgoing[1].guard.to_string(), "(0,1]");
    assert_eq!(outgoing[1].target.to_string(), "(loc(q1) | loc(q2))");
    assert_eq!(outgoing[2].guard.to_string(), "(1,2)");
    assert_eq!(outgoing[2].target.to_string(), "loc(q2)");

    assert!(!arta.accepts(&timed_word(&[("a", 0)])));
    assert!(arta.accepts(&timed_word(&[("a", 1)])));
    assert!(arta.accepts(&timed_word(&[("a", 3)])));
}

#[test]
fn parse_merges_duplicate_legacy_guards_with_disjunctive_target() {
    let arta = parse_arta_json(
        r#"{
          "name":"duplicate-guard",
          "l":["q0","q1","q2"],
          "sigma":["a"],
          "tran":{
            "0":["q0","a","[0,1)","q1"],
            "1":["q0","a","[0,1)","q2"]
          },
          "init":["q0"],
          "accept":["q2"]
        }"#,
    )
    .expect("duplicate legacy guards should canonicalize");

    let symbol = "a".to_string();
    let outgoing = arta
        .outgoing(&LocationId::new("q0"), &symbol)
        .expect("canonicalized transitions should exist");

    assert_eq!(outgoing.len(), 1);
    assert_eq!(outgoing[0].guard.to_string(), "[0,1)");
    assert_eq!(outgoing[0].target.to_string(), "(loc(q1) | loc(q2))");
    assert!(arta.accepts(&timed_word(&[("a", 0)])));
    assert!(arta.accepts(&timed_word(&[("a", 1)])));
}

#[test]
fn parse_supports_formula_init_syntax() {
    let parsed = parse_arta_json_document(
        r#"{
          "name":"formula-init",
          "l":["q0","q1"],
          "sigma":["a"],
          "tran":{},
          "init":{"and":["q0","q1"]},
          "accept":["q1"]
        }"#,
    )
    .expect("formula init should parse");

    assert_eq!(parsed.name, "formula-init");
    assert_eq!(parsed.sigma, vec!["a".to_string()]);
    assert_eq!(parsed.arta.init().to_string(), "(loc(q0) & loc(q1))");
}

#[test]
fn writer_roundtrips_non_list_initial_formula() {
    let manager = DagStateFormulaManager::new();
    let q0 = LocationId::new("q0");
    let q1 = LocationId::new("q1");

    let init = DagStateFormula::and(
        &manager,
        vec![
            DagStateFormula::var(&manager, q0.clone()),
            DagStateFormula::var(&manager, q1.clone()),
        ],
    );
    let mut builder = ArtaBuilder::new(init);
    builder.add_location(q0);
    builder.add_location(q1.clone());
    builder.add_accepting(q1);

    let document = ParsedArtaJson {
        name: "bad-init".to_string(),
        sigma: vec!["a".to_string()],
        arta: builder.build().expect("ARTA should build"),
    };
    let doc = document.to_document();
    assert_eq!(
        doc.init,
        JsonInit::Formula(JsonFormula::And(vec![
            JsonFormula::Atom("q0".to_string()),
            JsonFormula::Atom("q1".to_string())
        ]))
    );
    let reloaded = doc.into_parsed_arta_json().expect("written document should parse");
    assert_eq!(reloaded.name, "bad-init");
    assert_eq!(reloaded.sigma, vec!["a".to_string()]);
    assert_eq!(reloaded.arta.init().to_string(), "(loc(q0) & loc(q1))");
}

#[test]
fn document_writer_preserves_explicit_sigma_even_when_unused() {
    let manager = DagStateFormulaManager::new();
    let q0 = LocationId::new("q0");
    let q1 = LocationId::new("q1");
    let init = DagStateFormula::var(&manager, q0.clone());
    let mut builder = ArtaBuilder::new(init);
    builder
        .add_location(q0.clone())
        .add_location(q1.clone())
        .add_accepting(q1.clone())
        .add_transition(
            q0,
            "a".to_string(),
            "[0,+)".parse().unwrap(),
            DagStateFormula::var(&manager, q1),
        );

    let document = ParsedArtaJson {
        name: "sigma-preserved".to_string(),
        sigma: vec!["a".to_string(), "z".to_string()],
        arta: builder.build().expect("ARTA should build"),
    };
    let doc = document.to_document();

    assert_eq!(doc.sigma, vec!["a".to_string(), "z".to_string()]);
    assert_eq!(doc.tran[0].1 .2, "[0,+)");
}
