//! The ARTA JSON document format, as values: reading a document into an
//! automaton and writing an automaton as a document.
//!
//! Reading accepts canonical documents and legacy ones whose transition
//! guards overlap; overlapping guards are canonicalized into an equivalent
//! deterministic automaton. Writing always gives the canonical form. The
//! text syntax itself (JSON) is handled where the bytes are read and
//! written.

use vstd::prelude::*;

use crate::arta::builder::{build_result, built_from, clash_at, pending_clash, referenced, references, BuilderModel, PendingModel};
use crate::arta::{
    bucket_edges, bucket_model, buckets_model, first_enabled, has_bucket, lemma_bucket_edges_at, lemma_first_enabled_none,
    lemma_first_enabled_unique, lemma_no_bucket_no_edges, Arta, ArtaBuilder, ArtaError, ArtaModel, EdgeModel,
};
use crate::dot::{ordered, render_order, strings_view, LabeledBucket};
use crate::error::IntervalError;
use crate::location::LocationId;
use crate::state_formula::formula::{all_sat, any_sat, occurs, occurs_any, sat, views_of, DagStateFormula, DagStateFormulaManager};
use crate::dot::{map_chars, ordered_disjuncts, sorted_disjuncts};
use crate::location::names_of;
use crate::symbol::Symbol;
use crate::state_formula::minimal_model::clauses_view;
use crate::text::{
    decimal, decimal_string, lemma_seq_lt_strict, lemma_sorted_insert, lemma_sorted_list_of, push_char, push_str,
    seq_lt, seq_lt_fn, sorted_by, sorted_list, str_eq, str_lt, strictly_sorted,
};
use crate::oracles::partition::{partition_half_unit_ranges, partition_ok, range_holds, covered, uniform_on, HalfUnitRange};
use crate::time::interval::{
    all_digits, interval_text, max_finite, parsed_bounds, spec_from_bounds, trimmed, Endpoint, Interval, IntervalModel,
};

verus! {

broadcast use vstd::std_specs::vec::axiom_vec_decreases_to_view;

/// A state formula as written in a document: a location name, a
/// conjunction or disjunction of at least two formulas, or a constant.
#[derive(Debug, PartialEq, Eq)]
pub enum JsonFormula {
    /// A location name.
    Atom(String),
    /// `{"and": [...]}`.
    And(Vec<JsonFormula>),
    /// `{"or": [...]}`.
    Or(Vec<JsonFormula>),
    /// `{"const": true|false}`.
    Const(bool),
}

/// The initial formula of a document: a list of locations (their
/// disjunction) or a formula.
#[derive(Debug, PartialEq, Eq)]
pub enum JsonInit {
    /// A non-empty list of location names.
    Locations(Vec<String>),
    /// A formula.
    Formula(JsonFormula),
}

/// Errors found in a document.
#[derive(Debug, PartialEq, Eq)]
#[non_exhaustive]
pub enum ArtaJsonError {
    /// Reading or writing the document's text failed.
    Io(String),
    /// The text is not a JSON document of the expected shape.
    Json(String),
    /// A transition uses a symbol not declared in `sigma`.
    UnknownSymbol {
        /// Where in the document.
        context: String,
        /// The undeclared symbol.
        symbol: String,
    },
    /// A transition identifier is not a decimal string.
    InvalidTransitionId {
        /// The identifier.
        id: String,
    },
    /// A guard text is not an interval.
    InvalidGuard {
        /// Where in the document.
        context: String,
        /// The guard text.
        guard: String,
        /// Why it was rejected.
        source: IntervalError,
    },
    /// An `and` or `or` with fewer than two operands.
    InvalidFormulaArity {
        /// Where in the document.
        context: String,
        /// `and` or `or`.
        operator: String,
        /// The number of operands.
        len: usize,
    },
    /// An `init` list without locations.
    EmptyInit,
    /// The initial formula cannot be written as a list of locations.
    UnsupportedInitFormula {
        /// The formula's text.
        formula: String,
    },
    /// The automaton described is invalid.
    Arta(ArtaError<String>),
}

/// `true` iff formula `j` holds when exactly the locations named in `val`
/// are true.
pub open spec fn json_sat(j: JsonFormula, val: Set<Seq<char>>) -> bool
    decreases j,
{
    match j {
        JsonFormula::Atom(n) => val.contains(n@),
        JsonFormula::Const(b) => b,
        JsonFormula::And(ts) => forall|i: int| 0 <= i < ts@.len() ==> json_sat(#[trigger] ts@[i], val),
        JsonFormula::Or(ts) => exists|i: int| 0 <= i < ts@.len() && json_sat(#[trigger] ts@[i], val),
    }
}

/// Location name `n` is an atom of formula `j`.
pub open spec fn json_occurs(j: JsonFormula, n: Seq<char>) -> bool
    decreases j,
{
    match j {
        JsonFormula::Atom(m) => m@ == n,
        JsonFormula::Const(_) => false,
        JsonFormula::And(ts) => exists|i: int| 0 <= i < ts@.len() && json_occurs(#[trigger] ts@[i], n),
        JsonFormula::Or(ts) => exists|i: int| 0 <= i < ts@.len() && json_occurs(#[trigger] ts@[i], n),
    }
}

/// The context of operand `i` of an `and` (`is_and`) or `or` at `ctx`.
pub open spec fn operand_context(ctx: Seq<char>, is_and: bool, i: int) -> Seq<char> {
    ctx + (if is_and {
        ".and["@
    } else {
        ".or["@
    }) + decimal(i as nat) + seq![']']
}

/// The first `and` or `or` with fewer than two operands in `j` (operands
/// visited in order, depth first): its context, whether it is an `and`, and
/// its number of operands.
pub open spec fn arity_error(j: JsonFormula, ctx: Seq<char>) -> Option<(Seq<char>, bool, nat)>
    decreases j, 1int, 0int,
{
    match j {
        JsonFormula::And(ts) => if ts@.len() < 2 {
            Some((ctx, true, ts@.len()))
        } else {
            operands_error(ts@, ctx, true, ts@.len() as int)
        },
        JsonFormula::Or(ts) => if ts@.len() < 2 {
            Some((ctx, false, ts@.len()))
        } else {
            operands_error(ts@, ctx, false, ts@.len() as int)
        },
        _ => None,
    }
}

/// The first arity error among the first `k` operands `ts`.
pub open spec fn operands_error(ts: Seq<JsonFormula>, ctx: Seq<char>, is_and: bool, k: int) -> Option<
    (Seq<char>, bool, nat),
>
    decreases ts, 0int, k,
{
    if k <= 0 || k > ts.len() {
        None
    } else {
        match operands_error(ts, ctx, is_and, k - 1) {
            Some(e) => Some(e),
            None => arity_error(ts[k - 1], operand_context(ctx, is_and, k - 1)),
        }
    }
}

/// The text of `and` or `or`.
fn operator_name(is_and: bool) -> (r: String)
    ensures
        r@ == (if is_and {
            "and"@
        } else {
            "or"@
        }),
{
    let mut s = String::new();
    if is_and {
        push_str(&mut s, "and");
    } else {
        push_str(&mut s, "or");
    }
    assert(s@ =~= (if is_and {
        "and"@
    } else {
        "or"@
    }));
    s
}

impl JsonFormula {
    /// The state formula written by `self`, whose context in the document
    /// is `context`.
    pub fn into_state_formula(&self, manager: &DagStateFormulaManager, context: &String) -> (r: Result<
        DagStateFormula,
        ArtaJsonError,
    >)
        ensures
            match arity_error(*self, context@) {
                Some((c, is_and, n)) => r matches Err(ArtaJsonError::InvalidFormulaArity { context: c2, operator: op, len })
                    && c2@ == c && len == n && op@ == (if is_and {
                    "and"@
                } else {
                    "or"@
                }),
                None => r matches Ok(f) && (forall|val: Set<Seq<char>>| sat(f@, val) == json_sat(*self, val)) && (
                forall|n: Seq<char>| #[trigger] occurs(f@, n) ==> json_occurs(*self, n)),
            },
        decreases self,
    {
        match self {
            JsonFormula::Atom(n) => {
                let l = LocationId::from_string(n.clone());
                let f = DagStateFormula::var(manager, l);
                assert(f@ == crate::state_formula::formula::Formula::Var(n@));
                Ok(f)
            },
            JsonFormula::Const(b) => {
                if *b {
                    Ok(DagStateFormula::top(manager))
                } else {
                    Ok(DagStateFormula::bot(manager))
                }
            },
            JsonFormula::And(ts) => {
                if ts.len() < 2 {
                    return Err(
                        ArtaJsonError::InvalidFormulaArity {
                            context: context.clone(),
                            operator: operator_name(true),
                            len: ts.len(),
                        },
                    );
                }
                match operands_into_formulas(ts, manager, context, true) {
                    Err(e) => Err(e),
                    Ok(terms) => {
                        let ghost tv = views_of(terms@);
                        let f = DagStateFormula::and(manager, terms);
                        proof {
                            assert forall|val: Set<Seq<char>>| sat(f@, val) == json_sat(*self, val) by {
                                assert forall|i: int| 0 <= i < tv.len() implies #[trigger] sat(tv[i], val) == json_sat(
                                    ts@[i],
                                    val,
                                ) by {
                                    assert(tv[i] == terms@[i]@);
                                }
                                if all_sat(tv, val) {
                                    assert forall|i: int| 0 <= i < ts@.len() implies json_sat(#[trigger] ts@[i], val) by {
                                        assert(sat(tv[i], val));
                                    }
                                }
                                if json_sat(*self, val) {
                                    assert forall|i: int| 0 <= i < tv.len() implies sat(#[trigger] tv[i], val) by {
                                        assert(json_sat(ts@[i], val));
                                    }
                                }
                            }

                            assert forall|n: Seq<char>| #[trigger] occurs(f@, n) implies json_occurs(*self, n) by {
                                let j = choose|j: int| 0 <= j < tv.len() && occurs(#[trigger] tv[j], n);
                                assert(tv[j] == terms@[j]@);
                                assert(json_occurs(ts@[j], n));
                            }
                        }
                        Ok(f)
                    },
                }
            },
            JsonFormula::Or(ts) => {
                if ts.len() < 2 {
                    return Err(
                        ArtaJsonError::InvalidFormulaArity {
                            context: context.clone(),
                            operator: operator_name(false),
                            len: ts.len(),
                        },
                    );
                }
                match operands_into_formulas(ts, manager, context, false) {
                    Err(e) => Err(e),
                    Ok(terms) => {
                        let ghost tv = views_of(terms@);
                        let f = DagStateFormula::or(manager, terms);
                        proof {
                            assert forall|val: Set<Seq<char>>| sat(f@, val) == json_sat(*self, val) by {
                                assert forall|i: int| 0 <= i < tv.len() implies #[trigger] sat(tv[i], val) == json_sat(
                                    ts@[i],
                                    val,
                                ) by {
                                    assert(tv[i] == terms@[i]@);
                                }
                                if any_sat(tv, val) {
                                    let i = choose|i: int| 0 <= i < tv.len() && sat(#[trigger] tv[i], val);
                                    assert(json_sat(ts@[i], val));
                                }
                                if json_sat(*self, val) {
                                    let i = choose|i: int| 0 <= i < ts@.len() && json_sat(#[trigger] ts@[i], val);
                                    assert(sat(tv[i], val));
                                }
                            }

                            assert forall|n: Seq<char>| #[trigger] occurs(f@, n) implies json_occurs(*self, n) by {
                                let j = choose|j: int| 0 <= j < tv.len() && occurs(#[trigger] tv[j], n);
                                assert(tv[j] == terms@[j]@);
                                assert(json_occurs(ts@[j], n));
                            }
                        }
                        Ok(f)
                    },
                }
            },
        }
    }
}

/// The state formulas of the operands `ts` of an `and` (`is_and`) or `or`
/// at `context`.
fn operands_into_formulas(
    ts: &Vec<JsonFormula>,
    manager: &DagStateFormulaManager,
    context: &String,
    is_and: bool,
) -> (r: Result<Vec<DagStateFormula>, ArtaJsonError>)
    ensures
        match operands_error(ts@, context@, is_and, ts@.len() as int) {
            Some((c, a, n)) => r matches Err(ArtaJsonError::InvalidFormulaArity { context: c2, operator: op, len })
                && c2@ == c && len == n && op@ == (if a {
                "and"@
            } else {
                "or"@
            }),
            None => r matches Ok(fs) && fs@.len() == ts@.len() && (forall|i: int, val: Set<Seq<char>>|
                0 <= i < ts@.len() ==> #[trigger] sat(fs@[i]@, val) == json_sat(ts@[i], val)) && (forall|
                i: int,
                n: Seq<char>,
            | 0 <= i < ts@.len() && #[trigger] occurs(fs@[i]@, n) ==> json_occurs(ts@[i], n)),
        },
    decreases ts,
{
    let mut fs: Vec<DagStateFormula> = Vec::new();
    let mut i: usize = 0;
    while i < ts.len()
        invariant
            i <= ts@.len(),
            fs@.len() == i,
            operands_error(ts@, context@, is_and, i as int) is None,
            forall|k: int, val: Set<Seq<char>>| 0 <= k < i ==> #[trigger] sat(fs@[k]@, val) == json_sat(ts@[k], val),
            forall|k: int, n: Seq<char>| 0 <= k < i && #[trigger] occurs(fs@[k]@, n) ==> json_occurs(ts@[k], n),
        decreases ts@.len() - i,
    {
        proof {
            assert(decreases_to!(ts => ts@[i as int]));
        }
        let mut ctx = context.clone();
        if is_and {
            push_str(&mut ctx, ".and[");
        } else {
            push_str(&mut ctx, ".or[");
        }
        let d = decimal_string(i as u64);
        push_str(&mut ctx, d.as_str());
        push_char(&mut ctx, ']');
        assert(ctx@ =~= operand_context(context@, is_and, i as int));
        match ts[i].into_state_formula(manager, &ctx) {
            Err(e) => {
                proof {
                    lemma_operands_error_prefix(ts@, context@, is_and, i as int + 1, ts@.len() as int);
                }
                return Err(e);
            },
            Ok(f) => {
                fs.push(f);
            },
        }
        i = i + 1;
    }
    Ok(fs)
}

/// An arity error among the first `k` operands is the first one among
/// more of them.
proof fn lemma_operands_error_prefix(ts: Seq<JsonFormula>, ctx: Seq<char>, is_and: bool, k: int, n: int)
    requires
        0 < k <= n <= ts.len(),
        operands_error(ts, ctx, is_and, k) is Some,
    ensures
        operands_error(ts, ctx, is_and, n) == operands_error(ts, ctx, is_and, k),
    decreases n - k,
{
    if n > k {
        lemma_operands_error_prefix(ts, ctx, is_and, k, n - 1);
    }
}

/// The disjunction of the locations of an `init` list; `EmptyInit` for an
/// empty list.
pub fn parse_init_locations(locations: &Vec<String>, manager: &DagStateFormulaManager) -> (r: Result<
    DagStateFormula,
    ArtaJsonError,
>)
    ensures
        locations@.len() == 0 <==> r == Err::<DagStateFormula, ArtaJsonError>(ArtaJsonError::EmptyInit),
        r is Ok <==> locations@.len() > 0,
        r matches Ok(f) ==> forall|val: Set<Seq<char>>|
            sat(f@, val) == exists|i: int| 0 <= i < locations@.len() && val.contains(#[trigger] locations@[i]@),
        r matches Ok(f) ==> forall|n: Seq<char>| #[trigger] occurs(f@, n) ==> strings_view(locations@).contains(n),
{
    if locations.len() == 0 {
        return Err(ArtaJsonError::EmptyInit);
    }
    let mut terms: Vec<DagStateFormula> = Vec::new();
    let mut i: usize = 0;
    while i < locations.len()
        invariant
            i <= locations@.len(),
            terms@.len() == i,
            forall|k: int| 0 <= k < i ==> #[trigger] terms@[k]@ == crate::state_formula::formula::Formula::Var(
                locations@[k]@,
            ),
        decreases locations@.len() - i,
    {
        let l = LocationId::from_string(locations[i].clone());
        terms.push(DagStateFormula::var(manager, l));
        i = i + 1;
    }
    let f = DagStateFormula::or(manager, terms);
    proof {
        assert forall|val: Set<Seq<char>>|
            sat(f@, val) == exists|i: int| 0 <= i < locations@.len() && val.contains(#[trigger] locations@[i]@) by {
            let tv = views_of(terms@);
            if any_sat(tv, val) {
                let k = choose|k: int| 0 <= k < tv.len() && sat(#[trigger] tv[k], val);
                assert(tv[k] == terms@[k]@);
                assert(val.contains(locations@[k]@));
            }
            if exists|i: int| 0 <= i < locations@.len() && val.contains(#[trigger] locations@[i]@) {
                let k = choose|k: int| 0 <= k < locations@.len() && val.contains(#[trigger] locations@[k]@);
                assert(tv[k] == terms@[k]@);
                assert(sat(tv[k], val));
            }
        }
        assert forall|n: Seq<char>| #[trigger] occurs(f@, n) implies strings_view(locations@).contains(n) by {
            let tv = views_of(terms@);
            let k = choose|k: int| 0 <= k < tv.len() && occurs(#[trigger] tv[k], n);
            assert(tv[k] == terms@[k]@);
            assert(strings_view(locations@)[k] == n);
        }
    }
    Ok(f)
}

/// A guard's character in a document: `∞` is written `+`.
pub open spec fn guard_char(c: char) -> Seq<char> {
    if c == '∞' {
        seq!['+']
    } else {
        seq![c]
    }
}

/// `guard_char` as a function value.
pub open spec fn guard_char_fn() -> spec_fn(char) -> Seq<char> {
    |c: char| guard_char(c)
}

/// The text of a guard in a document: the interval's text with `+` for
/// `∞`.
pub fn interval_to_json_guard(interval: &Interval) -> (r: String)
    ensures
        r@ == map_chars(interval_text(interval@), guard_char_fn()),
{
    let text = interval.to_string();
    let n = text.unicode_len();
    let mut out = String::new();
    let mut i: usize = 0;
    assert(out@ =~= map_chars(text@.take(0), guard_char_fn()));
    while i < n
        invariant
            n == text@.len(),
            i <= n,
            out@ == map_chars(text@.take(i as int), guard_char_fn()),
        decreases n - i,
    {
        let c = text.get_char(i);
        if c == '∞' {
            push_char(&mut out, '+');
        } else {
            push_char(&mut out, c);
        }
        proof {
            assert(text@.take(i + 1).drop_last() =~= text@.take(i as int));
            assert(out@ =~= map_chars(text@.take(i as int), guard_char_fn()) + guard_char(c));
        }
        i = i + 1;
    }
    assert(text@.take(n as int) =~= text@);
    out
}

/// The ordering key of a document formula.
pub open spec fn json_key(j: JsonFormula) -> Seq<char>
    decreases j, 1int, 0int,
{
    match j {
        JsonFormula::Atom(a) => "atom:"@ + a@,
        JsonFormula::Const(b) => "const:"@ + if b {
            "true"@
        } else {
            "false"@
        },
        JsonFormula::And(ts) => "and:"@ + joined_keys(ts@, ts@.len() as int),
        JsonFormula::Or(ts) => "or:"@ + joined_keys(ts@, ts@.len() as int),
    }
}

/// The keys of the first `k` formulas of `ts`, separated by `\x1f`.
pub open spec fn joined_keys(ts: Seq<JsonFormula>, k: int) -> Seq<char>
    decreases ts, 0int, k,
{
    if k <= 0 || k > ts.len() {
        Seq::empty()
    } else if k == 1 {
        json_key(ts[0])
    } else {
        joined_keys(ts, k - 1) + seq!['\x1f'] + json_key(ts[k - 1])
    }
}

impl JsonFormula {
    /// The ordering key of this formula: `atom:`, `const:`, `and:` or `or:`
    /// followed by the name, the value or the keys of the operands
    /// separated by `\x1f`.
    pub fn sort_key(&self) -> (r: String)
        ensures
            r@ == json_key(*self),
        decreases self,
    {
        let mut out = String::new();
        match self {
            JsonFormula::Atom(a) => {
                push_str(&mut out, "atom:");
                push_str(&mut out, a.as_str());
            },
            JsonFormula::Const(b) => {
                push_str(&mut out, "const:");
                if *b {
                    push_str(&mut out, "true");
                } else {
                    push_str(&mut out, "false");
                }
            },
            JsonFormula::And(ts) => {
                push_str(&mut out, "and:");
                let k = operand_keys(ts);
                push_str(&mut out, k.as_str());
            },
            JsonFormula::Or(ts) => {
                push_str(&mut out, "or:");
                let k = operand_keys(ts);
                push_str(&mut out, k.as_str());
            },
        }
        assert(out@ =~= json_key(*self));
        out
    }
}

/// The keys of the formulas of `ts`, separated by `\x1f`.
fn operand_keys(ts: &Vec<JsonFormula>) -> (r: String)
    ensures
        r@ == joined_keys(ts@, ts@.len() as int),
    decreases ts,
{
    let mut out = String::new();
    let mut i: usize = 0;
    while i < ts.len()
        invariant
            i <= ts@.len(),
            out@ == joined_keys(ts@, i as int),
        decreases ts@.len() - i,
    {
        proof {
            assert(decreases_to!(ts => ts@[i as int]));
        }
        if i > 0 {
            push_char(&mut out, '\x1f');
        }
        let k = ts[i].sort_key();
        push_str(&mut out, k.as_str());
        proof {
            if i == 0 {
                assert(out@ =~= joined_keys(ts@, 1));
            } else {
                assert(out@ =~= joined_keys(ts@, i as int + 1));
            }
        }
        i = i + 1;
    }
    out
}

/// `j` is the document formula of one clause: an atom for a single
/// location, else the `and` of its locations' atoms.
pub open spec fn clause_json(j: JsonFormula, c: Seq<Seq<char>>) -> bool {
    if c.len() == 1 {
        j matches JsonFormula::Atom(n) && n@ == c[0]
    } else {
        j matches JsonFormula::And(ts) && ts@.len() == c.len() && forall|i: int|
            0 <= i < c.len() ==> (#[trigger] ts@[i] matches JsonFormula::Atom(n) && n@ == c[i])
    }
}

/// `j` is the document formula of the clause list `ds`: `false` for no
/// clause, `true` when a clause is empty, the clause's formula for one
/// clause, else the `or` of the clauses' formulas in order.
pub open spec fn clauses_json(j: JsonFormula, ds: Seq<Seq<Seq<char>>>) -> bool {
    if ds.len() == 0 {
        j == JsonFormula::Const(false)
    } else if exists|i: int| 0 <= i < ds.len() && (#[trigger] ds[i]).len() == 0 {
        j == JsonFormula::Const(true)
    } else if ds.len() == 1 {
        clause_json(j, ds[0])
    } else {
        j matches JsonFormula::Or(ts) && ts@.len() == ds.len() && forall|i: int|
            0 <= i < ds.len() ==> clause_json(#[trigger] ts@[i], ds[i])
    }
}

/// The document formula of one clause.
fn clause_to_json(c: &Vec<LocationId>) -> (r: JsonFormula)
    requires
        c@.len() > 0,
    ensures
        clause_json(r, names_of(c@)),
{
    if c.len() == 1 {
        return JsonFormula::Atom(c[0].to_string());
    }
    let mut atoms: Vec<JsonFormula> = Vec::new();
    let mut i: usize = 0;
    while i < c.len()
        invariant
            i <= c@.len(),
            atoms@.len() == i,
            forall|k: int| 0 <= k < i ==> (#[trigger] atoms@[k] matches JsonFormula::Atom(n) && n@ == c@[k]@),
        decreases c@.len() - i,
    {
        atoms.push(JsonFormula::Atom(c[i].to_string()));
        i = i + 1;
    }
    JsonFormula::And(atoms)
}

impl JsonFormula {
    /// The document formula of `formula`: its distinct DNF clauses ordered
    /// by their joined location names.
    pub fn from_state_formula(formula: &DagStateFormula) -> (r: JsonFormula)
        ensures
            clauses_json(r, ordered_disjuncts(formula@, false)),
    {
        let ds = sorted_disjuncts(formula, false);
        let ghost dv = clauses_view(ds@);
        if ds.len() == 0 {
            return JsonFormula::Const(false);
        }
        let mut k: usize = 0;
        while k < ds.len()
            invariant
                dv == clauses_view(ds@),
                dv == ordered_disjuncts(formula@, false),
                k <= ds@.len(),
                forall|i: int| 0 <= i < k ==> dv[i].len() > 0,
            decreases ds@.len() - k,
        {
            assert(dv[k as int] == names_of(ds@[k as int]@));
            if ds[k].len() == 0 {
                assert(dv[k as int].len() == 0);
                return JsonFormula::Const(true);
            }
            k = k + 1;
        }
        assert(!exists|i: int| 0 <= i < dv.len() && (#[trigger] dv[i]).len() == 0);
        if ds.len() == 1 {
            assert(dv[0] == names_of(ds@[0]@));
            assert(dv[0].len() > 0);
            return clause_to_json(&ds[0]);
        }
        let mut items: Vec<JsonFormula> = Vec::new();
        let mut i: usize = 0;
        while i < ds.len()
            invariant
                dv == clauses_view(ds@),
                dv == ordered_disjuncts(formula@, false),
                i <= ds@.len(),
                forall|j: int| 0 <= j < dv.len() ==> dv[j].len() > 0,
                items@.len() == i,
                forall|j: int| 0 <= j < i ==> clause_json(#[trigger] items@[j], dv[j]),
            decreases ds@.len() - i,
        {
            assert(dv[i as int] == names_of(ds@[i as int]@));
            let item = clause_to_json(&ds[i]);
            items.push(item);
            i = i + 1;
        }
        JsonFormula::Or(items)
    }
}

/// The locations of an initial formula that is a disjunction of single
/// locations, in document order; `None` for any other formula.
pub fn legacy_init_locations_from_state_formula(formula: &DagStateFormula) -> (r: Option<Vec<String>>)
    ensures
        ({
            let ds = ordered_disjuncts(formula@, false);
            &&& r is None <==> (ds.len() == 0 || exists|i: int| 0 <= i < ds.len() && (#[trigger] ds[i]).len() != 1)
            &&& r matches Some(v) ==> v@.len() == ds.len() && forall|i: int|
                0 <= i < ds.len() ==> (#[trigger] v@[i])@ == ds[i][0]
        }),
{
    let ds = sorted_disjuncts(formula, false);
    let ghost dv = clauses_view(ds@);
    if ds.len() == 0 {
        assert(dv.len() == 0);
        return None;
    }
    let mut names: Vec<String> = Vec::new();
    let mut i: usize = 0;
    while i < ds.len()
        invariant
            dv == clauses_view(ds@),
            dv == ordered_disjuncts(formula@, false),
            i <= ds@.len(),
            names@.len() == i,
            forall|j: int| 0 <= j < i ==> (#[trigger] dv[j]).len() == 1,
            forall|j: int| 0 <= j < i ==> (#[trigger] names@[j])@ == dv[j][0],
        decreases ds@.len() - i,
    {
        assert(dv[i as int] == names_of(ds@[i as int]@));
        if ds[i].len() != 1 {
            assert(dv[i as int].len() != 1);
            return None;
        }
        let n = ds[i][0].to_string();
        assert(ds@[i as int]@.len() == 1);
        assert(names_of(ds@[i as int]@).len() == 1);
        assert(dv[i as int].len() == 1);
        assert(n@ == dv[i as int][0]);
        let ghost prev = names@;
        names.push(n);
        assert forall|j: int| 0 <= j < i + 1 implies (#[trigger] names@[j])@ == dv[j][0] by {
            if j < i {
                assert(names@[j] == prev[j]);
            } else {
                assert(names@[j] == n);
            }
        }
        i = i + 1;
    }
    assert(forall|j: int| 0 <= j < dv.len() ==> (#[trigger] dv[j]).len() == 1);
    Some(names)
}

impl JsonInit {
    /// The document form of an initial formula: a list of locations when it
    /// is a disjunction of single locations, else a formula.
    pub fn from_state_formula(formula: &DagStateFormula) -> (r: JsonInit)
        ensures
            ({
                let ds = ordered_disjuncts(formula@, false);
                if ds.len() > 0 && forall|i: int| 0 <= i < ds.len() ==> (#[trigger] ds[i]).len() == 1 {
                    r matches JsonInit::Locations(v) && v@.len() == ds.len() && forall|i: int|
                        0 <= i < ds.len() ==> (#[trigger] v@[i])@ == ds[i][0]
                } else {
                    r matches JsonInit::Formula(j) && clauses_json(j, ds)
                }
            }),
    {
        match legacy_init_locations_from_state_formula(formula) {
            Some(v) => JsonInit::Locations(v),
            None => JsonInit::Formula(JsonFormula::from_state_formula(formula)),
        }
    }

    /// The initial state formula this stands for.
    pub fn into_state_formula(&self, manager: &DagStateFormulaManager) -> (r: Result<DagStateFormula, ArtaJsonError>)
        ensures
            match self {
                JsonInit::Locations(v) => (v@.len() == 0 <==> r == Err::<DagStateFormula, ArtaJsonError>(
                    ArtaJsonError::EmptyInit,
                )) && (r is Ok <==> v@.len() > 0) && (r matches Ok(f) ==> forall|val: Set<Seq<char>>|
                    sat(f@, val) == exists|i: int| 0 <= i < v@.len() && val.contains(#[trigger] v@[i]@)),
                JsonInit::Formula(j) => match arity_error(*j, "init"@) {
                    Some((c, is_and, n)) => r matches Err(
                        ArtaJsonError::InvalidFormulaArity { context: c2, operator: op, len },
                    ) && c2@ == c && len == n && op@ == (if is_and {
                        "and"@
                    } else {
                        "or"@
                    }),
                    None => r matches Ok(f) && forall|val: Set<Seq<char>>| sat(f@, val) == json_sat(*j, val),
                },
            },
            r matches Ok(f) ==> forall|n: Seq<char>| #[trigger] occurs(f@, n) ==> init_occurs(*self, n),
    {
        match self {
            JsonInit::Locations(v) => parse_init_locations(v, manager),
            JsonInit::Formula(j) => {
                let mut ctx = String::new();
                push_str(&mut ctx, "init");
                assert(ctx@ =~= "init"@);
                j.into_state_formula(manager, &ctx)
            },
        }
    }
}

/// One transition of a document: source location, symbol, guard text and
/// target formula.
#[derive(Debug, PartialEq, Eq)]
pub struct JsonTransition(pub String, pub String, pub String, pub JsonFormula);

/// A document: name, locations, alphabet, transitions by identifier,
/// initial formula and accepting locations.
#[derive(Debug, PartialEq, Eq)]
pub struct ArtaDocument {
    /// Human-readable name of the automaton.
    pub name: String,
    /// Location names.
    pub l: Vec<String>,
    /// Declared alphabet.
    pub sigma: Vec<String>,
    /// Transitions with their identifiers, in identifier order.
    pub tran: Vec<(String, JsonTransition)>,
    /// Initial formula.
    pub init: JsonInit,
    /// Accepting location names.
    pub accept: Vec<String>,
}

/// A parsed document: its name and declared alphabet, and the automaton.
#[derive(Debug)]
pub struct ParsedArtaJson {
    /// Human-readable name of the automaton.
    pub name: String,
    /// Declared alphabet.
    pub sigma: Vec<String>,
    /// The automaton.
    pub arta: Arta<String>,
}

/// The symbols of the buckets of `m`, as their own labels.
pub open spec fn key_labels(m: ArtaModel) -> Seq<Seq<char>> {
    Seq::new(m.buckets.len(), |i: int| m.buckets[i].1)
}

/// An edge with its bucket's location and symbol.
pub type DocEdge = (Seq<char>, Seq<char>, EdgeModel);

/// The edges of a bucket, in order.
pub open spec fn bucket_doc_edges(lb: LabeledBucket) -> Seq<DocEdge> {
    Seq::new(lb.0.2.len(), |k: int| (lb.0.0, lb.0.1, lb.0.2[k]))
}

/// The edges of the buckets of `order`, in order.
pub open spec fn doc_edges(order: Seq<LabeledBucket>) -> Seq<DocEdge>
    decreases order.len(),
{
    if order.len() == 0 {
        Seq::empty()
    } else {
        doc_edges(order.drop_last()) + bucket_doc_edges(order.last())
    }
}

/// The edges of `m` in document order: buckets by location name and
/// symbol, each bucket's edges by guard.
pub open spec fn document_edges(m: ArtaModel) -> Seq<DocEdge> {
    doc_edges(render_order(m, key_labels(m)))
}

/// `t` is the document transition of edge `e`.
pub open spec fn transition_json(t: JsonTransition, e: DocEdge) -> bool {
    &&& t.0@ == e.0
    &&& t.1@ == e.1
    &&& t.2@ == map_chars(interval_text(e.2.0), guard_char_fn())
    &&& clauses_json(t.3, ordered_disjuncts(e.2.1, false))
}

/// `init` is the document form of the initial formula `f`.
pub open spec fn init_json(init: JsonInit, f: crate::state_formula::formula::Formula) -> bool {
    let ds = ordered_disjuncts(f, false);
    if ds.len() > 0 && forall|i: int| 0 <= i < ds.len() ==> (#[trigger] ds[i]).len() == 1 {
        init matches JsonInit::Locations(v) && v@.len() == ds.len() && forall|i: int|
            0 <= i < ds.len() ==> (#[trigger] v@[i])@ == ds[i][0]
    } else {
        init matches JsonInit::Formula(j) && clauses_json(j, ds)
    }
}

/// The names of a list of locations, as strings.
fn location_names(locs: &[LocationId]) -> (r: Vec<String>)
    ensures
        strings_view(r@) == names_of(locs@),
{
    let mut r: Vec<String> = Vec::new();
    let mut i: usize = 0;
    while i < locs.len()
        invariant
            i <= locs@.len(),
            strings_view(r@) == names_of(locs@).take(i as int),
        decreases locs@.len() - i,
    {
        let ghost prev = r@;
        r.push(locs[i].to_string());
        assert(strings_view(r@) =~= strings_view(prev).push(locs@[i as int]@));
        assert(names_of(locs@).take(i + 1) =~= names_of(locs@).take(i as int).push(locs@[i as int]@));
        i = i + 1;
    }
    assert(names_of(locs@).take(i as int) =~= names_of(locs@));
    r
}

impl ArtaDocument {
    /// The canonical document of `arta` under `name` with alphabet
    /// `sigma`: locations and accepting locations sorted, transitions by
    /// location, symbol and guard, numbered from `0`.
    pub fn from_parts(arta: &Arta<String>, name: &str, sigma: Vec<String>) -> (r: ArtaDocument)
        ensures
            r.name@ == name@,
            strings_view(r.l@) == arta@.locations,
            strings_view(r.accept@) == arta@.accepting,
            r.sigma == sigma,
            init_json(r.init, arta@.init),
            r.tran@.len() == document_edges(arta@).len(),
            forall|i: int|
                0 <= i < r.tran@.len() ==> (#[trigger] r.tran@[i]).0@ == decimal(i as nat) && transition_json(
                    r.tran@[i].1,
                    document_edges(arta@)[i],
                ),
    {
        let ghost m = arta@;
        let l = location_names(arta.locations());
        let accept = location_names(arta.accepting());
        let init = JsonInit::from_state_formula(arta.init());
        let ts = arta.transitions();
        let mut labels: Vec<String> = Vec::new();
        let mut i: usize = 0;
        while i < ts.len()
            invariant
                buckets_model(ts@) == m.buckets,
                i <= ts@.len(),
                strings_view(labels@) == key_labels(m).take(i as int),
            decreases ts@.len() - i,
        {
            let ghost prev = labels@;
            labels.push(ts[i].0.1.clone());
            proof {
                assert(bucket_model(ts@[i as int]).1 == ts@[i as int].0.1@);
                assert(strings_view(labels@) =~= strings_view(prev).push(ts@[i as int].0.1@));
                assert(key_labels(m).take(i + 1) =~= key_labels(m).take(i as int).push(m.buckets[i as int].1));
            }
            i = i + 1;
        }
        assert(key_labels(m).take(i as int) =~= key_labels(m));
        let order = arta.bucket_order(&labels);
        let ghost ord = render_order(m, key_labels(m));
        let mut tran: Vec<(String, JsonTransition)> = Vec::new();
        let mut p: usize = 0;
        assert(doc_edges(ord.take(0)) =~= Seq::<DocEdge>::empty());
        while p < order.len()
            invariant
                m == arta@,
                buckets_model(ts@) == m.buckets,
                labels@.len() == m.buckets.len(),
                ord == ordered(m, key_labels(m), order@),
                forall|k: int| 0 <= k < order@.len() ==> #[trigger] order@[k] < m.buckets.len(),
                p <= order@.len(),
                tran@.len() == doc_edges(ord.take(p as int)).len(),
                forall|k: int|
                    0 <= k < tran@.len() ==> (#[trigger] tran@[k]).0@ == decimal(k as nat) && transition_json(
                        tran@[k].1,
                        doc_edges(ord.take(p as int))[k],
                    ),
            decreases order@.len() - p,
        {
            let bi = order[p];
            assert(order@[p as int] < m.buckets.len());
            let ghost lb = ord[p as int];
            let ghost before = doc_edges(ord.take(p as int));
            let ghost bes = bucket_doc_edges(lb);
            proof {
                assert(lb == (m.buckets[bi as int], key_labels(m)[bi as int]));
                assert(bucket_model(ts@[bi as int]) == m.buckets[bi as int]);
                let t = ord.take(p + 1);
                assert(t.drop_last() =~= ord.take(p as int));
                assert(t.last() == lb);
            }
            let edges = &ts[bi].1;
            let mut e: usize = 0;
            while e < edges.len()
                invariant
                    bi < ts@.len(),
                    edges@ == ts@[bi as int].1@,
                    bes == bucket_doc_edges(lb),
                    lb.0 == bucket_model(ts@[bi as int]),
                    e <= edges@.len(),
                    tran@.len() == before.len() + e,
                    forall|k: int|
                        0 <= k < tran@.len() ==> (#[trigger] tran@[k]).0@ == decimal(k as nat) && transition_json(
                            tran@[k].1,
                            (before + bes)[k],
                        ),
                decreases edges@.len() - e,
            {
                let ghost k0 = tran@.len() as int;
                let id = decimal_string(tran.len() as u64);
                let src = ts[bi].0.0.to_string();
                let sym = ts[bi].0.1.clone();
                let guard = interval_to_json_guard(&edges[e].guard);
                let target = JsonFormula::from_state_formula(&edges[e].target);
                proof {
                    assert((before + bes)[k0] == bes[e as int]);
                    assert(bes[e as int] == (lb.0.0, lb.0.1, lb.0.2[e as int]));
                    assert(lb.0.2[e as int] == (edges@[e as int].guard@, edges@[e as int].target@));
                }
                let ghost prev = tran@;
                tran.push((id, JsonTransition(src, sym, guard, target)));
                proof {
                    assert forall|k: int|
                        0 <= k < tran@.len() implies (#[trigger] tran@[k]).0@ == decimal(k as nat) && transition_json(
                        tran@[k].1,
                        (before + bes)[k],
                    ) by {
                        if k < k0 {
                            assert(tran@[k] == prev[k]);
                        }
                    }
                }
                e = e + 1;
            }
            proof {
                assert(doc_edges(ord.take(p + 1)) =~= before + bes);
            }
            p = p + 1;
        }
        assert(ord.take(p as int) =~= ord);
        ArtaDocument { name: name.to_string(), l, sigma, tran, init, accept }
    }
}

/// The symbols used by the transitions of `m`, as a set.
pub open spec fn used_symbols(m: ArtaModel) -> Set<Seq<char>> {
    Set::new(|a: Seq<char>| exists|i: int| 0 <= i < m.buckets.len() && #[trigger] m.buckets[i].1 == a)
}

/// The symbols used by the transitions of `arta`, sorted and without
/// repeats.
pub fn infer_sigma(arta: &Arta<String>) -> (r: Vec<String>)
    ensures
        strings_view(r@) == sorted_list(used_symbols(arta@)),
{
    let ghost m = arta@;
    let ts = arta.transitions();
    let mut r: Vec<String> = Vec::new();
    let mut i: usize = 0;
    proof {
        lemma_seq_lt_strict();
    }
    assert(strings_view(r@).to_set() =~= Set::<Seq<char>>::empty());
    while i < ts.len()
        invariant
            buckets_model(ts@) == m.buckets,
            i <= ts@.len(),
            strictly_sorted(strings_view(r@)),
            strings_view(r@).to_set() == Set::new(
                |a: Seq<char>| exists|j: int| 0 <= j < i && #[trigger] m.buckets[j].1 == a,
            ),
        decreases ts@.len() - i,
    {
        let sym = &ts[i].0.1;
        proof {
            assert(bucket_model(ts@[i as int]).1 == sym@);
        }
        let ghost rv = strings_view(r@);
        let mut pos: usize = 0;
        while pos < r.len() && str_lt(r[pos].as_str(), sym.as_str())
            invariant
                rv == strings_view(r@),
                pos <= r@.len(),
                forall|j: int| 0 <= j < pos ==> seq_lt(#[trigger] rv[j], sym@),
            decreases r@.len() - pos,
        {
            pos = pos + 1;
        }
        let ghost new_set = Set::new(|a: Seq<char>| exists|j: int| 0 <= j < i + 1 && #[trigger] m.buckets[j].1 == a);
        assert(new_set =~= rv.to_set().insert(sym@)) by {
            assert forall|a: Seq<char>| new_set.contains(a) implies rv.to_set().insert(sym@).contains(a) by {
                let j = choose|j: int| 0 <= j < i + 1 && #[trigger] m.buckets[j].1 == a;
                if j < i {
                    assert(Set::new(|a: Seq<char>| exists|j: int| 0 <= j < i && #[trigger] m.buckets[j].1 == a).contains(a));
                }
            }
            assert forall|a: Seq<char>| rv.to_set().insert(sym@).contains(a) implies new_set.contains(a) by {
                if a != sym@ {
                    assert(Set::new(|a: Seq<char>| exists|j: int| 0 <= j < i && #[trigger] m.buckets[j].1 == a).contains(a));
                    let j = choose|j: int| 0 <= j < i && #[trigger] m.buckets[j].1 == a;
                    assert(0 <= j < i + 1 && m.buckets[j].1 == a);
                } else {
                    assert(m.buckets[i as int].1 == a);
                }
            }
        }
        if pos < r.len() && str_eq(r[pos].as_str(), sym.as_str()) {
            proof {
                assert(rv[pos as int] == sym@);
                assert(rv.to_set().contains(sym@));
                assert(rv.to_set().insert(sym@) =~= rv.to_set());
            }
        } else {
            proof {
                if pos < r@.len() {
                    lemma_seq_lt_total_names(rv[pos as int], sym@);
                }
                lemma_seq_lt_strict();
                assert(strictly_sorted(rv) == sorted_by(rv, seq_lt_fn()));
                lemma_sorted_insert(rv, pos as int, sym@, seq_lt_fn());
            }
            let ghost prev = r@;
            r.insert(pos, sym.clone());
            proof {
                assert(strings_view(r@) =~= rv.insert(pos as int, sym@));
                assert(strictly_sorted(strings_view(r@)) == sorted_by(strings_view(r@), seq_lt_fn()));
            }
        }
        i = i + 1;
    }
    proof {
        assert(used_symbols(m) =~= Set::new(
            |a: Seq<char>| exists|j: int| 0 <= j < i && #[trigger] m.buckets[j].1 == a,
        ));
        lemma_sorted_list_of(strings_view(r@));
    }
    r
}

/// Two different names are ordered one way or the other.
proof fn lemma_seq_lt_total_names(a: Seq<char>, b: Seq<char>)
    requires
        !seq_lt(a, b),
        a != b,
    ensures
        seq_lt(b, a),
{
    crate::text::lemma_seq_lt_total(a, b);
}

impl ParsedArtaJson {
    /// The canonical document of this parsed document: its automaton under
    /// its name and declared alphabet.
    pub fn to_document(&self) -> (r: ArtaDocument)
        ensures
            r.name@ == self.name@,
            strings_view(r.l@) == self.arta@.locations,
            strings_view(r.accept@) == self.arta@.accepting,
            strings_view(r.sigma@) == strings_view(self.sigma@),
            init_json(r.init, self.arta@.init),
            r.tran@.len() == document_edges(self.arta@).len(),
            forall|i: int|
                0 <= i < r.tran@.len() ==> (#[trigger] r.tran@[i]).0@ == decimal(i as nat) && transition_json(
                    r.tran@[i].1,
                    document_edges(self.arta@)[i],
                ),
    {
        let mut sigma: Vec<String> = Vec::new();
        let mut i: usize = 0;
        while i < self.sigma.len()
            invariant
                i <= self.sigma@.len(),
                strings_view(sigma@) == strings_view(self.sigma@).take(i as int),
            decreases self.sigma@.len() - i,
        {
            let ghost prev = sigma@;
            sigma.push(self.sigma[i].clone());
            assert(strings_view(sigma@) =~= strings_view(prev).push(self.sigma@[i as int]@));
            assert(strings_view(self.sigma@).take(i + 1) =~= strings_view(self.sigma@).take(i as int).push(
                self.sigma@[i as int]@,
            ));
            i = i + 1;
        }
        assert(strings_view(self.sigma@).take(i as int) =~= strings_view(self.sigma@));
        ArtaDocument::from_parts(&self.arta, self.name.as_str(), sigma)
    }
}

/// A transition read from a document, before its bucket is made
/// deterministic.
struct ParsedJsonTransition {
    source: LocationId,
    symbol: String,
    guard: Interval,
    target: DagStateFormula,
}

/// Some transition of `ts` has `h` in its guard.
spec fn guards_cover(ts: Seq<ParsedJsonTransition>, h: int) -> bool {
    exists|i: int| 0 <= i < ts.len() && #[trigger] ts[i].guard@.has(h)
}

/// Some transition of `ts` with `h` in its guard has a target that holds in
/// `val`.
spec fn targets_hold(ts: Seq<ParsedJsonTransition>, h: int, val: Set<Seq<char>>) -> bool {
    exists|i: int| 0 <= i < ts.len() && #[trigger] ts[i].guard@.has(h) && sat(ts[i].target@, val)
}

/// `out` is a deterministic form of the transitions `ts` for delays below
/// `limit` (in half units): valid, pairwise disjoint guards that cover the
/// same delays, and at each delay a target that holds exactly when one of
/// the targets of `ts` enabled there holds.
spec fn canonical_below(out: Seq<ParsedJsonTransition>, ts: Seq<ParsedJsonTransition>, limit: int) -> bool {
    &&& forall|j: int| 0 <= j < out.len() ==> (#[trigger] out[j]).guard@.wf() && out[j].guard@.has_witness()
    &&& forall|j: int, k: int, h: int|
        #![trigger out[j].guard@.has(h), out[k].guard@.has(h)]
        0 <= j < k < out.len() && 0 <= h <= max_finite() ==> !(out[j].guard@.has(h) && out[k].guard@.has(h))
    &&& forall|h: int| 0 <= h <= max_finite() && h < limit ==> (#[trigger] guards_cover(out, h) <==> guards_cover(ts, h))
    &&& forall|j: int, h: int, val: Set<Seq<char>>|
        0 <= j < out.len() && 0 <= h <= max_finite() && h < limit && #[trigger] out[j].guard@.has(h) ==> (
        sat(out[j].target@, val) <==> #[trigger] targets_hold(ts, h, val))
}

/// `f` is the target of one of the first `k` transitions of `ts` whose
/// range holds `start`.
spec fn enabled_target(
    ranges: Seq<HalfUnitRange>,
    ts: Seq<ParsedJsonTransition>,
    start: int,
    k: int,
    f: crate::state_formula::formula::Formula,
) -> bool {
    exists|y: int| 0 <= y < k && range_holds(ranges[y], start) && f == #[trigger] ts[y].target@
}

/// The least count of cell `c`, or one past the largest finite count when
/// there is no such cell.
spec fn cell_limit(cells: Seq<HalfUnitRange>, c: int) -> int {
    if c < cells.len() {
        cells[c].start as int
    } else {
        max_finite() + 1
    }
}

/// The first cell of a partition starts at zero.
proof fn lemma_first_cell(input: Seq<HalfUnitRange>, cells: Seq<HalfUnitRange>)
    requires
        partition_ok(input, cells),
    ensures
        cells[0].start == 0,
{
    assert(covered(cells, 0));
    let j = choose|j: int| 0 <= j < cells.len() && range_holds(#[trigger] cells[j], 0);
    if j > 0 {
        assert(cells[0].end is Some && cells[0].end->Some_0 < cells[j].start);
    }
}

/// The cell of a partition that follows cell `c` starts after every
/// count of cell `c`, and a count between the starts of cells `c` and
/// `c + 1` lies in cell `c`.
proof fn lemma_cell_bounds(input: Seq<HalfUnitRange>, cells: Seq<HalfUnitRange>, c: int, h: int)
    requires
        partition_ok(input, cells),
        0 <= c < cells.len(),
        0 <= h <= max_finite(),
    ensures
        range_holds(cells[c], h) && c + 1 < cells.len() ==> h < cells[c + 1].start,
        cells[c].start <= h && (c + 1 == cells.len() || h < cells[c + 1].start) ==> range_holds(cells[c], h),
        range_holds(cells[c], h) ==> forall|d: int| c < d < cells.len() ==> h < (#[trigger] cells[d]).start,
{
    assert forall|d: int| c < d < cells.len() implies (range_holds(cells[c], h) ==> h < (#[trigger] cells[d]).start) by {
        assert(cells[c].end is Some && cells[c].end->Some_0 < cells[d].start);
    }
    if cells[c].start <= h && (c + 1 == cells.len() || h < cells[c + 1].start) {
        assert(covered(cells, h));
        let j = choose|j: int| 0 <= j < cells.len() && range_holds(#[trigger] cells[j], h);
        if j < c {
            assert(cells[j].end is Some && cells[j].end->Some_0 < cells[c].start);
        } else if j > c {
            if j > c + 1 {
                assert(cells[c + 1].end is Some && cells[c + 1].end->Some_0 < cells[j].start);
            }
        }
    }
}

/// The half-unit range of a valid guard with a witness: its counts up to
/// the largest finite one.
fn guard_range(g: &Interval) -> (r: HalfUnitRange)
    requires
        g@.wf(),
        g@.has_witness(),
    ensures
        forall|h: int| 0 <= h <= max_finite() ==> (range_holds(r, h) <==> g@.has(h)),
        r.start <= max_finite(),
{
    match g.representable_half_range() {
        Some((start, end)) => {
            let e: Option<u64> = match end {
                Some(x) => Some(x as u64),
                None => None,
            };
            HalfUnitRange { start: start as u64, end: e }
        },
        None => {
            proof {
                assert(false);
            }
            HalfUnitRange { start: 0, end: None }
        },
    }
}

/// Append `t` to `out`, or widen the last transition of `out` when it has
/// the same target and a guard that meets `t`'s.
fn push_or_merge_transition(out: &mut Vec<ParsedJsonTransition>, t: ParsedJsonTransition)
    requires
        t.guard@.wf(),
        forall|j: int| 0 <= j < old(out)@.len() ==> (#[trigger] old(out)@[j]).guard@.wf(),
    ensures
        final(out)@ == old(out)@.push(t) || (old(out)@.len() > 0 && final(out)@.len() == old(out)@.len()
            && final(out)@.drop_last() == old(out)@.drop_last() && ({
            let last = old(out)@.last();
            let merged = final(out)@.last();
            &&& merged.source == last.source
            &&& merged.symbol == last.symbol
            &&& merged.target@ == last.target@
            &&& merged.target@ == t.target@
            &&& merged.guard@.wf()
            &&& forall|h: int| #[trigger] merged.guard@.has(h) <==> (last.guard@.has(h) || t.guard@.has(h))
        })),
{
    let n = out.len();
    if n > 0 && out[n - 1].target.same(&t.target) {
        match out[n - 1].guard.try_merge_adjacent(&t.guard) {
            Some(m) => {
                let ghost before = out@;
                let last = out.pop().unwrap();
                out.push(ParsedJsonTransition { source: last.source, symbol: last.symbol, guard: m, target: last.target });
                assert(out@.drop_last() =~= before.drop_last());
                return;
            },
            None => {},
        }
    }
    out.push(t);
}

/// Location name `n` occurs in the target of one of `ts`.
spec fn target_occurs(ts: Seq<ParsedJsonTransition>, n: Seq<char>) -> bool {
    exists|y: int| 0 <= y < ts.len() && occurs(#[trigger] ts[y].target@, n)
}

/// The transitions of one bucket made deterministic: the delays are cut at
/// every guard boundary, each piece gets the disjunction of the targets
/// enabled there, and neighbouring pieces with the same target are merged.
#[verifier::rlimit(60)]
fn canonicalize_transition_bucket(manager: &DagStateFormulaManager, ts: &Vec<ParsedJsonTransition>) -> (r: Vec<
    ParsedJsonTransition,
>)
    requires
        forall|i: int| 0 <= i < ts@.len() ==> (#[trigger] ts@[i]).guard@.wf() && ts@[i].guard@.has_witness(),
    ensures
        canonical_below(r@, ts@, max_finite() + 1),
        ts@.len() == 0 ==> r@.len() == 0,
        forall|j: int|
            0 <= j < r@.len() ==> (#[trigger] r@[j]).source@ == ts@[0].source@ && r@[j].symbol@ == ts@[0].symbol@,
        forall|j: int, n: Seq<char>|
            0 <= j < r@.len() && #[trigger] occurs(r@[j].target@, n) ==> target_occurs(ts@, n),
{
    let mut out: Vec<ParsedJsonTransition> = Vec::new();
    if ts.len() == 0 {
        return out;
    }
    let mut ranges: Vec<HalfUnitRange> = Vec::new();
    let mut i: usize = 0;
    while i < ts.len()
        invariant
            forall|k: int| 0 <= k < ts@.len() ==> (#[trigger] ts@[k]).guard@.wf() && ts@[k].guard@.has_witness(),
            i <= ts@.len(),
            ranges@.len() == i,
            forall|k: int, h: int|
                0 <= k < i && 0 <= h <= max_finite() ==> (#[trigger] range_holds(ranges@[k], h) <==> ts@[k].guard@.has(
                    h,
                )),
        decreases ts@.len() - i,
    {
        let r = guard_range(&ts[i].guard);
        ranges.push(r);
        i = i + 1;
    }
    let cells = partition_half_unit_ranges(ranges.as_slice());
    proof {
        lemma_first_cell(ranges@, cells@);
    }
    let mut c: usize = 0;
    while c < cells.len()
        invariant
            ts@.len() > 0,
            forall|k: int| 0 <= k < ts@.len() ==> (#[trigger] ts@[k]).guard@.wf() && ts@[k].guard@.has_witness(),
            ranges@.len() == ts@.len(),
            forall|k: int, h: int|
                0 <= k < ts@.len() && 0 <= h <= max_finite() ==> (#[trigger] range_holds(ranges@[k], h)
                    <==> ts@[k].guard@.has(h)),
            partition_ok(ranges@, cells@),
            c <= cells@.len(),
            canonical_below(out@, ts@, cell_limit(cells@, c as int)),
            forall|j: int, h: int|
                0 <= j < out@.len() && 0 <= h <= max_finite() && #[trigger] out@[j].guard@.has(h) ==> h < cell_limit(
                    cells@,
                    c as int,
                ),
            forall|j: int|
                0 <= j < out@.len() ==> (#[trigger] out@[j]).source@ == ts@[0].source@ && out@[j].symbol@
                    == ts@[0].symbol@,
            forall|j: int, n: Seq<char>|
                0 <= j < out@.len() && #[trigger] occurs(out@[j].target@, n) ==> target_occurs(ts@, n),
        decreases cells@.len() - c,
    {
        let cell = cells[c];
        proof {
            assert(cells@[c as int] == cell);
        }
        let mut active: Vec<DagStateFormula> = Vec::new();
        let mut k: usize = 0;
        while k < ts.len()
            invariant
                ranges@.len() == ts@.len(),
                k <= ts@.len(),
                forall|x: int|
                    0 <= x < active@.len() ==> #[trigger] enabled_target(ranges@, ts@, cell.start as int, k as int, active@[x]@),
                forall|y: int| 0 <= y < k && range_holds(#[trigger] ranges@[y], cell.start as int) ==> exists|x: int|
                    0 <= x < active@.len() && (#[trigger] active@[x])@ == ts@[y].target@,
            decreases ts@.len() - k,
        {
            let ghost prev = active@;
            if ranges[k].contains_half_units(cell.start) {
                active.push(ts[k].target.duplicate());
                proof {
                    assert forall|y: int| 0 <= y < k + 1 && range_holds(#[trigger] ranges@[y], cell.start as int) implies exists|x: int|
                        0 <= x < active@.len() && (#[trigger] active@[x])@ == ts@[y].target@ by {
                        if y < k {
                            let x = choose|x: int| 0 <= x < prev.len() && (#[trigger] prev[x])@ == ts@[y].target@;
                            assert(active@[x] == prev[x]);
                        } else {
                            assert(active@[prev.len() as int]@ == ts@[y].target@);
                        }
                    }
                }
            }
            proof {
                assert forall|x: int| 0 <= x < active@.len() implies #[trigger] enabled_target(
                    ranges@,
                    ts@,
                    cell.start as int,
                    k + 1,
                    active@[x]@,
                ) by {
                    if x < prev.len() {
                        assert(active@[x] == prev[x]);
                        assert(enabled_target(ranges@, ts@, cell.start as int, k as int, prev[x]@));
                        let y = choose|y: int|
                            0 <= y < k && range_holds(ranges@[y], cell.start as int) && prev[x]@ == #[trigger] ts@[y].target@;
                        assert(ts@[y].target@ == ts@[y].target@);
                    } else {
                        assert(range_holds(ranges@[k as int], cell.start as int));
                        assert(active@[x]@ == ts@[k as int].target@);
                        assert(ts@[k as int].target@ == ts@[k as int].target@);
                    }
                }
            }
            k = k + 1;
        }
        let ghost cstart = cell.start as int;
        let ghost next = cell_limit(cells@, c + 1);
        proof {
            // every count of this cell is enabled by the same transitions
            assert forall|y: int, h: int|
                0 <= y < ts@.len() && 0 <= h <= max_finite() && range_holds(cell, h) implies (#[trigger] ts@[y].guard@.has(
                h,
            ) <==> range_holds(ranges@[y], cstart)) by {
                assert(uniform_on(cells@[c as int], ranges@[y], h, cstart));
            }
            assert forall|h: int| 0 <= h <= max_finite() implies (cell_limit(cells@, c as int) <= h && h < next <==> range_holds(cell, h)) by {
                lemma_cell_bounds(ranges@, cells@, c as int, h);
            }
        }
        if active.len() == 0 {
            proof {
                assert forall|h: int| 0 <= h <= max_finite() && h < next implies (#[trigger] guards_cover(out@, h)
                    <==> guards_cover(ts@, h)) by {
                    if h >= cell_limit(cells@, c as int) {
                        if guards_cover(ts@, h) {
                            let y = choose|y: int| 0 <= y < ts@.len() && #[trigger] ts@[y].guard@.has(h);
                            assert(range_holds(ranges@[y], cstart));
                            let x = choose|x: int| 0 <= x < active@.len() && (#[trigger] active@[x])@ == ts@[y].target@;
                        }
                        if guards_cover(out@, h) {
                            let j = choose|j: int| 0 <= j < out@.len() && #[trigger] out@[j].guard@.has(h);
                        }
                    }
                }
                assert forall|j: int, h: int|
                    0 <= j < out@.len() && 0 <= h <= max_finite() && #[trigger] out@[j].guard@.has(h) implies h < next by {
                    if c + 1 < cells@.len() {
                        assert(cells@[c as int].start <= cells@[c as int].end->Some_0);
                    }
                }
            }
        } else {
            let target = DagStateFormula::or(manager, active);
            let end: Option<u32> = match cell.end {
                Some(e) => Some(e as u32),
                None => None,
            };
            let guard = match Interval::from_representable_half_range(cell.start as u32, end) {
                Some(g) => g,
                None => {
                    proof {
                        assert(false);
                    }
                    ts[0].guard
                },
            };
            proof {
                assert forall|h: int| 0 <= h <= max_finite() implies (guard@.has(h) <==> range_holds(cell, h)) by {}
                assert(guard@.has(cstart));
                assert forall|h: int| 0 <= h <= max_finite() && range_holds(cell, h) implies #[trigger] guards_cover(
                    ts@,
                    h,
                ) by {
                    assert(enabled_target(ranges@, ts@, cstart, ts@.len() as int, active@[0]@));
                    let y = choose|y: int|
                        0 <= y < ts@.len() && range_holds(ranges@[y], cstart) && active@[0]@ == #[trigger] ts@[y].target@;
                    assert(ts@[y].guard@.has(h));
                }
                assert forall|val: Set<Seq<char>>, h: int|
                    0 <= h <= max_finite() && range_holds(cell, h) implies (sat(target@, val) <==> #[trigger] targets_hold(
                    ts@,
                    h,
                    val,
                )) by {
                    let av = views_of(active@);
                    if sat(target@, val) {
                        let x = choose|x: int| 0 <= x < av.len() && sat(#[trigger] av[x], val);
                        assert(av[x] == active@[x]@);
                        assert(enabled_target(ranges@, ts@, cstart, ts@.len() as int, active@[x]@));
                        let y = choose|y: int|
                            0 <= y < ts@.len() && range_holds(ranges@[y], cstart) && active@[x]@ == #[trigger] ts@[y].target@;
                        assert(ts@[y].guard@.has(h));
                    }
                    if targets_hold(ts@, h, val) {
                        let y = choose|y: int| 0 <= y < ts@.len() && #[trigger] ts@[y].guard@.has(h) && sat(ts@[y].target@, val);
                        assert(range_holds(ranges@[y], cstart));
                        let x = choose|x: int| 0 <= x < active@.len() && (#[trigger] active@[x])@ == ts@[y].target@;
                        assert(av[x] == active@[x]@);
                        assert(sat(av[x], val));
                    }
                }
            }
            let t = ParsedJsonTransition {
                source: ts[0].source.copy_id(),
                symbol: ts[0].symbol.clone(),
                guard,
                target,
            };
            proof {
                assert forall|n: Seq<char>| occurs(target@, n) implies target_occurs(ts@, n) by {
                    let av = views_of(active@);
                    let x = choose|x: int| 0 <= x < av.len() && occurs(#[trigger] av[x], n);
                    assert(av[x] == active@[x]@);
                    assert(enabled_target(ranges@, ts@, cstart, ts@.len() as int, active@[x]@));
                    let y = choose|y: int|
                        0 <= y < ts@.len() && range_holds(ranges@[y], cstart) && active@[x]@ == #[trigger] ts@[y].target@;
                    assert(occurs(ts@[y].target@, n));
                }
            }
            let ghost before = out@;
            push_or_merge_transition(&mut out, t);
            proof {
                assert forall|jj: int, n: Seq<char>|
                    0 <= jj < out@.len() && #[trigger] occurs(out@[jj].target@, n) implies target_occurs(ts@, n) by {
                    if out@ == before.push(t) {
                        if jj < before.len() {
                            assert(out@[jj] == before[jj]);
                        }
                    } else {
                        if jj < before.len() - 1 {
                            assert(out@[jj] == out@.drop_last()[jj]);
                            assert(before.drop_last()[jj] == before[jj]);
                        } else {
                            assert(out@[jj].target@ == t.target@);
                        }
                    }
                }
                lemma_canonical_step(before, out@, t, ts@, cell, cell_limit(cells@, c as int), next);
            }
        }
        c = c + 1;
    }
    out
}

/// One step of canonicalization: adding (or merging) the transition of the
/// next cell extends the canonical form to the counts below the next cell.
proof fn lemma_canonical_step(
    before: Seq<ParsedJsonTransition>,
    after: Seq<ParsedJsonTransition>,
    t: ParsedJsonTransition,
    ts: Seq<ParsedJsonTransition>,
    cell: HalfUnitRange,
    lim: int,
    next: int,
)
    requires
        canonical_below(before, ts, lim),
        forall|j: int, h: int|
            0 <= j < before.len() && 0 <= h <= max_finite() && #[trigger] before[j].guard@.has(h) ==> h < lim,
        t.guard@.wf(),
        t.guard@.has_witness(),
        forall|h: int| 0 <= h <= max_finite() ==> (t.guard@.has(h) <==> range_holds(cell, h)),
        forall|h: int| 0 <= h <= max_finite() ==> (lim <= h && h < next <==> range_holds(cell, h)),
        forall|h: int| 0 <= h <= max_finite() && range_holds(cell, h) ==> #[trigger] guards_cover(ts, h),
        forall|val: Set<Seq<char>>, h: int|
            0 <= h <= max_finite() && range_holds(cell, h) ==> (sat(t.target@, val) <==> #[trigger] targets_hold(
                ts,
                h,
                val,
            )),
        after == before.push(t) || (before.len() > 0 && after.len() == before.len() && after.drop_last()
            == before.drop_last() && ({
            let last = before.last();
            let merged = after.last();
            &&& merged.source == last.source
            &&& merged.symbol == last.symbol
            &&& merged.target@ == last.target@
            &&& merged.target@ == t.target@
            &&& merged.guard@.wf()
            &&& forall|h: int| #[trigger] merged.guard@.has(h) <==> (last.guard@.has(h) || t.guard@.has(h))
        })),
    ensures
        canonical_below(after, ts, next),
        forall|j: int, h: int|
            0 <= j < after.len() && 0 <= h <= max_finite() && #[trigger] after[j].guard@.has(h) ==> h < next,
        forall|j: int| 0 <= j < after.len() ==> (#[trigger] after[j]).source == before.push(t)[j].source || (
            j == after.len() - 1 && after[j].source == before.last().source),
        forall|j: int| 0 <= j < after.len() ==> (#[trigger] after[j]).symbol == before.push(t)[j].symbol || (
            j == after.len() - 1 && after[j].symbol == before.last().symbol),
{
    assert(lim < next) by {
        let w = t.guard@.lo();
        assert(t.guard@.has(w));
        assert(range_holds(cell, w));
    }
    if after == before.push(t) {
        assert forall|j: int| 0 <= j < after.len() implies (#[trigger] after[j]).guard@.wf() && after[j].guard@.has_witness() by {
            if j < before.len() {
                assert(after[j] == before[j]);
            }
        }
        assert forall|j: int, k: int, h: int|
            #![trigger after[j].guard@.has(h), after[k].guard@.has(h)]
            0 <= j < k < after.len() && 0 <= h <= max_finite() implies !(after[j].guard@.has(h) && after[k].guard@.has(h)) by {
            assert(after[j] == before[j]);
            assert(before[j].guard@.has(h) == after[j].guard@.has(h));
            if k < before.len() {
                assert(after[k] == before[k]);
                assert(before[k].guard@.has(h) == after[k].guard@.has(h));
            } else {
                assert(after[k] == t);
                if before[j].guard@.has(h) && t.guard@.has(h) {
                    assert(h < lim);
                    assert(range_holds(cell, h));
                }
            }
        }
        assert forall|h: int| 0 <= h <= max_finite() && h < next implies (#[trigger] guards_cover(after, h)
            <==> guards_cover(ts, h)) by {
            if h < lim {
                assert(guards_cover(before, h) <==> guards_cover(ts, h));
                if guards_cover(before, h) {
                    let j = choose|j: int| 0 <= j < before.len() && #[trigger] before[j].guard@.has(h);
                    assert(after[j] == before[j]);
                }
                if guards_cover(after, h) {
                    let j = choose|j: int| 0 <= j < after.len() && #[trigger] after[j].guard@.has(h);
                    if j < before.len() {
                        assert(after[j] == before[j]);
                    } else {
                        assert(range_holds(cell, h));
                    }
                }
            } else {
                assert(range_holds(cell, h));
                assert(after[before.len() as int] == t);
                assert(guards_cover(ts, h));
            }
        }
        assert forall|j: int, h: int, val: Set<Seq<char>>|
            0 <= j < after.len() && 0 <= h <= max_finite() && h < next && #[trigger] after[j].guard@.has(h) implies (
            sat(after[j].target@, val) <==> #[trigger] targets_hold(ts, h, val)) by {
            if j < before.len() {
                assert(after[j] == before[j]);
                assert(h < lim);
            } else {
                assert(after[j] == t);
                assert(range_holds(cell, h));
            }
        }
        assert forall|j: int, h: int|
            0 <= j < after.len() && 0 <= h <= max_finite() && #[trigger] after[j].guard@.has(h) implies h < next by {
            if j < before.len() {
                assert(after[j] == before[j]);
                assert(before[j].guard@.has(h));
            } else {
                assert(after[j] == t);
                assert(range_holds(cell, h));
            }
        }
        assert forall|j: int| 0 <= j < after.len() implies (#[trigger] after[j]).source == before.push(t)[j].source by {}
        assert forall|j: int| 0 <= j < after.len() implies (#[trigger] after[j]).symbol == before.push(t)[j].symbol by {}
    } else {
        let n = before.len() - 1;
        let last = before.last();
        let merged = after.last();
        assert forall|j: int| 0 <= j < n implies #[trigger] after[j] == before[j] by {
            assert(after.drop_last()[j] == before.drop_last()[j]);
        }
        assert(last.guard@.has_witness());
        assert(merged.guard@.has_witness()) by {
            assert(merged.guard@.has(last.guard@.lo()));
        }
        assert forall|j: int| 0 <= j < after.len() implies (#[trigger] after[j]).guard@.wf() && after[j].guard@.has_witness() by {
            if j < n {
                assert(after[j] == before[j]);
            }
        }
        assert forall|j: int, k: int, h: int|
            #![trigger after[j].guard@.has(h), after[k].guard@.has(h)]
            0 <= j < k < after.len() && 0 <= h <= max_finite() implies !(after[j].guard@.has(h) && after[k].guard@.has(h)) by {
            assert(after[j] == before[j]);
            assert(before[j].guard@.has(h) == after[j].guard@.has(h));
            if k < n {
                assert(after[k] == before[k]);
                assert(before[k].guard@.has(h) == after[k].guard@.has(h));
            } else {
                assert(after[k] == merged);
                if before[j].guard@.has(h) && merged.guard@.has(h) {
                    if last.guard@.has(h) {
                        assert(before[n] == last);
                        assert(before[n].guard@.has(h));
                        assert(!(before[j].guard@.has(h) && before[n].guard@.has(h)));
                    } else {
                        assert(t.guard@.has(h));
                        assert(range_holds(cell, h));
                        assert(h < lim);
                    }
                }
            }
        }
        assert forall|h: int| 0 <= h <= max_finite() && h < next implies (#[trigger] guards_cover(after, h)
            <==> guards_cover(ts, h)) by {
            if h < lim {
                assert(guards_cover(before, h) <==> guards_cover(ts, h));
                if guards_cover(before, h) {
                    let j = choose|j: int| 0 <= j < before.len() && #[trigger] before[j].guard@.has(h);
                    if j < n {
                        assert(after[j] == before[j]);
                    } else {
                        assert(merged.guard@.has(h));
                    }
                }
                if guards_cover(after, h) {
                    let j = choose|j: int| 0 <= j < after.len() && #[trigger] after[j].guard@.has(h);
                    if j < n {
                        assert(after[j] == before[j]);
                    } else if !last.guard@.has(h) {
                        assert(range_holds(cell, h));
                    } else {
                        assert(before[n].guard@.has(h));
                    }
                }
            } else {
                assert(range_holds(cell, h));
                assert(merged.guard@.has(h));
                assert(after[n] == merged);
            }
        }
        assert forall|j: int, h: int, val: Set<Seq<char>>|
            0 <= j < after.len() && 0 <= h <= max_finite() && h < next && #[trigger] after[j].guard@.has(h) implies (
            sat(after[j].target@, val) <==> #[trigger] targets_hold(ts, h, val)) by {
            if j < n {
                assert(after[j] == before[j]);
                assert(h < lim);
            } else {
                assert(after[j] == merged);
                if last.guard@.has(h) {
                    assert(before[n] == last);
                    assert(h < lim);
                } else {
                    assert(range_holds(cell, h));
                }
            }
        }
        assert forall|j: int, h: int|
            0 <= j < after.len() && 0 <= h <= max_finite() && #[trigger] after[j].guard@.has(h) implies h < next by {
            if j < n {
                assert(after[j] == before[j]);
                assert(before[j].guard@.has(h));
            } else {
                assert(after[j] == merged);
                if last.guard@.has(h) {
                    assert(before[n] == last);
                    assert(before[n].guard@.has(h));
                } else {
                    assert(t.guard@.has(h));
                    assert(range_holds(cell, h));
                }
            }
        }
        assert forall|j: int| 0 <= j < after.len() implies (#[trigger] after[j]).source == before.push(t)[j].source || (
            j == after.len() - 1 && after[j].source == before.last().source) by {
            if j < n {
                assert(after[j] == before[j]);
            }
        }
        assert forall|j: int| 0 <= j < after.len() implies (#[trigger] after[j]).symbol == before.push(t)[j].symbol || (
            j == after.len() - 1 && after[j].symbol == before.last().symbol) by {
            if j < n {
                assert(after[j] == before[j]);
            }
        }
    }
}

/// The context of transition `id` in error messages.
pub open spec fn transition_context(id: Seq<char>) -> Seq<char> {
    "transition "@ + id
}

/// The guard that a guard text stands for, when it stands for one.
pub open spec fn parsed_guard(text: Seq<char>) -> Option<IntervalModel> {
    match parsed_bounds(text) {
        None => None,
        Some((li, l, ui, u)) => match spec_from_bounds(li, l, ui, u) {
            Ok(m) => Some(m),
            Err(_) => None,
        },
    }
}

/// `true` iff `e` is what parsing guard text `text` reports.
pub open spec fn guard_error(e: IntervalError, text: Seq<char>) -> bool {
    match parsed_bounds(text) {
        None => e matches IntervalError::InvalidSyntax(s) && s@ == trimmed(text),
        Some((li, l, ui, u)) => spec_from_bounds(li, l, ui, u) == Err::<IntervalModel, IntervalError>(e),
    }
}

/// `true` iff `s` is one of the names in `v`.
pub open spec fn names_contain(v: Seq<String>, s: Seq<char>) -> bool {
    exists|i: int| 0 <= i < v.len() && (#[trigger] v[i])@ == s
}

/// Transition `t` with identifier `id` passes every check of a document
/// with alphabet `sigma`.
pub open spec fn transition_ok(id: Seq<char>, t: JsonTransition, sigma: Seq<String>) -> bool {
    &&& all_digits(id)
    &&& names_contain(sigma, t.1@)
    &&& parsed_guard(t.2@) matches Some(g) && g.has_witness()
    &&& arity_error(t.3, transition_context(id) + " target"@) is None
}

/// `e` is the error reported for transition `t` with identifier `id`: that
/// of its first failing check.
pub open spec fn transition_error(e: ArtaJsonError, id: Seq<char>, t: JsonTransition, sigma: Seq<String>) -> bool {
    if !all_digits(id) {
        e matches ArtaJsonError::InvalidTransitionId { id: i } && i@ == id
    } else if !names_contain(sigma, t.1@) {
        e matches ArtaJsonError::UnknownSymbol { context: c, symbol: a } && c@ == transition_context(id) && a@
            == t.1@
    } else if parsed_guard(t.2@) is None {
        e matches ArtaJsonError::InvalidGuard { context: c, guard: g, source: x } && c@ == transition_context(id)
            && g@ == t.2@ && guard_error(x, t.2@)
    } else if !parsed_guard(t.2@)->Some_0.has_witness() {
        e matches ArtaJsonError::Arta(ArtaError::InvalidInterval { context: c, source: x }) && c@
            == transition_context(id) + " from "@ + t.0@ && x == IntervalError::Empty
    } else {
        match arity_error(t.3, transition_context(id) + " target"@) {
            Some((c, is_and, n)) => e matches ArtaJsonError::InvalidFormulaArity { context: c2, operator: op, len }
                && c2@ == c && len == n && op@ == (if is_and {
                "and"@
            } else {
                "or"@
            }),
            None => false,
        }
    }
}

/// `true` iff `id` has only ASCII digits.
fn is_decimal_id(id: &String) -> (r: bool)
    ensures
        r == all_digits(id@),
{
    let n = id.unicode_len();
    let mut i: usize = 0;
    while i < n
        invariant
            n == id@.len(),
            i <= n,
            forall|j: int| 0 <= j < i ==> '0' <= #[trigger] id@[j] <= '9',
        decreases n - i,
    {
        let c = id.as_str().get_char(i);
        if !('0' <= c && c <= '9') {
            return false;
        }
        i = i + 1;
    }
    true
}

/// `true` iff `s` is one of `v`.
fn contains_name(v: &Vec<String>, s: &String) -> (r: bool)
    ensures
        r == names_contain(v@, s@),
{
    let mut i: usize = 0;
    while i < v.len()
        invariant
            i <= v@.len(),
            forall|j: int| 0 <= j < i ==> (#[trigger] v@[j])@ != s@,
        decreases v@.len() - i,
    {
        if str_eq(v[i].as_str(), s.as_str()) {
            return true;
        }
        i = i + 1;
    }
    false
}

/// The checked content of transition `t` with identifier `id`.
fn read_transition(
    id: &String,
    t: &JsonTransition,
    sigma: &Vec<String>,
    manager: &DagStateFormulaManager,
) -> (r: Result<ParsedJsonTransition, ArtaJsonError>)
    ensures
        r is Ok <==> transition_ok(id@, *t, sigma@),
        r matches Err(e) ==> transition_error(e, id@, *t, sigma@),
        r matches Ok(p) ==> {
            &&& p.source@ == t.0@
            &&& p.symbol@ == t.1@
            &&& parsed_guard(t.2@) == Some(p.guard@)
            &&& p.guard@.wf()
            &&& p.guard@.has_witness()
            &&& forall|val: Set<Seq<char>>| sat(p.target@, val) == json_sat(t.3, val)
            &&& forall|n: Seq<char>| #[trigger] occurs(p.target@, n) ==> json_occurs(t.3, n)
        },
{
    if !is_decimal_id(id) {
        return Err(ArtaJsonError::InvalidTransitionId { id: id.clone() });
    }
    let mut context = String::new();
    push_str(&mut context, "transition ");
    push_str(&mut context, id.as_str());
    assert(context@ =~= transition_context(id@));
    if !contains_name(sigma, &t.1) {
        return Err(ArtaJsonError::UnknownSymbol { context, symbol: t.1.clone() });
    }
    let guard = match Interval::parse(t.2.as_str()) {
        Ok(g) => g,
        Err(e) => {
            return Err(ArtaJsonError::InvalidGuard { context, guard: t.2.clone(), source: e });
        },
    };
    match guard.validate() {
        Ok(()) => {},
        Err(e) => {
            let mut c = context.clone();
            push_str(&mut c, " from ");
            push_str(&mut c, t.0.as_str());
            assert(c@ =~= transition_context(id@) + " from "@ + t.0@);
            return Err(ArtaJsonError::Arta(ArtaError::InvalidInterval { context: c, source: e }));
        },
    }
    let mut tc = context.clone();
    push_str(&mut tc, " target");
    assert(tc@ =~= transition_context(id@) + " target"@);
    let target = match t.3.into_state_formula(manager, &tc) {
        Ok(f) => f,
        Err(e) => {
            return Err(e);
        },
    };
    Ok(ParsedJsonTransition { source: LocationId::from_string(t.0.clone()), symbol: t.1.clone(), guard, target })
}

/// The content of a read transition.
spec fn pjt_model(p: ParsedJsonTransition) -> PendingModel {
    (p.source@, p.symbol@, p.guard@, p.target@)
}

/// The contents of read transitions.
spec fn pjt_models(s: Seq<ParsedJsonTransition>) -> Seq<PendingModel> {
    Seq::new(s.len(), |i: int| pjt_model(s[i]))
}

/// A copy of a read transition.
fn copy_pjt(p: &ParsedJsonTransition) -> (r: ParsedJsonTransition)
    ensures
        pjt_model(r) == pjt_model(*p),
{
    ParsedJsonTransition {
        source: p.source.copy_id(),
        symbol: p.symbol.clone(),
        guard: p.guard,
        target: p.target.duplicate(),
    }
}

/// `groups` splits `ts` by location and symbol: every group is non-empty
/// and keyed by its first transition, keys differ between groups, and a
/// transition is in the group of its key exactly when it is in `ts`.
spec fn grouped(groups: Seq<Seq<PendingModel>>, ts: Seq<PendingModel>) -> bool {
    &&& forall|g: int| 0 <= g < groups.len() ==> (#[trigger] groups[g]).len() > 0
    &&& forall|g: int, x: int|
        0 <= g < groups.len() && 0 <= x < groups[g].len() ==> (#[trigger] groups[g][x]).0 == groups[g][0].0
            && groups[g][x].1 == groups[g][0].1 && ts.contains(groups[g][x])
    &&& forall|g1: int, g2: int|
        0 <= g1 < g2 < groups.len() ==> !((#[trigger] groups[g1])[0].0 == (#[trigger] groups[g2])[0].0
            && groups[g1][0].1 == groups[g2][0].1)
    &&& forall|k: int| 0 <= k < ts.len() ==> #[trigger] in_some_group(groups, ts[k])
}

/// `m` is in one of the groups.
spec fn in_some_group(groups: Seq<Seq<PendingModel>>, m: PendingModel) -> bool {
    exists|g: int, x: int| 0 <= g < groups.len() && 0 <= x < groups[g].len() && #[trigger] groups[g][x] == m
}

/// The contents of groups of read transitions.
spec fn groups_models(gs: Seq<Vec<ParsedJsonTransition>>) -> Seq<Seq<PendingModel>> {
    Seq::new(gs.len(), |g: int| pjt_models(gs[g]@))
}

/// The position of the group keyed like `t`, or the number of groups when
/// there is none.
fn find_group(groups: &Vec<Vec<ParsedJsonTransition>>, t: &ParsedJsonTransition) -> (r: usize)
    requires
        forall|g: int| 0 <= g < groups@.len() ==> (#[trigger] groups@[g])@.len() > 0,
    ensures
        r <= groups@.len(),
        r < groups@.len() ==> groups_models(groups@)[r as int][0].0 == t.source@ && groups_models(
            groups@,
        )[r as int][0].1 == t.symbol@,
        forall|y: int|
            0 <= y < r ==> !(#[trigger] groups_models(groups@)[y][0].0 == t.source@ && groups_models(groups@)[y][0].1
                == t.symbol@),
{
    let ghost gm = groups_models(groups@);
    let mut g: usize = 0;
    while g < groups.len()
        invariant
            gm == groups_models(groups@),
            g <= groups@.len(),
            forall|g: int| 0 <= g < groups@.len() ==> (#[trigger] groups@[g])@.len() > 0,
            forall|y: int| 0 <= y < g ==> !(#[trigger] gm[y][0].0 == t.source@ && gm[y][0].1 == t.symbol@),
        decreases groups@.len() - g,
    {
        assert(gm[g as int][0] == pjt_model(groups@[g as int]@[0]));
        if groups[g][0].source.same(&t.source) && str_eq(groups[g][0].symbol.as_str(), t.symbol.as_str()) {
            return g;
        }
        g = g + 1;
    }
    g
}

/// The read transitions split by location and symbol, in order of first
/// appearance.
fn group_by_key(ts: &Vec<ParsedJsonTransition>) -> (r: Vec<Vec<ParsedJsonTransition>>)
    ensures
        grouped(groups_models(r@), pjt_models(ts@)),
{
    let ghost tm = pjt_models(ts@);
    let mut groups: Vec<Vec<ParsedJsonTransition>> = Vec::new();
    let mut k: usize = 0;
    while k < ts.len()
        invariant
            tm == pjt_models(ts@),
            k <= ts@.len(),
            forall|g: int| 0 <= g < groups@.len() ==> (#[trigger] groups@[g])@.len() > 0,
            forall|g: int| 0 <= g < groups@.len() ==> (#[trigger] groups_models(groups@)[g]).len() > 0,
            forall|g: int, x: int|
                0 <= g < groups@.len() && 0 <= x < groups_models(groups@)[g].len() ==> (
                #[trigger] groups_models(groups@)[g][x]).0 == groups_models(groups@)[g][0].0
                    && groups_models(groups@)[g][x].1 == groups_models(groups@)[g][0].1 && tm.contains(
                    groups_models(groups@)[g][x],
                ),
            forall|g1: int, g2: int|
                0 <= g1 < g2 < groups@.len() ==> !((#[trigger] groups_models(groups@)[g1])[0].0 == (
                #[trigger] groups_models(groups@)[g2])[0].0 && groups_models(groups@)[g1][0].1
                    == groups_models(groups@)[g2][0].1),
            forall|j: int| 0 <= j < k ==> #[trigger] in_some_group(groups_models(groups@), tm[j]),
        decreases ts@.len() - k,
    {
        let ghost before = groups_models(groups@);
        let t = &ts[k];
        let g = find_group(&groups, t);
        assert(tm[k as int] == pjt_model(ts@[k as int]));
        let c = copy_pjt(t);
        assert(pjt_model(c) == tm[k as int]);
        if g < groups.len() {
            let mut grp: Vec<ParsedJsonTransition> = Vec::new();
            std::mem::swap(&mut grp, &mut groups[g]);
            grp.push(c);
            groups.set(g, grp);
            proof {
                let after = groups_models(groups@);
                assert(after[g as int] =~= before[g as int].push(tm[k as int]));
                assert forall|y: int| 0 <= y < after.len() && y != g implies #[trigger] after[y] == before[y] by {}
                assert forall|j: int| 0 <= j < k + 1 implies #[trigger] in_some_group(after, tm[j]) by {
                    if j < k {
                        assert(in_some_group(before, tm[j]));
                        let (gg, x) = choose|gg: int, x: int|
                            0 <= gg < before.len() && 0 <= x < before[gg].len() && #[trigger] before[gg][x] == tm[j];
                        if gg == g {
                            assert(after[gg][x] == before[gg][x]);
                        } else {
                            assert(after[gg] == before[gg]);
                        }
                        assert(after[gg][x] == tm[j]);
                    } else {
                        assert(after[g as int][before[g as int].len() as int] == tm[j]);
                    }
                }
                assert(tm.contains(tm[k as int]));
            }
        } else {
            let mut grp: Vec<ParsedJsonTransition> = Vec::new();
            grp.push(c);
            groups.push(grp);
            proof {
                let after = groups_models(groups@);
                assert(after[g as int] =~= seq![tm[k as int]]);
                assert forall|y: int| 0 <= y < before.len() implies #[trigger] after[y] == before[y] by {}
                assert forall|j: int| 0 <= j < k + 1 implies #[trigger] in_some_group(after, tm[j]) by {
                    if j < k {
                        assert(in_some_group(before, tm[j]));
                        let (gg, x) = choose|gg: int, x: int|
                            0 <= gg < before.len() && 0 <= x < before[gg].len() && #[trigger] before[gg][x] == tm[j];
                        assert(after[gg] == before[gg]);
                        assert(after[gg][x] == tm[j]);
                    } else {
                        assert(after[g as int][0] == tm[j]);
                    }
                }
                assert(tm.contains(tm[k as int]));
            }
        }
        k = k + 1;
    }
    groups
}

/// Some transition of `ms` from `n` on `a` has `h` in its guard.
spec fn keyed_cover(ms: Seq<PendingModel>, n: Seq<char>, a: Seq<char>, h: int) -> bool {
    exists|i: int| 0 <= i < ms.len() && #[trigger] ms[i].2.has(h) && ms[i].0 == n && ms[i].1 == a
}

/// Some transition of `ms` from `n` on `a` with `h` in its guard has a
/// target that holds in `val`.
spec fn keyed_hold(ms: Seq<PendingModel>, n: Seq<char>, a: Seq<char>, h: int, val: Set<Seq<char>>) -> bool {
    exists|i: int| 0 <= i < ms.len() && #[trigger] ms[i].2.has(h) && ms[i].0 == n && ms[i].1 == a && sat(ms[i].3, val)
}

/// Some transition of `ms` has `h` in its guard.
spec fn m_cover(ms: Seq<PendingModel>, h: int) -> bool {
    exists|i: int| 0 <= i < ms.len() && #[trigger] ms[i].2.has(h)
}

/// Some transition of `ms` with `h` in its guard has a target that holds in
/// `val`.
spec fn m_hold(ms: Seq<PendingModel>, h: int, val: Set<Seq<char>>) -> bool {
    exists|i: int| 0 <= i < ms.len() && #[trigger] ms[i].2.has(h) && sat(ms[i].3, val)
}

/// Location name `n` occurs in the target of one of `ms`.
spec fn m_occurs(ms: Seq<PendingModel>, n: Seq<char>) -> bool {
    exists|y: int| 0 <= y < ms.len() && occurs(#[trigger] ms[y].3, n)
}

/// One of `ms` starts at location name `s`.
spec fn m_source(ms: Seq<PendingModel>, s: Seq<char>) -> bool {
    exists|y: int| 0 <= y < ms.len() && (#[trigger] ms[y]).0 == s
}

/// `c` is a deterministic form of the group `g`, keyed like it: valid
/// guards with a delay each, pairwise disjoint, covering the delays of `g`,
/// with targets equivalent to those of `g` enabled there and naming only
/// locations that the targets of `g` name.
spec fn canon_of(c: Seq<PendingModel>, g: Seq<PendingModel>) -> bool {
    &&& g.len() > 0
    &&& forall|x: int| 0 <= x < c.len() ==> (#[trigger] c[x]).0 == g[0].0 && c[x].1 == g[0].1
    &&& forall|x: int| 0 <= x < c.len() ==> (#[trigger] c[x]).2.wf() && c[x].2.has_witness()
    &&& forall|x: int, y: int, h: int|
        #![trigger c[x].2.has(h), c[y].2.has(h)]
        0 <= x < y < c.len() && 0 <= h <= max_finite() ==> !(c[x].2.has(h) && c[y].2.has(h))
    &&& forall|x: int, n: Seq<char>| 0 <= x < c.len() && #[trigger] occurs(c[x].3, n) ==> m_occurs(g, n)
    &&& forall|h: int| 0 <= h <= max_finite() ==> (#[trigger] m_cover(c, h) <==> m_cover(g, h))
    &&& forall|x: int, h: int, val: Set<Seq<char>>|
        0 <= x < c.len() && 0 <= h <= max_finite() && #[trigger] c[x].2.has(h) ==> (sat(c[x].3, val) <==> #[trigger] m_hold(
            g,
            h,
            val,
        ))
}

/// In a built automaton, the target from `n` on `a` after `h` half units
/// holds exactly when the target of a pending transition enabled there
/// does.
proof fn lemma_built_target(arta: ArtaModel, m: BuilderModel, n: Seq<char>, a: Seq<char>, h: u32, val: Set<Seq<char>>)
    requires
        arta.wf(),
        built_from(arta, m),
        h <= max_finite(),
    ensures
        sat(arta.target(n, a, h), val) == keyed_hold(m.pending, n, a, h as int, val),
{
    let p = m.pending;
    let es = bucket_edges(arta.buckets, n, a);
    assert(!crate::time::delay::half_is_infinite(h));
    if keyed_cover(p, n, a, h as int) {
        let i = choose|i: int| 0 <= i < p.len() && #[trigger] p[i].2.has(h as int) && p[i].0 == n && p[i].1 == a;
        assert(has_bucket(arta.buckets, p[i].0, p[i].1));
        let b = choose|b: int| 0 <= b < arta.buckets.len() && #[trigger] arta.buckets[b].0 == n && arta.buckets[b].1 == a;
        lemma_bucket_edges_at(arta.buckets, b);
        assert(es == arta.buckets[b].2);
        assert(crate::arta::bucket_ok(arta.locations, arta.buckets[b]));
        let e = (p[i].2, p[i].3);
        assert(arta.buckets[b].2.contains(e));
        let x = choose|x: int| 0 <= x < es.len() && es[x] == e;
        assert forall|k: int| 0 <= k < es.len() && k != x implies !(#[trigger] es[k]).0.has(h as int) by {
            assert(es[x].0.has(h as int));
            if es[k].0.has(h as int) {
                assert(!es[k].0.has(h as int));
            }
        }
        lemma_first_enabled_unique(es, x, h as int);
        if keyed_hold(p, n, a, h as int, val) {
            let j = choose|j: int|
                0 <= j < p.len() && #[trigger] p[j].2.has(h as int) && p[j].0 == n && p[j].1 == a && sat(p[j].3, val);
            let ej = (p[j].2, p[j].3);
            assert(arta.buckets[b].2.contains(ej));
            let y = choose|y: int| 0 <= y < es.len() && es[y] == ej;
            if y != x {
                assert(es[y].0.has(h as int));
            }
        }
    } else {
        assert forall|k: int| 0 <= k < es.len() implies !(#[trigger] es[k]).0.has(h as int) by {
            if has_bucket(arta.buckets, n, a) {
                let b = choose|b: int| 0 <= b < arta.buckets.len() && #[trigger] arta.buckets[b].0 == n && arta.buckets[b].1 == a;
                lemma_bucket_edges_at(arta.buckets, b);
                assert(arta.buckets[b].2.contains(es[k]));
                if es[k].0.has(h as int) {
                    let i = choose|i: int|
                        0 <= i < p.len() && #[trigger] p[i].0 == arta.buckets[b].0 && p[i].1 == arta.buckets[b].1 && (
                        p[i].2,
                        p[i].3,
                    ) == es[k];
                    assert(p[i].2.has(h as int));
                }
            } else {
                lemma_no_bucket_no_edges(arta.buckets, n, a);
            }
        }
        lemma_first_enabled_none(es, h as int);
    }
}

/// The pending transitions made of the deterministic forms of the groups of
/// `ts` enable, at every count, targets that hold exactly when a target of
/// `ts` enabled there holds.
proof fn lemma_canon_groups(
    p: Seq<PendingModel>,
    canons: Seq<Seq<PendingModel>>,
    groups: Seq<Seq<PendingModel>>,
    ts: Seq<PendingModel>,
    n: Seq<char>,
    a: Seq<char>,
    h: int,
    val: Set<Seq<char>>,
)
    requires
        0 <= h <= max_finite(),
        grouped(groups, ts),
        canons.len() == groups.len(),
        forall|g: int| 0 <= g < groups.len() ==> canon_of(#[trigger] canons[g], groups[g]),
        forall|i: int| 0 <= i < p.len() ==> #[trigger] in_some_group(canons, p[i]),
        forall|g: int, x: int| 0 <= g < canons.len() && 0 <= x < canons[g].len() ==> p.contains(#[trigger] canons[g][x]),
    ensures
        keyed_hold(p, n, a, h, val) == keyed_hold(ts, n, a, h, val),
{
    if keyed_hold(p, n, a, h, val) {
        let i = choose|i: int| 0 <= i < p.len() && #[trigger] p[i].2.has(h) && p[i].0 == n && p[i].1 == a && sat(p[i].3, val);
        assert(in_some_group(canons, p[i]));
        let (g, x) = choose|g: int, x: int| 0 <= g < canons.len() && 0 <= x < canons[g].len() && #[trigger] canons[g][x] == p[i];
        assert(canon_of(canons[g], groups[g]));
        assert(canons[g][x].2.has(h));
        assert(m_hold(groups[g], h, val));
        let y = choose|y: int| 0 <= y < groups[g].len() && #[trigger] groups[g][y].2.has(h) && sat(groups[g][y].3, val);
        assert(groups[g][y].0 == groups[g][0].0);
        assert(ts.contains(groups[g][y]));
        let k = choose|k: int| 0 <= k < ts.len() && ts[k] == groups[g][y];
        assert(ts[k].2.has(h));
    }
    if keyed_hold(ts, n, a, h, val) {
        let k = choose|k: int| 0 <= k < ts.len() && #[trigger] ts[k].2.has(h) && ts[k].0 == n && ts[k].1 == a && sat(ts[k].3, val);
        assert(in_some_group(groups, ts[k]));
        let (g, y) = choose|g: int, y: int| 0 <= g < groups.len() && 0 <= y < groups[g].len() && #[trigger] groups[g][y] == ts[k];
        assert(canon_of(canons[g], groups[g]));
        assert(groups[g][y].2.has(h));
        assert(m_cover(groups[g], h));
        assert(m_cover(canons[g], h));
        let x = choose|x: int| 0 <= x < canons[g].len() && #[trigger] canons[g][x].2.has(h);
        assert(m_hold(groups[g], h, val));
        assert(sat(canons[g][x].3, val));
        assert(p.contains(canons[g][x]));
        let i = choose|i: int| 0 <= i < p.len() && p[i] == canons[g][x];
        assert(p[i].2.has(h));
        assert(groups[g][y].0 == groups[g][0].0);
    }
}

/// The model form of a canonical bucket.
proof fn lemma_canon_models(out: Seq<ParsedJsonTransition>, ts: Seq<ParsedJsonTransition>)
    requires
        canonical_below(out, ts, max_finite() + 1),
        ts.len() > 0,
        forall|j: int| 0 <= j < out.len() ==> (#[trigger] out[j]).source@ == ts[0].source@ && out[j].symbol@ == ts[0].symbol@,
        forall|j: int, n: Seq<char>| 0 <= j < out.len() && #[trigger] occurs(out[j].target@, n) ==> target_occurs(ts, n),
    ensures
        canon_of(pjt_models(out), pjt_models(ts)),
{
    let c = pjt_models(out);
    let g = pjt_models(ts);
    assert forall|x: int| 0 <= x < c.len() implies (#[trigger] c[x]).2.wf() && c[x].2.has_witness() by {
        assert(c[x].2 == out[x].guard@);
    }
    assert forall|x: int, y: int, h: int|
        0 <= x < y < c.len() && 0 <= h <= max_finite() implies !(#[trigger] c[x].2.has(h) && #[trigger] c[y].2.has(h)) by {
        assert(c[x].2 == out[x].guard@);
        assert(c[y].2 == out[y].guard@);
    }
    assert forall|x: int, n: Seq<char>| 0 <= x < c.len() && #[trigger] occurs(c[x].3, n) implies m_occurs(g, n) by {
        assert(c[x].3 == out[x].target@);
        let y = choose|y: int| 0 <= y < ts.len() && occurs(#[trigger] ts[y].target@, n);
        assert(g[y].3 == ts[y].target@);
    }
    assert forall|h: int| 0 <= h <= max_finite() implies (#[trigger] m_cover(c, h) <==> m_cover(g, h)) by {
        assert(guards_cover(out, h) <==> guards_cover(ts, h));
        if m_cover(c, h) {
            let i = choose|i: int| 0 <= i < c.len() && #[trigger] c[i].2.has(h);
            assert(out[i].guard@.has(h));
        }
        if guards_cover(out, h) {
            let i = choose|i: int| 0 <= i < out.len() && #[trigger] out[i].guard@.has(h);
            assert(c[i].2.has(h));
        }
        if m_cover(g, h) {
            let i = choose|i: int| 0 <= i < g.len() && #[trigger] g[i].2.has(h);
            assert(ts[i].guard@.has(h));
        }
        if guards_cover(ts, h) {
            let i = choose|i: int| 0 <= i < ts.len() && #[trigger] ts[i].guard@.has(h);
            assert(g[i].2.has(h));
        }
    }
    assert forall|x: int, h: int, val: Set<Seq<char>>|
        0 <= x < c.len() && 0 <= h <= max_finite() && #[trigger] c[x].2.has(h) implies (sat(c[x].3, val)
        <==> #[trigger] m_hold(g, h, val)) by {
        assert(out[x].guard@.has(h));
        assert(sat(out[x].target@, val) <==> targets_hold(ts, h, val));
        if m_hold(g, h, val) {
            let i = choose|i: int| 0 <= i < g.len() && #[trigger] g[i].2.has(h) && sat(g[i].3, val);
            assert(ts[i].guard@.has(h));
        }
        if targets_hold(ts, h, val) {
            let i = choose|i: int| 0 <= i < ts.len() && #[trigger] ts[i].guard@.has(h) && sat(ts[i].target@, val);
            assert(g[i].2.has(h));
        }
    }
}

/// Pending transitions made of the deterministic forms of the groups of
/// `ts` are valid, start where a transition of `ts` starts, name in their
/// targets only locations that a target of `ts` names, and never clash.
proof fn lemma_canon_pending(
    p: Seq<PendingModel>,
    canons: Seq<Seq<PendingModel>>,
    groups: Seq<Seq<PendingModel>>,
    ts: Seq<PendingModel>,
)
    requires
        grouped(groups, ts),
        canons.len() == groups.len(),
        forall|g: int| 0 <= g < groups.len() ==> canon_of(#[trigger] canons[g], groups[g]),
        forall|i: int| 0 <= i < p.len() ==> #[trigger] in_some_group(canons, p[i]),
    ensures
        forall|i: int| 0 <= i < p.len() ==> (#[trigger] p[i]).2.wf() && p[i].2.has_witness(),
        forall|i: int| 0 <= i < p.len() ==> m_source(ts, (#[trigger] p[i]).0),
        forall|i: int, n: Seq<char>| 0 <= i < p.len() && #[trigger] occurs(p[i].3, n) ==> m_occurs(ts, n),
        forall|i: int, j: int|
            0 <= i < p.len() && 0 <= j < p.len() ==> !pending_clash(#[trigger] p[i], #[trigger] p[j]),
{
    assert forall|i: int| 0 <= i < p.len() implies (#[trigger] p[i]).2.wf() && p[i].2.has_witness() && m_source(ts, p[i].0) by {
        assert(in_some_group(canons, p[i]));
        let (g, x) = choose|g: int, x: int| 0 <= g < canons.len() && 0 <= x < canons[g].len() && #[trigger] canons[g][x] == p[i];
        assert(canon_of(canons[g], groups[g]));
        assert(canons[g][x].2.wf());
        assert(groups[g].len() > 0);
        assert(ts.contains(groups[g][0]));
        let k = choose|k: int| 0 <= k < ts.len() && ts[k] == groups[g][0];
        assert(ts[k].0 == p[i].0);
    }
    assert forall|i: int, n: Seq<char>| 0 <= i < p.len() && #[trigger] occurs(p[i].3, n) implies m_occurs(ts, n) by {
        assert(in_some_group(canons, p[i]));
        let (g, x) = choose|g: int, x: int| 0 <= g < canons.len() && 0 <= x < canons[g].len() && #[trigger] canons[g][x] == p[i];
        assert(canon_of(canons[g], groups[g]));
        assert(occurs(canons[g][x].3, n));
        assert(m_occurs(groups[g], n));
        let y = choose|y: int| 0 <= y < groups[g].len() && occurs(#[trigger] groups[g][y].3, n);
        assert(ts.contains(groups[g][y]));
        let k = choose|k: int| 0 <= k < ts.len() && ts[k] == groups[g][y];
        assert(occurs(ts[k].3, n));
    }
    assert forall|i: int, j: int| 0 <= i < p.len() && 0 <= j < p.len() implies !pending_clash(
        #[trigger] p[i],
        #[trigger] p[j],
    ) by {
        if pending_clash(p[i], p[j]) {
            assert(in_some_group(canons, p[i]));
            assert(in_some_group(canons, p[j]));
            let (g1, x1) = choose|g: int, x: int|
                0 <= g < canons.len() && 0 <= x < canons[g].len() && #[trigger] canons[g][x] == p[i];
            let (g2, x2) = choose|g: int, x: int|
                0 <= g < canons.len() && 0 <= x < canons[g].len() && #[trigger] canons[g][x] == p[j];
            assert(canon_of(canons[g1], groups[g1]));
            assert(canon_of(canons[g2], groups[g2]));
            assert(canons[g1][x1].0 == groups[g1][0].0);
            assert(canons[g2][x2].0 == groups[g2][0].0);
            if g1 < g2 {
                assert(!(groups[g1][0].0 == groups[g2][0].0 && groups[g1][0].1 == groups[g2][0].1));
            } else if g2 < g1 {
                assert(!(groups[g2][0].0 == groups[g1][0].0 && groups[g2][0].1 == groups[g1][0].1));
            } else {
                let c = canons[g1];
                assert(x1 != x2);
                assert(c[x1].2.wf() && c[x1].2.has_witness());
                let h: int = if p[i].2 == p[j].2 {
                    p[i].2.lo()
                } else {
                    choose|h: int| 0 <= h <= max_finite() && #[trigger] p[i].2.has(h) && p[j].2.has(h)
                };
                assert(p[i].2.has(h) && p[j].2.has(h));
                if x1 < x2 {
                    assert(!(c[x1].2.has(h) && c[x2].2.has(h)));
                } else {
                    assert(!(c[x2].2.has(h) && c[x1].2.has(h)));
                }
            }
        }
    }
}

/// Location name `n` is the source of transition `t` or occurs in its
/// target.
pub open spec fn tran_references(t: JsonTransition, n: Seq<char>) -> bool {
    t.0@ == n || json_occurs(t.3, n)
}

/// Location name `n` is referenced by document `doc`: by its initial
/// formula, its accepting list, or one of its transitions.
pub open spec fn doc_references(doc: ArtaDocument, n: Seq<char>) -> bool {
    ||| init_occurs(doc.init, n)
    ||| strings_view(doc.accept@).contains(n)
    ||| exists|k: int| 0 <= k < doc.tran@.len() && #[trigger] tran_references(doc.tran@[k].1, n)
}

/// Every location name that `doc` references is declared in its list of
/// locations.
pub open spec fn doc_names_declared(doc: ArtaDocument) -> bool {
    forall|n: Seq<char>| #[trigger] doc_references(doc, n) ==> strings_view(doc.l@).contains(n)
}

/// The initial formula of a document passes its checks.
pub open spec fn init_ok(init: JsonInit) -> bool {
    match init {
        JsonInit::Locations(v) => v@.len() > 0,
        JsonInit::Formula(j) => arity_error(j, "init"@) is None,
    }
}

/// `e` is the error reported for the initial formula `init`.
pub open spec fn init_error(e: ArtaJsonError, init: JsonInit) -> bool {
    match init {
        JsonInit::Locations(v) => e == ArtaJsonError::EmptyInit,
        JsonInit::Formula(j) => match arity_error(j, "init"@) {
            Some((c, is_and, n)) => e matches ArtaJsonError::InvalidFormulaArity { context: c2, operator: op, len }
                && c2@ == c && len == n && op@ == (if is_and {
                "and"@
            } else {
                "or"@
            }),
            None => false,
        },
    }
}

/// Location name `n` occurs in the initial formula `init`.
pub open spec fn init_occurs(init: JsonInit, n: Seq<char>) -> bool {
    match init {
        JsonInit::Locations(v) => strings_view(v@).contains(n),
        JsonInit::Formula(j) => json_occurs(j, n),
    }
}

/// `true` iff the initial formula `init` holds in `val`.
pub open spec fn init_sat(init: JsonInit, val: Set<Seq<char>>) -> bool {
    match init {
        JsonInit::Locations(v) => exists|i: int| 0 <= i < v@.len() && val.contains(#[trigger] v@[i]@),
        JsonInit::Formula(j) => json_sat(j, val),
    }
}

/// Some transition of `doc` from `n` on `a` with `h` half units in its guard
/// has a target that holds in `val`.
pub open spec fn doc_target_holds(doc: ArtaDocument, n: Seq<char>, a: Seq<char>, h: int, val: Set<Seq<char>>) -> bool {
    exists|k: int|
        0 <= k < doc.tran@.len() && (#[trigger] doc.tran@[k]).1.0@ == n && doc.tran@[k].1.1@ == a && (parsed_guard(
            doc.tran@[k].1.2@,
        ) matches Some(g) && g.has(h)) && json_sat(doc.tran@[k].1.3, val)
}

/// Transition `k` is the first one of `doc` that fails a check.
pub open spec fn first_failing(doc: ArtaDocument, k: int) -> bool {
    &&& 0 <= k < doc.tran@.len()
    &&& !transition_ok(doc.tran@[k].0@, doc.tran@[k].1, doc.sigma@)
    &&& forall|j: int| 0 <= j < k ==> #[trigger] transition_ok(doc.tran@[j].0@, doc.tran@[j].1, doc.sigma@)
}

impl ArtaDocument {
    /// The automaton a document describes.
    ///
    /// The initial formula is checked first, then the transitions in order
    /// (identifier, symbol, guard text, guard, target), and the first
    /// failure is reported. The transitions of each location and symbol are
    /// made deterministic: the delays are cut at every guard boundary, and
    /// each piece gets the disjunction of the targets enabled there. Then
    /// the automaton is built, and its own errors reported.
    pub fn into_parsed_arta_json(&self) -> (r: Result<ParsedArtaJson, ArtaJsonError>)
        ensures
            !init_ok(self.init) ==> (r matches Err(e) && init_error(e, self.init)),
            init_ok(self.init) && (exists|k: int| first_failing(*self, k)) ==> (r matches Err(e) && exists|k: int|
                first_failing(*self, k) && transition_error(e, self.tran@[k].0@, self.tran@[k].1, self.sigma@)),
            init_ok(self.init) && !(exists|k: int| first_failing(*self, k)) && doc_names_declared(*self) ==> r is Ok,
            init_ok(self.init) && !(exists|k: int| first_failing(*self, k)) ==> (r is Err ==> (r->Err_0 matches ArtaJsonError::Arta(
                ArtaError::UnknownLocation { loc },
            ) && !strings_view(self.l@).contains(loc@) && doc_references(*self, loc@))),
            r matches Ok(p) ==> {
                &&& p.name@ == self.name@
                &&& strings_view(p.sigma@) == strings_view(self.sigma@)
                &&& p.arta@.locations == sorted_list(strings_view(self.l@).to_set())
                &&& p.arta@.accepting == sorted_list(strings_view(self.accept@).to_set())
                &&& forall|val: Set<Seq<char>>| sat(p.arta@.init, val) == init_sat(self.init, val)
                &&& forall|n: Seq<char>, a: Seq<char>, h: u32, val: Set<Seq<char>>|
                    h <= max_finite() ==> (#[trigger] sat(p.arta@.target(n, a, h), val) == doc_target_holds(
                        *self,
                        n,
                        a,
                        h as int,
                        val,
                    ))
            },
    {
        let manager = DagStateFormulaManager {};
        let init = match self.init.into_state_formula(&manager) {
            Ok(f) => f,
            Err(e) => {
                return Err(e);
            },
        };
        let ghost init_view = init@;
        let mut builder: ArtaBuilder<String> = ArtaBuilder::new(init);
        let mut i: usize = 0;
        while i < self.l.len()
            invariant
                init_ok(self.init),
                i <= self.l@.len(),
                builder@.init == init_view,
                builder@.accepting.len() == 0,
                builder@.pending.len() == 0,
                forall|n: Seq<char>| builder@.locations.contains(n) <==> strings_view(self.l@).take(i as int).contains(n),
            decreases self.l@.len() - i,
        {
            let ghost prev = builder@;
            let loc = LocationId::from_string(self.l[i].clone());
            builder.add_location(loc);
            proof {
                let t0 = strings_view(self.l@).take(i as int);
                let t1 = strings_view(self.l@).take(i + 1);
                assert(t1 =~= t0.push(self.l@[i as int]@));
                assert forall|n: Seq<char>| builder@.locations.contains(n) <==> t1.contains(n) by {
                    assert(builder@.locations.contains(n) <==> (prev.locations.contains(n) || n == self.l@[i as int]@));
                    if t0.contains(n) {
                        let j = choose|j: int| 0 <= j < t0.len() && t0[j] == n;
                        assert(t1[j] == n);
                    }
                    if n == self.l@[i as int]@ {
                        assert(t1[i as int] == n);
                    }
                    if t1.contains(n) {
                        let j = choose|j: int| 0 <= j < t1.len() && t1[j] == n;
                        if j < i {
                            assert(t0[j] == n);
                        }
                    }
                }
            }
            i = i + 1;
        }
        assert(strings_view(self.l@).take(self.l@.len() as int) =~= strings_view(self.l@));
        let mut i: usize = 0;
        while i < self.accept.len()
            invariant
                init_ok(self.init),
                i <= self.accept@.len(),
                builder@.init == init_view,
                builder@.pending.len() == 0,
                forall|n: Seq<char>| builder@.locations.contains(n) <==> strings_view(self.l@).contains(n),
                forall|n: Seq<char>| builder@.accepting.contains(n) <==> strings_view(self.accept@).take(i as int).contains(n),
            decreases self.accept@.len() - i,
        {
            let ghost prev = builder@;
            let loc = LocationId::from_string(self.accept[i].clone());
            builder.add_accepting(loc);
            proof {
                let t0 = strings_view(self.accept@).take(i as int);
                let t1 = strings_view(self.accept@).take(i + 1);
                assert(t1 =~= t0.push(self.accept@[i as int]@));
                assert forall|n: Seq<char>| builder@.accepting.contains(n) <==> t1.contains(n) by {
                    assert(builder@.accepting.contains(n) <==> (prev.accepting.contains(n) || n == self.accept@[i as int]@));
                    if t0.contains(n) {
                        let j = choose|j: int| 0 <= j < t0.len() && t0[j] == n;
                        assert(t1[j] == n);
                    }
                    if n == self.accept@[i as int]@ {
                        assert(t1[i as int] == n);
                    }
                    if t1.contains(n) {
                        let j = choose|j: int| 0 <= j < t1.len() && t1[j] == n;
                        if j < i {
                            assert(t0[j] == n);
                        }
                    }
                }
            }
            i = i + 1;
        }
        proof {
            assert(strings_view(self.l@).take(self.l@.len() as int) =~= strings_view(self.l@));
            assert(strings_view(self.accept@).take(self.accept@.len() as int) =~= strings_view(self.accept@));
        }
        let mut ts: Vec<ParsedJsonTransition> = Vec::new();
        let mut k: usize = 0;
        while k < self.tran.len()
            invariant
                init_ok(self.init),
                k <= self.tran@.len(),
                ts@.len() == k,
                forall|j: int| 0 <= j < k ==> #[trigger] transition_ok(self.tran@[j].0@, self.tran@[j].1, self.sigma@),
                forall|j: int|
                    0 <= j < k ==> {
                        &&& (#[trigger] ts@[j]).source@ == self.tran@[j].1.0@
                        &&& ts@[j].symbol@ == self.tran@[j].1.1@
                        &&& parsed_guard(self.tran@[j].1.2@) == Some(ts@[j].guard@)
                        &&& ts@[j].guard@.wf()
                        &&& ts@[j].guard@.has_witness()
                        &&& forall|val: Set<Seq<char>>| sat(ts@[j].target@, val) == json_sat(self.tran@[j].1.3, val)
                        &&& forall|n: Seq<char>| #[trigger] occurs(ts@[j].target@, n) ==> json_occurs(self.tran@[j].1.3, n)
                    },
            decreases self.tran@.len() - k,
        {
            match read_transition(&self.tran[k].0, &self.tran[k].1, &self.sigma, &manager) {
                Ok(p) => {
                    ts.push(p);
                },
                Err(e) => {
                    proof {
                        assert(first_failing(*self, k as int));
                    }
                    return Err(e);
                },
            }
            k = k + 1;
        }
        proof {
            assert forall|k: int| !first_failing(*self, k) by {
                if 0 <= k < self.tran@.len() {
                    assert(transition_ok(self.tran@[k].0@, self.tran@[k].1, self.sigma@));
                }
            }
        }
        let groups = group_by_key(&ts);
        let ghost gms = groups_models(groups@);
        let ghost tsm = pjt_models(ts@);
        let ghost mut canons: Seq<Seq<PendingModel>> = Seq::empty();
        let mut g: usize = 0;
        while g < groups.len()
            invariant
                gms == groups_models(groups@),
                tsm == pjt_models(ts@),
                forall|j: int| 0 <= j < ts@.len() ==> (#[trigger] ts@[j]).guard@.wf() && ts@[j].guard@.has_witness(),
                grouped(gms, tsm),
                g <= groups@.len(),
                canons.len() == g,
                builder@.init == init_view,
                forall|n: Seq<char>| builder@.locations.contains(n) <==> strings_view(self.l@).contains(n),
                forall|n: Seq<char>| builder@.accepting.contains(n) <==> strings_view(self.accept@).contains(n),
                forall|x: int| 0 <= x < g ==> canon_of(#[trigger] canons[x], gms[x]),
                forall|i: int| 0 <= i < builder@.pending.len() ==> #[trigger] in_some_group(canons, builder@.pending[i]),
                forall|x: int, y: int|
                    0 <= x < canons.len() && 0 <= y < canons[x].len() ==> builder@.pending.contains(
                        #[trigger] canons[x][y],
                    ),
            decreases groups@.len() - g,
        {
            assert(gms[g as int] == pjt_models(groups@[g as int]@));
            assert(gms[g as int].len() > 0);
            let ghost gg = groups@[g as int]@;
            proof {
                assert forall|i: int| 0 <= i < gg.len() implies (#[trigger] gg[i]).guard@.wf() && gg[i].guard@.has_witness() by {
                    assert(gms[g as int][i] == pjt_model(gg[i]));
                    assert(tsm.contains(gms[g as int][i]));
                    let j = choose|j: int| 0 <= j < tsm.len() && tsm[j] == gms[g as int][i];
                    assert(tsm[j] == pjt_model(ts@[j]));
                }
            }
            let c = canonicalize_transition_bucket(&manager, &groups[g]);
            proof {
                lemma_canon_models(c@, gg);
            }
            let ghost cm = pjt_models(c@);
            let ghost before = builder@.pending;
            let mut x: usize = 0;
            while x < c.len()
                invariant
                    cm == pjt_models(c@),
                    x <= c@.len(),
                    builder@.pending == before + cm.take(x as int),
                    builder@.init == init_view,
                    forall|n: Seq<char>| builder@.locations.contains(n) <==> strings_view(self.l@).contains(n),
                    forall|n: Seq<char>| builder@.accepting.contains(n) <==> strings_view(self.accept@).contains(n),
                decreases c@.len() - x,
            {
                let t = copy_pjt(&c[x]);
                assert(pjt_model(t) == cm[x as int]);
                builder.add_transition(t.source, t.symbol, t.guard, t.target);
                proof {
                    assert(cm.take(x + 1) =~= cm.take(x as int).push(cm[x as int]));
                }
                x = x + 1;
            }
            proof {
                assert(cm.take(x as int) =~= cm);
                let nc = canons.push(cm);
                assert forall|i: int| 0 <= i < builder@.pending.len() implies #[trigger] in_some_group(nc, builder@.pending[i]) by {
                    if i < before.len() {
                        assert(builder@.pending[i] == before[i]);
                        assert(in_some_group(canons, before[i]));
                        let (a, b) = choose|a: int, b: int| 0 <= a < canons.len() && 0 <= b < canons[a].len() && #[trigger] canons[a][b] == before[i];
                        assert(nc[a][b] == before[i]);
                    } else {
                        assert(builder@.pending[i] == cm[i - before.len()]);
                        assert(nc[g as int][i - before.len()] == cm[i - before.len()]);
                    }
                }
                assert forall|a: int, b: int|
                    0 <= a < nc.len() && 0 <= b < nc[a].len() implies builder@.pending.contains(#[trigger] nc[a][b]) by {
                    if a < canons.len() {
                        assert(nc[a] == canons[a]);
                        assert(before.contains(canons[a][b]));
                        let i = choose|i: int| 0 <= i < before.len() && before[i] == canons[a][b];
                        assert(builder@.pending[i] == before[i]);
                    } else {
                        assert(builder@.pending[before.len() + b] == cm[b]);
                    }
                }
                assert forall|y: int| 0 <= y < g + 1 implies canon_of(#[trigger] nc[y], gms[y]) by {
                    if y < g {
                        assert(nc[y] == canons[y]);
                    }
                }
                canons = nc;
            }
            g = g + 1;
        }
        let ghost m = builder@;
        proof {
            lemma_canon_pending(m.pending, canons, gms, tsm);
            assert forall|n: Seq<char>| referenced(m, n) implies doc_references(*self, n) by {
                if occurs(m.init, n) {
                    assert(init_occurs(self.init, n));
                } else if m.accepting.contains(n) {
                    assert(strings_view(self.accept@).contains(n));
                } else {
                    let i = choose|i: int| 0 <= i < m.pending.len() && #[trigger] references(m.pending[i], n);
                    if m.pending[i].0 == n {
                        assert(m_source(tsm, m.pending[i].0));
                        let k = choose|k: int| 0 <= k < tsm.len() && (#[trigger] tsm[k]).0 == m.pending[i].0;
                        assert(tsm[k] == pjt_model(ts@[k]));
                        assert(tran_references(self.tran@[k].1, n));
                    } else {
                        assert(occurs(m.pending[i].3, n));
                        assert(m_occurs(tsm, n));
                        let k = choose|k: int| 0 <= k < tsm.len() && occurs(#[trigger] tsm[k].3, n);
                        assert(tsm[k] == pjt_model(ts@[k]));
                        assert(occurs(ts@[k].target@, n));
                        assert(tran_references(self.tran@[k].1, n));
                    }
                }
            }
        }
        let arta = match builder.build() {
            Ok(a) => a,
            Err(e) => {
                proof {
                    match e {
                        ArtaError::UnknownLocation { ref loc } => {
                            assert(referenced(m, loc@));
                            assert(doc_references(*self, loc@));
                        },
                        ArtaError::InvalidInterval { .. } => {
                            let i = choose|i: int|
                                0 <= i < m.pending.len() && !(#[trigger] m.pending[i].2.wf() && m.pending[i].2.has_witness());
                            assert(false);
                        },
                        ArtaError::NonDeterministic { ref loc, ref symbol, ref guard1, ref guard2, ref witness } => {
                            let (i, j) = choose|i: int, j: int|
                                0 <= i < m.pending.len() && 0 <= j < m.pending.len() && #[trigger] clash_at(
                                    m.pending[i],
                                    m.pending[j],
                                    loc@,
                                    symbol.key(),
                                    guard1@,
                                    guard2@,
                                );
                            assert(pending_clash(m.pending[i], m.pending[j]));
                            assert(false);
                        },
                    }
                }
                return Err(ArtaJsonError::Arta(e));
            },
        };
        proof {
            use_type_invariant(&arta);
            let am = arta@;
            assert(built_from(am, m));
            assert(am.locations.to_set() =~= strings_view(self.l@).to_set());
            assert(am.accepting.to_set() =~= strings_view(self.accept@).to_set());
            lemma_sorted_list_of(am.locations);
            lemma_sorted_list_of(am.accepting);
            assert forall|n: Seq<char>, a: Seq<char>, h: u32, val: Set<Seq<char>>|
                h <= max_finite() implies (#[trigger] sat(am.target(n, a, h), val) == doc_target_holds(
                *self,
                n,
                a,
                h as int,
                val,
            )) by {
                lemma_built_target(am, m, n, a, h, val);
                lemma_canon_groups(m.pending, canons, gms, tsm, n, a, h as int, val);
                if keyed_hold(tsm, n, a, h as int, val) {
                    let k = choose|k: int|
                        0 <= k < tsm.len() && #[trigger] tsm[k].2.has(h as int) && tsm[k].0 == n && tsm[k].1 == a && sat(
                            tsm[k].3,
                            val,
                        );
                    assert(tsm[k] == pjt_model(ts@[k]));
                    assert(self.tran@[k].1.0@ == n);
                }
                if doc_target_holds(*self, n, a, h as int, val) {
                    let k = choose|k: int|
                        0 <= k < self.tran@.len() && (#[trigger] self.tran@[k]).1.0@ == n && self.tran@[k].1.1@ == a && (
                        parsed_guard(self.tran@[k].1.2@) matches Some(g) && g.has(h as int)) && json_sat(
                            self.tran@[k].1.3,
                            val,
                        );
                    assert(tsm[k] == pjt_model(ts@[k]));
                    assert(tsm[k].2.has(h as int));
                }
            }
        }
        let mut sigma: Vec<String> = Vec::new();
        let mut i: usize = 0;
        while i < self.sigma.len()
            invariant
                i <= self.sigma@.len(),
                strings_view(sigma@) == strings_view(self.sigma@).take(i as int),
            decreases self.sigma@.len() - i,
        {
            let ghost prev = sigma@;
            sigma.push(self.sigma[i].clone());
            assert(strings_view(sigma@) =~= strings_view(prev).push(self.sigma@[i as int]@));
            assert(strings_view(self.sigma@).take(i + 1) =~= strings_view(self.sigma@).take(i as int).push(
                self.sigma@[i as int]@,
            ));
            i = i + 1;
        }
        assert(strings_view(self.sigma@).take(i as int) =~= strings_view(self.sigma@));
        Ok(ParsedArtaJson { name: self.name.clone(), sigma, arta })
    }
}

} // verus!
