//! Exact white-box equivalence oracle.
//!
//! The oracle compares a target automaton and a hypothesis by breadth-first
//! search over pairs of state formulas, identified up to semantic
//! equivalence. For each search state and symbol it tries one representative
//! delay per guard-membership class of the outgoing guards of both formulas,
//! larger classes first. Counterexamples are therefore shortest first, then
//! by earlier symbols of the alphabet, then by larger delay classes.

use vstd::prelude::*;

use super::closure::{
    agree_below, agree_on, explored, extends, has_successor, lemma_done_grow, lemma_explored_agree,
    lemma_explored_agree_below, lemma_explored_facts, lemma_explored_init, lemma_explored_push, lemma_explored_seen,
    lemma_nothing_done, lemma_rep_done, lemma_state_done, lemma_symbol_done, occurs_listed, reps_done, symbols_done,
};
use super::finite::{lemma_powerset_finite, lemma_product_finite, powerset, product};
use super::partition::{
    interval_half_range, interval_to_half_unit_range, partition_half_unit_ranges, partition_ok, HalfUnitRange,
};
use crate::arta::{
    bucket_edges, edge_model, edges_model, first_enabled, has_bucket, restrict, supported, Arta, ArtaModel, BucketModel,
    EdgeModel,
};
use crate::location::{lemma_names_contains, names_of, LocationId};
use crate::state_formula::formula::{occurs, sat, DagStateFormula, Formula};
use crate::text::{lemma_sorted_list_of, sorted_list};
use crate::state_formula::minimal_model::{key_holds, MinimalModelKey};
use crate::symbol::Symbol;
use crate::time::delay::{half_is_infinite, DelayRep};
use crate::time::interval::max_finite;
use crate::timed_word::{copy_letters, letter_key, letters_key, TimedWord};

verus! {


/// Errors produced by the exact white-box equivalence oracle.
#[derive(Debug, Clone, PartialEq, Eq)]
#[non_exhaustive]
pub enum WhiteBoxEqOracleError {
    /// The supplied alphabet is empty.
    EmptyAlphabet,
}

/// Exact white-box equivalence oracle over a known target automaton.
///
/// Its view is the target's model and the keys of the alphabet, in order.
#[derive(Debug)]
pub struct WhiteBoxEqOracle<A: Symbol> {
    target: Arta<A>,
    alphabet: Vec<A>,
}

/// The keys of a sequence of symbols.
pub open spec fn symbol_keys<A: Symbol>(s: Seq<A>) -> Seq<Seq<char>> {
    Seq::new(s.len(), |i: int| s[i].key())
}

impl<A: Symbol> View for WhiteBoxEqOracle<A> {
    type V = (ArtaModel, Seq<Seq<char>>);

    closed spec fn view(&self) -> (ArtaModel, Seq<Seq<char>>) {
        (self.target@, symbol_keys(self.alphabet@))
    }
}

/// A state of the search: the formulas both automata reach on `word`.
struct SearchState<A> {
    tf: DagStateFormula,
    hf: DagStateFormula,
    word: Vec<(A, DelayRep)>,
}

/// The formula pairs of the states `q`.
spec fn pairs<A>(q: Seq<SearchState<A>>) -> Seq<(Formula, Formula)> {
    Seq::new(q.len(), |i: int| (q[i].tf@, q[i].hf@))
}

/// The lengths of the words of the states `q`.
spec fn lens<A>(q: Seq<SearchState<A>>) -> Seq<int> {
    Seq::new(q.len(), |i: int| q[i].word@.len() as int)
}

/// The sets of locations of `locs` on which a key holds.
pub open spec fn key_model(k: Seq<Seq<Seq<char>>>, locs: Seq<Seq<char>>) -> Set<Set<Seq<char>>> {
    Set::new(|s: Set<Seq<char>>| s.subset_of(locs.to_set()) && key_holds(k, s))
}

/// A key's truth depends only on the locations `locs`.
pub open spec fn key_supported(k: Seq<Seq<Seq<char>>>, locs: Seq<Seq<char>>) -> bool {
    forall|val: Set<Seq<char>>| key_holds(k, val) == #[trigger] key_holds(k, restrict(val, locs))
}

/// Two keys hold under exactly the same valuations.
pub open spec fn keys_equivalent(a: Seq<Seq<Seq<char>>>, b: Seq<Seq<Seq<char>>>) -> bool {
    forall|val: Set<Seq<char>>| #[trigger] key_holds(a, val) == key_holds(b, val)
}

/// Supported keys with the same model are equivalent.
proof fn lemma_same_model_equivalent(a: Seq<Seq<Seq<char>>>, b: Seq<Seq<Seq<char>>>, locs: Seq<Seq<char>>)
    requires
        key_supported(a, locs),
        key_supported(b, locs),
        key_model(a, locs) == key_model(b, locs),
    ensures
        keys_equivalent(a, b),
{
    assert forall|val: Set<Seq<char>>| #[trigger] key_holds(a, val) == key_holds(b, val) by {
        let r = restrict(val, locs);
        assert(r.subset_of(locs.to_set()));
        assert(key_model(a, locs).contains(r) == key_holds(a, r));
        assert(key_model(b, locs).contains(r) == key_holds(b, r));
        assert(key_holds(a, val) == key_holds(a, r));
        assert(key_holds(b, val) == key_holds(b, r));
    }
}

/// The model pair of a visited entry.
pub open spec fn entry_models(e: (Seq<Seq<Seq<char>>>, Seq<Seq<Seq<char>>>), tl: Seq<Seq<char>>, hl: Seq<Seq<char>>) -> (
    Set<Set<Seq<char>>>,
    Set<Set<Seq<char>>>,
) {
    (key_model(e.0, tl), key_model(e.1, hl))
}

/// The key pairs of the visited entries.
pub open spec fn entry_keys(v: Seq<(MinimalModelKey, MinimalModelKey)>) -> Seq<(Seq<Seq<Seq<char>>>, Seq<Seq<Seq<char>>>)> {
    Seq::new(v.len(), |i: int| (v[i].0@, v[i].1@))
}

/// The model pairs of the visited entries.
pub open spec fn visited_models(
    ek: Seq<(Seq<Seq<Seq<char>>>, Seq<Seq<Seq<char>>>)>,
    tl: Seq<Seq<char>>,
    hl: Seq<Seq<char>>,
) -> Set<(Set<Set<Seq<char>>>, Set<Set<Seq<char>>>)> {
    Set::new(|p: (Set<Set<Seq<char>>>, Set<Set<Seq<char>>>)| exists|i: int| 0 <= i < ek.len() && p == #[trigger] entry_models(ek[i], tl, hl))
}

/// All model pairs the search can meet.
pub open spec fn search_universe(tl: Seq<Seq<char>>, hl: Seq<Seq<char>>) -> Set<(Set<Set<Seq<char>>>, Set<Set<Seq<char>>>)> {
    product(powerset(powerset(tl.to_set())), powerset(powerset(hl.to_set())))
}

/// Formulas `tf` and `hf` are what the target and the hypothesis reach on
/// `word`, each depending only on its automaton's locations, and `word` uses
/// only symbols of the alphabet.
#[verifier::opaque]
pub open spec fn word_ok<A: Symbol>(
    tf: Formula,
    hf: Formula,
    word: Seq<(A, DelayRep)>,
    t: ArtaModel,
    h: ArtaModel,
    alpha: Seq<Seq<char>>,
) -> bool {
    &&& forall|val: Set<Seq<char>>|
        #![trigger sat(tf, val)]
        sat(tf, val) == sat(t.init, t.post(letters_key(word), val))
    &&& forall|val: Set<Seq<char>>|
        #![trigger sat(hf, val)]
        sat(hf, val) == sat(h.init, h.post(letters_key(word), val))
    &&& supported(tf, t.locations)
    &&& supported(hf, h.locations)
    &&& forall|i: int| 0 <= i < word.len() ==> alpha.contains(#[trigger] word[i].0.key())
    &&& finite_delays(word)
}

/// Every delay of `w` is finite.
pub open spec fn finite_delays<A: Symbol>(w: Seq<(A, DelayRep)>) -> bool {
    forall|i: int| 0 <= i < w.len() ==> !half_is_infinite(#[trigger] w[i].1@)
}

spec fn state_ok<A: Symbol>(s: SearchState<A>, t: ArtaModel, h: ArtaModel, alpha: Seq<Seq<char>>) -> bool {
    word_ok(s.tf@, s.hf@, s.word@, t, h, alpha)
}

/// The search bookkeeping: visited entries are supported keys whose model
/// pairs lie in the finite search universe.
pub open spec fn visited_ok(v: Seq<(MinimalModelKey, MinimalModelKey)>, tl: Seq<Seq<char>>, hl: Seq<Seq<char>>) -> bool {
    &&& search_universe(tl, hl).finite()
    &&& visited_models(entry_keys(v), tl, hl).subset_of(search_universe(tl, hl))
    &&& visited_models(entry_keys(v), tl, hl).finite()
    &&& visited_models(entry_keys(v), tl, hl).len() <= search_universe(tl, hl).len()
    &&& forall|i: int| 0 <= i < v.len() ==> #[trigger] entry_supported(v[i], tl, hl)
}

/// Both keys of a visited entry depend only on their automata's locations.
pub open spec fn entry_supported(e: (MinimalModelKey, MinimalModelKey), tl: Seq<Seq<char>>, hl: Seq<Seq<char>>) -> bool {
    key_supported(e.0@, tl) && key_supported(e.1@, hl)
}

/// A key's model is a set of subsets of the locations.
proof fn lemma_key_model_in_universe(k: Seq<Seq<Seq<char>>>, locs: Seq<Seq<char>>)
    ensures
        powerset(powerset(locs.to_set())).contains(key_model(k, locs)),
{
    assert forall|s: Set<Seq<char>>| key_model(k, locs).contains(s) implies powerset(locs.to_set()).contains(s) by {}
}

/// Adding an entry that is equivalent to no visited entry adds one new
/// model pair inside the universe.
proof fn lemma_visit_new(
    v: Seq<(MinimalModelKey, MinimalModelKey)>,
    e: (MinimalModelKey, MinimalModelKey),
    tl: Seq<Seq<char>>,
    hl: Seq<Seq<char>>,
)
    requires
        visited_ok(v, tl, hl),
        key_supported(e.0@, tl),
        key_supported(e.1@, hl),
        !exists|i: int| 0 <= i < v.len() && keys_equivalent(#[trigger] v[i].0@, e.0@) && keys_equivalent(v[i].1@, e.1@),
    ensures
        visited_ok(v.push(e), tl, hl),
        visited_models(entry_keys(v.push(e)), tl, hl).len() == visited_models(entry_keys(v), tl, hl).len() + 1,
{
    broadcast use vstd::set::group_set_axioms, vstd::set_lib::group_set_lib_default;

    let ek = entry_keys(v);
    let ek2 = entry_keys(v.push(e));
    let vm = visited_models(ek, tl, hl);
    let nm = entry_models((e.0@, e.1@), tl, hl);
    assert(ek2 =~= ek.push((e.0@, e.1@)));
    assert(visited_models(ek2, tl, hl) =~= vm.insert(nm)) by {
        assert forall|p: (Set<Set<Seq<char>>>, Set<Set<Seq<char>>>)| visited_models(ek2, tl, hl).contains(p) == vm.insert(nm).contains(p) by {
            if visited_models(ek2, tl, hl).contains(p) {
                let i = choose|i: int| 0 <= i < ek2.len() && p == #[trigger] entry_models(ek2[i], tl, hl);
                if i < ek.len() {
                    assert(ek2[i] == ek[i]);
                }
            }
            if vm.contains(p) {
                let i = choose|i: int| 0 <= i < ek.len() && p == #[trigger] entry_models(ek[i], tl, hl);
                assert(ek2[i] == ek[i]);
            }
            if p == nm {
                assert(ek2[ek.len() as int] == (e.0@, e.1@));
            }
        }
    }
    assert(!vm.contains(nm)) by {
        if vm.contains(nm) {
            let i = choose|i: int| 0 <= i < ek.len() && nm == #[trigger] entry_models(ek[i], tl, hl);
            assert(ek[i] == (v[i].0@, v[i].1@));
            assert(entry_supported(v[i], tl, hl));
            lemma_same_model_equivalent(v[i].0@, e.0@, tl);
            lemma_same_model_equivalent(v[i].1@, e.1@, hl);
        }
    }
    lemma_key_model_in_universe(e.0@, tl);
    lemma_key_model_in_universe(e.1@, hl);
    assert(search_universe(tl, hl).contains(nm));
    vstd::set_lib::lemma_len_subset(vm.insert(nm), search_universe(tl, hl));
    assert forall|i: int| 0 <= i < v.push(e).len() implies #[trigger] entry_supported(v.push(e)[i], tl, hl) by {
        if i < v.len() {
            assert(v.push(e)[i] == v[i]);
            assert(entry_supported(v[i], tl, hl));
        } else {
            assert(v.push(e)[i] == e);
        }
    }
    assert(vm.insert(nm).subset_of(search_universe(tl, hl)));
    assert(vm.insert(nm).finite());
    assert(visited_models(entry_keys(v.push(e)), tl, hl) == vm.insert(nm));
    assert(vm.insert(nm).len() == vm.len() + 1);
}

/// The successor of a location is `⊥` or some edge target.
proof fn lemma_target_supported(m: ArtaModel, n: Seq<char>, a: Seq<char>, h: u32)
    requires
        m.wf(),
    ensures
        supported(m.target(n, a, h), m.locations),
{
    if !crate::time::delay::half_is_infinite(h) {
        let es = bucket_edges(m.buckets, n, a);
        lemma_bucket_edges_some(m.buckets, n, a);
        let f = first_enabled(es, h as int);
        lemma_first_enabled_some(es, h as int);
        if f != Formula::Bot {
            let k = choose|k: int| 0 <= k < es.len() && f == #[trigger] es[k].1;
            let i = choose|i: int| 0 <= i < m.buckets.len() && es == #[trigger] m.buckets[i].2;
            assert(crate::arta::bucket_ok(m.locations, m.buckets[i]));
            assert(crate::arta::edge_ok(m.locations, m.buckets[i].2[k]));
        }
    }
}

proof fn lemma_first_enabled_some(es: Seq<EdgeModel>, h: int)
    ensures
        first_enabled(es, h) == Formula::Bot || exists|k: int| 0 <= k < es.len() && first_enabled(es, h) == #[trigger] es[k].1,
    decreases es.len(),
{
    if es.len() > 0 && !es[0].0.has(h) {
        lemma_first_enabled_some(es.drop_first(), h);
        if first_enabled(es, h) != Formula::Bot {
            let k = choose|k: int| 0 <= k < es.drop_first().len() && first_enabled(es.drop_first(), h) == #[trigger] es.drop_first()[k].1;
            assert(es[k + 1] == es.drop_first()[k]);
        }
    }
}

proof fn lemma_bucket_edges_some(bs: Seq<BucketModel>, n: Seq<char>, a: Seq<char>)
    ensures
        bucket_edges(bs, n, a).len() == 0 || exists|i: int| 0 <= i < bs.len() && bucket_edges(bs, n, a) == #[trigger] bs[i].2,
    decreases bs.len(),
{
    if bs.len() > 0 && !(bs[0].0 == n && bs[0].1 == a) {
        lemma_bucket_edges_some(bs.drop_first(), n, a);
        if bucket_edges(bs, n, a).len() != 0 {
            let i = choose|i: int| 0 <= i < bs.drop_first().len() && bucket_edges(bs.drop_first(), n, a) == #[trigger] bs.drop_first()[i].2;
            assert(bs[i + 1] == bs.drop_first()[i]);
        }
    }
}

/// One step depends only on the declared locations.
proof fn lemma_step_val_restrict(m: ArtaModel, a: Seq<char>, h: u32, val: Set<Seq<char>>)
    requires
        m.wf(),
    ensures
        m.step_val(a, h, val) == m.step_val(a, h, restrict(val, m.locations)),
{
    assert(m.step_val(a, h, val) =~= m.step_val(a, h, restrict(val, m.locations))) by {
        assert forall|n: Seq<char>| m.step_val(a, h, val).contains(n) == m.step_val(a, h, restrict(val, m.locations)).contains(n) by {
            lemma_target_supported(m, n, a, h);
            assert(sat(m.target(n, a, h), val) == sat(m.target(n, a, h), restrict(val, m.locations)));
        }
    }
}

/// `true` iff some visited entry is equivalent to the pair `(tk, hk)`.
fn is_visited(visited: &Vec<(MinimalModelKey, MinimalModelKey)>, tk: &MinimalModelKey, hk: &MinimalModelKey) -> (r: bool)
    ensures
        r == exists|i: int|
            0 <= i < visited@.len() && keys_equivalent(#[trigger] visited@[i].0@, tk@) && keys_equivalent(visited@[i].1@, hk@),
{
    let mut i: usize = 0;
    while i < visited.len()
        invariant
            i <= visited@.len(),
            forall|j: int| 0 <= j < i ==> !(keys_equivalent(#[trigger] visited@[j].0@, tk@) && keys_equivalent(visited@[j].1@, hk@)),
        decreases visited@.len() - i,
    {
        let e1 = visited[i].0.equivalent_to(tk);
        let e2 = visited[i].1.equivalent_to(hk);
        if e1 && e2 {
            proof {
                assert(keys_equivalent(visited@[i as int].0@, tk@));
                assert(keys_equivalent(visited@[i as int].1@, hk@));
            }
            return true;
        }
        proof {
            if keys_equivalent(visited@[i as int].0@, tk@) {
                assert(e1);
            }
            if keys_equivalent(visited@[i as int].1@, hk@) {
                assert(e2);
            }
        }
        i = i + 1;
    }
    false
}

/// The half-unit ranges of the guards of `es`, in order, skipping guards
/// that hold no representable delay.
pub open spec fn edge_ranges(es: Seq<EdgeModel>) -> Seq<HalfUnitRange>
    decreases es.len(),
{
    if es.len() == 0 {
        Seq::empty()
    } else {
        let rest = edge_ranges(es.drop_last());
        match interval_half_range(es.last().0) {
            Some(r) => rest.push(r),
            None => rest,
        }
    }
}

/// The guard ranges of the transitions leaving each of the locations `vars`
/// on symbol `a`, location by location.
pub open spec fn locations_guard_ranges(vars: Seq<Seq<char>>, bs: Seq<BucketModel>, a: Seq<char>) -> Seq<HalfUnitRange>
    decreases vars.len(),
{
    if vars.len() == 0 {
        Seq::empty()
    } else {
        locations_guard_ranges(vars.drop_last(), bs, a) + edge_ranges(bucket_edges(bs, vars.last(), a))
    }
}

/// The guard ranges of the transitions on `a` leaving the locations of `f`,
/// taken in name order.
pub open spec fn formula_guard_ranges(f: Formula, bs: Seq<BucketModel>, a: Seq<char>) -> Seq<HalfUnitRange> {
    locations_guard_ranges(sorted_list(Set::new(|n: Seq<char>| occurs(f, n))), bs, a)
}

/// The preferred half-unit count of each cell, last cell first, for the
/// cells whose preferred count is a representable delay.
pub open spec fn preference_halves(cells: Seq<HalfUnitRange>) -> Seq<u32>
    decreases cells.len(),
{
    if cells.len() == 0 {
        Seq::empty()
    } else {
        let c = cells.last();
        let h = match c.end {
            Some(e) => e,
            None => c.start,
        };
        let rest = preference_halves(cells.drop_last());
        if h <= u32::MAX {
            seq![h as u32] + rest
        } else {
            rest
        }
    }
}

/// The preferred delays of cells that lie within the finite counts are
/// finite.
proof fn lemma_preference_finite(cells: Seq<HalfUnitRange>)
    requires
        forall|i: int| 0 <= i < cells.len() ==> (#[trigger] cells[i]).start <= max_finite() && match cells[i].end {
            Some(e) => e <= max_finite(),
            None => true,
        },
    ensures
        forall|k: int| 0 <= k < preference_halves(cells).len() ==> #[trigger] preference_halves(cells)[k] <= max_finite(),
    decreases cells.len(),
{
    if cells.len() > 0 {
        let c = cells.last();
        let rest = cells.drop_last();
        assert forall|i: int| 0 <= i < rest.len() implies (#[trigger] rest[i]).start <= max_finite() && match rest[i].end {
            Some(e) => e <= max_finite(),
            None => true,
        } by {
            assert(rest[i] == cells[i]);
        }
        lemma_preference_finite(rest);
        assert(cells[cells.len() - 1] == c);
        let h = match c.end {
            Some(e) => e,
            None => c.start,
        };
        let pr = preference_halves(rest);
        assert(h <= max_finite());
        assert(preference_halves(cells) == seq![h as u32] + pr);
        assert forall|k: int| 0 <= k < preference_halves(cells).len() implies #[trigger] preference_halves(cells)[k]
            <= max_finite() by {
            if k > 0 {
                assert(preference_halves(cells)[k] == pr[k - 1]);
            }
        }
    }
}

/// `ranges` followed by the half-unit ranges of the guards leaving the
/// locations of `formula` on `symbol`.
fn collect_guard_ranges<A: Symbol>(formula: &DagStateFormula, symbol: &A, arta: &Arta<A>, ranges: Vec<HalfUnitRange>) -> (r:
    Vec<HalfUnitRange>)
    ensures
        r@ == ranges@ + formula_guard_ranges(formula@, arta@.buckets, symbol.key()),
        occurs_listed(formula@),
{
    let ghost bs = arta@.buckets;
    let ghost a = symbol.key();
    let mut out = ranges;
    let vars = formula.vars();
    let ghost vs = names_of(vars@);
    proof {
        assert(vs.to_set() =~= Set::new(|n: Seq<char>| occurs(formula@, n))) by {
            assert forall|n: Seq<char>| vs.to_set().contains(n) == occurs(formula@, n) by {
                lemma_names_contains(vars@, n);
            }
        }
        lemma_sorted_list_of(vs);
        assert(vs.take(0) =~= Seq::<Seq<char>>::empty());
        assert forall|n: Seq<char>| #[trigger] occurs(formula@, n) implies sorted_list(
            Set::new(|n: Seq<char>| occurs(formula@, n)),
        ).contains(n) by {
            lemma_names_contains(vars@, n);
            assert(vs.to_set().contains(n));
        }
    }
    let mut i: usize = 0;
    while i < vars.len()
        invariant
            vs == names_of(vars@),
            i <= vars@.len(),
            out@ == ranges@ + locations_guard_ranges(vs.take(i as int), bs, a),
            bs == arta@.buckets,
            a == symbol.key(),
        decreases vars@.len() - i,
    {
        let ghost base = out@;
        let ghost es = bucket_edges(bs, vars@[i as int]@, a);
        match arta.outgoing(&vars[i], symbol) {
            Some(edges) => {
                let mut k: usize = 0;
                proof {
                    assert(edges_model(edges@).take(0) =~= Seq::<EdgeModel>::empty());
                }
                while k < edges.len()
                    invariant
                        k <= edges@.len(),
                        edges_model(edges@) == es,
                        out@ == base + edge_ranges(es.take(k as int)),
                    decreases edges@.len() - k,
                {
                    proof {
                        assert(es.take(k + 1).drop_last() =~= es.take(k as int));
                        assert(es.take(k + 1).last() == edge_model(edges@[k as int]));
                    }
                    match interval_to_half_unit_range(&edges[k].guard) {
                        Some(range) => out.push(range),
                        None => {},
                    }
                    k = k + 1;
                }
                proof {
                    assert(es.take(k as int) =~= es);
                }
            },
            None => {
                proof {
                    crate::arta::lemma_no_bucket_no_edges(bs, vars@[i as int]@, a);
                    assert(es =~= Seq::<EdgeModel>::empty());
                    assert(edge_ranges(es) =~= Seq::<HalfUnitRange>::empty());
                }
            },
        }
        proof {
            assert(vs.take(i + 1).drop_last() =~= vs.take(i as int));
            assert(vs.take(i + 1).last() == vars@[i as int]@);
        }
        i = i + 1;
    }
    proof {
        assert(vs.take(i as int) =~= vs);
    }
    out
}

/// One representative delay per guard-membership class of the guards
/// leaving both formulas on `symbol`, larger classes first.
fn delay_representatives<A: Symbol>(
    tf: &DagStateFormula,
    hf: &DagStateFormula,
    symbol: &A,
    target: &Arta<A>,
    hyp: &Arta<A>,
) -> (r: Vec<DelayRep>)
    ensures
        exists|cells: Seq<HalfUnitRange>|
            #[trigger] partition_ok(
                formula_guard_ranges(tf@, target@.buckets, symbol.key()) + formula_guard_ranges(
                    hf@,
                    hyp@.buckets,
                    symbol.key(),
                ),
                cells,
            ) && r@.map_values(|d: DelayRep| d@) == preference_halves(cells),
        occurs_listed(tf@),
        occurs_listed(hf@),
{
    let ranges = collect_guard_ranges(tf, symbol, target, Vec::new());
    let ranges = collect_guard_ranges(hf, symbol, hyp, ranges);
    proof {
        assert(ranges@ =~= formula_guard_ranges(tf@, target@.buckets, symbol.key()) + formula_guard_ranges(
            hf@,
            hyp@.buckets,
            symbol.key(),
        ));
    }
    let cells = partition_half_unit_ranges(ranges.as_slice());
    let mut reps: Vec<DelayRep> = Vec::new();
    let mut i: usize = cells.len();
    proof {
        assert(cells@.take(cells@.len() as int) =~= cells@);
    }
    while i > 0
        invariant
            i <= cells@.len(),
            reps@.map_values(|d: DelayRep| d@) + preference_halves(cells@.take(i as int)) == preference_halves(cells@),
        decreases i,
    {
        let ghost before = reps@;
        i = i - 1;
        proof {
            assert(cells@.take(i + 1).drop_last() =~= cells@.take(i as int));
            assert(cells@.take(i + 1).last() == cells@[i as int]);
        }
        match cells[i].descending_preference_delay() {
            Some(d) => {
                reps.push(d);
                proof {
                    assert(reps@.map_values(|d: DelayRep| d@) =~= before.map_values(|d: DelayRep| d@).push(d@));
                    assert(before.map_values(|d: DelayRep| d@).push(d@) + preference_halves(cells@.take(i as int))
                        =~= before.map_values(|d: DelayRep| d@) + (seq![d@] + preference_halves(cells@.take(i as int))));
                }
            },
            None => {},
        }
    }
    proof {
        assert(cells@.take(0) =~= Seq::<HalfUnitRange>::empty());
        assert(reps@.map_values(|d: DelayRep| d@) + Seq::<u32>::empty() =~= reps@.map_values(|d: DelayRep| d@));
    }
    reps
}

impl<A: Symbol> WhiteBoxEqOracle<A> {
    /// Create an oracle for `target` over `alphabet`; the order of the
    /// alphabet breaks ties among equally short counterexamples.
    pub fn try_new(target: Arta<A>, alphabet: Vec<A>) -> (r: Result<Self, WhiteBoxEqOracleError>)
        ensures
            r is Err <==> alphabet@.len() == 0,
            r is Err ==> r->Err_0 == WhiteBoxEqOracleError::EmptyAlphabet,
            r is Ok ==> r->Ok_0@ == (target@, symbol_keys(alphabet@)),
    {
        if alphabet.len() == 0 {
            return Err(WhiteBoxEqOracleError::EmptyAlphabet);
        }
        Ok(WhiteBoxEqOracle { target, alphabet })
    }
}


/// One more letter: the formula after a step is what the automaton reaches
/// on the longer word, and it depends only on the automaton's locations.
proof fn lemma_step_word<A: Symbol>(
    m: ArtaModel,
    before: Formula,
    after: Formula,
    word: Seq<(A, DelayRep)>,
    x: (A, DelayRep),
)
    requires
        m.wf(),
        forall|val: Set<Seq<char>>| #![trigger sat(before, val)] sat(before, val) == sat(m.init, m.post(letters_key(word), val)),
        forall|val: Set<Seq<char>>| #![trigger sat(after, val)] sat(after, val) == sat(before, m.step_val(x.0.key(), x.1@, val)),
    ensures
        forall|val: Set<Seq<char>>|
            #![trigger sat(after, val)]
            sat(after, val) == sat(m.init, m.post(letters_key(word.push(x)), val)),
        supported(after, m.locations),
{
    assert(letters_key(word.push(x)) =~= letters_key(word).push(letter_key(x)));
    assert forall|val: Set<Seq<char>>| #![trigger sat(after, val)] sat(after, val) == sat(m.init, m.post(letters_key(word.push(x)), val)) by {
        crate::arta::execution::lemma_post_push(m, letters_key(word), letter_key(x), val);
        let sv = m.step_val(x.0.key(), x.1@, val);
        assert(sat(before, sv) == sat(m.init, m.post(letters_key(word), sv)));
    }
    assert forall|val: Set<Seq<char>>| sat(after, val) == #[trigger] sat(after, restrict(val, m.locations)) by {
        lemma_step_val_restrict(m, x.0.key(), x.1@, val);
        assert(sat(after, restrict(val, m.locations)) == sat(before, m.step_val(x.0.key(), x.1@, restrict(val, m.locations))));
    }
}

/// A formula equivalent to a key makes the key depend only on what the
/// formula depends on.
proof fn lemma_key_supported(f: Formula, k: Seq<Seq<Seq<char>>>, locs: Seq<Seq<char>>)
    requires
        supported(f, locs),
        forall|val: Set<Seq<char>>| #![trigger key_holds(k, val)] key_holds(k, val) == sat(f, val),
    ensures
        key_supported(k, locs),
{
    assert forall|val: Set<Seq<char>>| key_holds(k, val) == #[trigger] key_holds(k, restrict(val, locs)) by {
        assert(sat(f, val) == sat(f, restrict(val, locs)));
    }
}

/// The automaton is well formed (kept opaque in the search loops).
#[verifier::opaque]
pub open spec fn arta_wf(m: ArtaModel) -> bool {
    m.wf()
}

/// The search bookkeeping holds for the visited entries and every queued
/// state.
#[verifier::opaque]
spec fn search_inv<A: Symbol>(
    v: Seq<(MinimalModelKey, MinimalModelKey)>,
    q: Seq<SearchState<A>>,
    tm: ArtaModel,
    hm: ArtaModel,
    alpha: Seq<Seq<char>>,
) -> bool {
    &&& visited_ok(v, tm.locations, hm.locations)
    &&& forall|i: int| 0 <= i < q.len() ==> state_ok(#[trigger] q[i], tm, hm, alpha)
}

/// The number of distinct model pairs visited.
pub open spec fn visited_count(v: Seq<(MinimalModelKey, MinimalModelKey)>, tm: ArtaModel, hm: ArtaModel) -> int {
    visited_models(entry_keys(v), tm.locations, hm.locations).len() as int
}

/// The target and `hyp` disagree on `w`, which uses only alphabet symbols.
pub open spec fn distinguishes<A: Symbol>(tm: ArtaModel, hm: ArtaModel, alpha: Seq<Seq<char>>, w: Seq<(A, DelayRep)>) -> bool {
    &&& tm.accepts(letters_key(w)) != hm.accepts(letters_key(w))
    &&& forall|i: int| 0 <= i < w.len() ==> alpha.contains(#[trigger] w[i].0.key())
}

/// The search starts with the pair of initial formulas, reached on the
/// empty word.
proof fn lemma_search_init<A: Symbol>(
    v: Seq<(MinimalModelKey, MinimalModelKey)>,
    q: Seq<SearchState<A>>,
    tm: ArtaModel,
    hm: ArtaModel,
    alpha: Seq<Seq<char>>,
)
    requires
        tm.wf(),
        hm.wf(),
        v.len() == 1,
        q.len() == 1,
        q[0].word@.len() == 0,
        q[0].tf@ == tm.init,
        q[0].hf@ == hm.init,
        forall|val: Set<Seq<char>>| #![trigger key_holds(v[0].0@, val)] key_holds(v[0].0@, val) == sat(tm.init, val),
        forall|val: Set<Seq<char>>| #![trigger key_holds(v[0].1@, val)] key_holds(v[0].1@, val) == sat(hm.init, val),
    ensures
        search_inv(v, q, tm, hm, alpha),
        arta_wf(tm),
        arta_wf(hm),
{
    broadcast use vstd::set::group_set_axioms, vstd::set_lib::group_set_lib_default;

    reveal(search_inv);
    reveal(word_ok);
    reveal(arta_wf);
    let tl = tm.locations;
    let hl = hm.locations;
    lemma_powerset_finite(tl.to_set());
    lemma_powerset_finite(powerset(tl.to_set()));
    lemma_powerset_finite(hl.to_set());
    lemma_powerset_finite(powerset(hl.to_set()));
    lemma_product_finite(powerset(powerset(tl.to_set())), powerset(powerset(hl.to_set())));
    let e: Seq<(MinimalModelKey, MinimalModelKey)> = Seq::empty();
    assert(visited_models(entry_keys(e), tl, hl) =~= Set::empty());
    lemma_key_supported(tm.init, v[0].0@, tl);
    lemma_key_supported(hm.init, v[0].1@, hl);
    lemma_visit_new(e, v[0], tl, hl);
    assert(e.push(v[0]) =~= v);
    assert(letters_key(q[0].word@) =~= Seq::<(Seq<char>, u32)>::empty());
    assert(state_ok(q[0], tm, hm, alpha));
}

/// A queued state is reached on its word.
proof fn lemma_search_state<A: Symbol>(
    v: Seq<(MinimalModelKey, MinimalModelKey)>,
    q: Seq<SearchState<A>>,
    tm: ArtaModel,
    hm: ArtaModel,
    alpha: Seq<Seq<char>>,
    i: int,
)
    requires
        search_inv(v, q, tm, hm, alpha),
        0 <= i < q.len(),
    ensures
        word_ok(q[i].tf@, q[i].hf@, q[i].word@, tm, hm, alpha),
{
    reveal(search_inv);
    assert(state_ok(q[i], tm, hm, alpha));
}

/// The visited pairs never outnumber the universe.
proof fn lemma_search_bound<A: Symbol>(
    v: Seq<(MinimalModelKey, MinimalModelKey)>,
    q: Seq<SearchState<A>>,
    tm: ArtaModel,
    hm: ArtaModel,
    alpha: Seq<Seq<char>>,
)
    requires
        search_inv(v, q, tm, hm, alpha),
    ensures
        visited_count(v, tm, hm) <= search_universe(tm.locations, hm.locations).len(),
{
    reveal(search_inv);
}

/// The successor on one letter of a state reached on `word` is reached on
/// the longer word, and its keys depend only on the automata's locations.
proof fn lemma_word_step<A: Symbol>(
    tm: ArtaModel,
    hm: ArtaModel,
    alpha: Seq<Seq<char>>,
    tf: Formula,
    hf: Formula,
    word: Seq<(A, DelayRep)>,
    ntf: Formula,
    nhf: Formula,
    ntk: Seq<Seq<Seq<char>>>,
    nhk: Seq<Seq<Seq<char>>>,
    x: (A, DelayRep),
)
    requires
        arta_wf(tm),
        arta_wf(hm),
        word_ok(tf, hf, word, tm, hm, alpha),
        alpha.contains(x.0.key()),
        !half_is_infinite(x.1@),
        forall|val: Set<Seq<char>>| #![trigger sat(ntf, val)] sat(ntf, val) == sat(tf, tm.step_val(x.0.key(), x.1@, val)),
        forall|val: Set<Seq<char>>| #![trigger sat(nhf, val)] sat(nhf, val) == sat(hf, hm.step_val(x.0.key(), x.1@, val)),
        forall|val: Set<Seq<char>>| #![trigger key_holds(ntk, val)] key_holds(ntk, val) == sat(ntf, val),
        forall|val: Set<Seq<char>>| #![trigger key_holds(nhk, val)] key_holds(nhk, val) == sat(nhf, val),
    ensures
        word_ok(ntf, nhf, word.push(x), tm, hm, alpha),
        key_supported(ntk, tm.locations),
        key_supported(nhk, hm.locations),
{
    reveal(word_ok);
    reveal(arta_wf);
    lemma_step_word(tm, tf, ntf, word, x);
    lemma_step_word(hm, hf, nhf, word, x);
    assert forall|i: int| 0 <= i < word.push(x).len() implies alpha.contains(#[trigger] word.push(x)[i].0.key())
        && !half_is_infinite(word.push(x)[i].1@) by {
        if i < word.len() {
            assert(word.push(x)[i] == word[i]);
        }
    }
    lemma_key_supported(ntf, ntk, tm.locations);
    lemma_key_supported(nhf, nhk, hm.locations);
}

/// Recording a new pair keeps the bookkeeping and counts one more pair.
proof fn lemma_search_visit<A: Symbol>(
    v: Seq<(MinimalModelKey, MinimalModelKey)>,
    q: Seq<SearchState<A>>,
    tm: ArtaModel,
    hm: ArtaModel,
    alpha: Seq<Seq<char>>,
    e: (MinimalModelKey, MinimalModelKey),
)
    requires
        search_inv(v, q, tm, hm, alpha),
        key_supported(e.0@, tm.locations),
        key_supported(e.1@, hm.locations),
        !exists|i: int| 0 <= i < v.len() && keys_equivalent(#[trigger] v[i].0@, e.0@) && keys_equivalent(v[i].1@, e.1@),
    ensures
        search_inv(v.push(e), q, tm, hm, alpha),
        visited_count(v.push(e), tm, hm) == visited_count(v, tm, hm) + 1,
{
    reveal(search_inv);
    lemma_visit_new(v, e, tm.locations, hm.locations);
}

/// Queueing a state reached on its word keeps the bookkeeping.
proof fn lemma_search_enqueue<A: Symbol>(
    v: Seq<(MinimalModelKey, MinimalModelKey)>,
    q: Seq<SearchState<A>>,
    tm: ArtaModel,
    hm: ArtaModel,
    alpha: Seq<Seq<char>>,
    st: SearchState<A>,
)
    requires
        search_inv(v, q, tm, hm, alpha),
        word_ok(st.tf@, st.hf@, st.word@, tm, hm, alpha),
    ensures
        search_inv(v, q.push(st), tm, hm, alpha),
{
    reveal(search_inv);
    assert forall|i: int| 0 <= i < q.push(st).len() implies state_ok(#[trigger] q.push(st)[i], tm, hm, alpha) by {
        if i < q.len() {
            assert(q.push(st)[i] == q[i]);
        }
    }
}

/// A state reached on `w` where the automata disagree distinguishes them.
proof fn lemma_mismatch<A: Symbol>(
    tm: ArtaModel,
    hm: ArtaModel,
    alpha: Seq<Seq<char>>,
    tf: Formula,
    hf: Formula,
    w: Seq<(A, DelayRep)>,
)
    requires
        word_ok(tf, hf, w, tm, hm, alpha),
        sat(tf, tm.accepting_set()) != sat(hf, hm.accepting_set()),
    ensures
        distinguishes(tm, hm, alpha, w),
        finite_delays(w),
{
    reveal(word_ok);
}

impl<A: Symbol> WhiteBoxEqOracle<A> {
    /// Explore the successor of the current state on `(alphabet[s], d)`:
    /// unless an equivalent state was visited, record it, and either report
    /// its word when the automata disagree there or queue it.
    #[verifier::spinoff_prover]
    #[verifier::rlimit(60)]
    fn try_delay(
        &self,
        hyp: &Arta<A>,
        visited: Vec<(MinimalModelKey, MinimalModelKey)>,
        queue: Vec<SearchState<A>>,
        cur_tf: &DagStateFormula,
        cur_hf: &DagStateFormula,
        cur_word: &Vec<(A, DelayRep)>,
        s: usize,
        d: DelayRep,
        Ghost(done): Ghost<int>,
    ) -> (r: (Vec<(MinimalModelKey, MinimalModelKey)>, Vec<SearchState<A>>, Option<TimedWord<A>>))
        requires
            explored(entry_keys(visited@), pairs(queue@), lens(queue@), done, self.target@, hyp@, symbol_keys(self.alphabet@)),
            forall|j: int| 0 <= j < queue@.len() ==> #[trigger] lens(queue@)[j] <= cur_word@.len() + 1,
            arta_wf(self.target@),
            arta_wf(hyp@),
            s < self.alphabet@.len(),
            search_inv(visited@, queue@, self.target@, hyp@, symbol_keys(self.alphabet@)),
            word_ok(cur_tf@, cur_hf@, cur_word@, self.target@, hyp@, symbol_keys(self.alphabet@)),
            !half_is_infinite(d@),
        ensures
            search_inv(r.0@, r.1@, self.target@, hyp@, symbol_keys(self.alphabet@)),
            visited_count(r.0@, self.target@, hyp@) >= visited_count(visited@, self.target@, hyp@),
            r.2 is None ==> r.1@.len() - queue@.len() == visited_count(r.0@, self.target@, hyp@) - visited_count(visited@, self.target@, hyp@),
            r.2 is Some ==> distinguishes(self.target@, hyp@, symbol_keys(self.alphabet@), r.2->Some_0@)
                && finite_delays(r.2->Some_0@),
            r.2 matches Some(w) ==> w@.len() == cur_word@.len() + 1,
            r.2 is None ==> explored(
                entry_keys(r.0@),
                pairs(r.1@),
                lens(r.1@),
                done,
                self.target@,
                hyp@,
                symbol_keys(self.alphabet@),
            ),
            r.2 is None ==> extends(pairs(queue@), lens(queue@), pairs(r.1@), lens(r.1@)),
            r.2 is None ==> forall|j: int| 0 <= j < r.1@.len() ==> #[trigger] lens(r.1@)[j] <= cur_word@.len() + 1,
            r.2 is None ==> has_successor(
                self.target@,
                hyp@,
                pairs(r.1@),
                lens(r.1@),
                (cur_tf@, cur_hf@),
                symbol_keys(self.alphabet@)[s as int],
                d@,
                (cur_word@.len() + 1) as int,
            ),
    {
        let ghost tm = self.target@;
        let ghost hm = hyp@;
        let ghost alpha = symbol_keys(self.alphabet@);
        let t = &self.target;
        let sym = &self.alphabet[s];
        let ntf = t.step_formula(cur_tf, sym, d);
        let nhf = hyp.step_formula(cur_hf, sym, d);
        let ntk = ntf.semantic_key();
        let nhk = nhf.semantic_key();
        let seen = is_visited(&visited, &ntk, &nhk);
        proof {
            assert(alpha[s as int] == sym.key());
        }
        if seen {
            proof {
                let j = choose|j: int|
                    0 <= j < visited@.len() && keys_equivalent(#[trigger] visited@[j].0@, ntk@) && keys_equivalent(
                        visited@[j].1@,
                        nhk@,
                    );
                let ev = entry_keys(visited@);
                assert(ev[j] == (visited@[j].0@, visited@[j].1@));
                lemma_explored_facts(ev, pairs(queue@), lens(queue@), done, tm, hm, alpha);
                assert(lens(queue@)[j] <= cur_word@.len() + 1);
                lemma_explored_seen(
                    ev,
                    pairs(queue@),
                    lens(queue@),
                    done,
                    tm,
                    hm,
                    alpha,
                    j,
                    (ntk@, nhk@),
                    (cur_tf@, cur_hf@),
                    sym.key(),
                    d@,
                    (cur_word@.len() + 1) as int,
                );
                assert(pairs(queue@).take(pairs(queue@).len() as int) =~= pairs(queue@));
                assert(lens(queue@).take(lens(queue@).len() as int) =~= lens(queue@));
            }
            return (visited, queue, None);
        }
        let ghost ev0 = entry_keys(visited@);
        let mut nword = copy_letters(cur_word.as_slice(), 0, cur_word.len());
        let letter = (sym.copy_symbol(), d);
        let ghost old_word = nword@;
        nword.push(letter);
        proof {
            assert(old_word =~= cur_word@);
            assert(alpha[s as int] == sym.key());
            lemma_word_step(tm, hm, alpha, cur_tf@, cur_hf@, cur_word@, ntf@, nhf@, ntk@, nhk@, letter);
            assert(nword@ == cur_word@.push(letter));
            lemma_search_visit(visited@, queue@, tm, hm, alpha, (ntk, nhk));
        }
        let mut visited = visited;
        visited.push((ntk, nhk));
        let at = t.eval(&ntf);
        let ah = hyp.eval(&nhf);
        if at != ah {
            proof {
                lemma_mismatch(tm, hm, alpha, ntf@, nhf@, nword@);
            }
            let w = TimedWord::from_vec(nword);
            return (visited, queue, Some(w));
        }
        let st = SearchState { tf: ntf, hf: nhf, word: nword };
        proof {
            lemma_search_enqueue(visited@, queue@, tm, hm, alpha, st);
        }
        let ghost ps0 = pairs(queue@);
        let ghost ls0 = lens(queue@);
        let ghost lx: int = (cur_word@.len() + 1) as int;
        let mut queue = queue;
        queue.push(st);
        proof {
            assert(entry_keys(visited@) =~= ev0.push((ntk@, nhk@)));
            assert(pairs(queue@) =~= ps0.push((st.tf@, st.hf@)));
            assert(lens(queue@) =~= ls0.push(lx));
            lemma_explored_push(ev0, ps0, ls0, done, tm, hm, alpha, (ntk@, nhk@), (st.tf@, st.hf@), lx);
            assert(pairs(queue@)[ps0.len() as int] == (st.tf@, st.hf@));
            assert(lens(queue@)[ps0.len() as int] == lx);
            assert(crate::oracles::closure::step_equiv(tm, hm, (cur_tf@, cur_hf@), sym.key(), d@, pairs(queue@)[ps0.len() as int]));
        }
        (visited, queue, None)
    }

    /// Breadth-first search for a timed word on which the target and `hyp`
    /// disagree.
    #[verifier::rlimit(80)]
    fn search(&self, hyp: &Arta<A>) -> (r: Option<TimedWord<A>>)
        ensures
            r is Some ==> distinguishes(self.target@, hyp@, symbol_keys(self.alphabet@), r->Some_0@) && finite_delays(
                r->Some_0@,
            ),
            r is None ==> agree_on(self.target@, hyp@, symbol_keys(self.alphabet@)),
            r is Some ==> agree_below(self.target@, hyp@, symbol_keys(self.alphabet@), r->Some_0@.len() as int),
    {
        let t = &self.target;
        proof {
            use_type_invariant(t);
            use_type_invariant(hyp);
        }
        let ghost tm = t@;
        let ghost hm = hyp@;
        let ghost alpha = symbol_keys(self.alphabet@);
        let ghost tl = tm.locations;
        let ghost hl = hm.locations;
        let init_t = t.init().duplicate();
        let init_h = hyp.init().duplicate();
        let acc_t = t.eval(&init_t);
        let acc_h = hyp.eval(&init_h);
        if acc_t != acc_h {
            let w = TimedWord::empty();
            proof {
                assert(letters_key(w@) =~= Seq::<(Seq<char>, u32)>::empty());
                assert(tm.post(letters_key(w@), tm.accepting_set()) == tm.accepting_set());
                assert(hm.post(letters_key(w@), hm.accepting_set()) == hm.accepting_set());
            }
            return Some(w);
        }
        let tk0 = init_t.semantic_key();
        let hk0 = init_h.semantic_key();
        let mut visited: Vec<(MinimalModelKey, MinimalModelKey)> = Vec::new();
        let mut queue: Vec<SearchState<A>> = Vec::new();
        let empty_word: Vec<(A, DelayRep)> = Vec::new();
        visited.push((tk0, hk0));
        queue.push(SearchState { tf: init_t, hf: init_h, word: empty_word });
        proof {
            lemma_search_init(visited@, queue@, tm, hm, alpha);
            assert(entry_keys(visited@)[0] == (visited@[0].0@, visited@[0].1@));
            assert(pairs(queue@)[0] == (tm.init, hm.init));
            assert(lens(queue@) =~= seq![0int]);
            lemma_explored_init(entry_keys(visited@), pairs(queue@), lens(queue@), tm, hm, alpha);
        }
        let ghost ub = search_universe(tl, hl).len();
        let mut head: usize = 0;
        while head < queue.len()
            invariant
                tm == self.target@,
                hm == hyp@,
                arta_wf(tm),
                arta_wf(hm),
                alpha == symbol_keys(self.alphabet@),
                tl == tm.locations,
                hl == hm.locations,
                ub == search_universe(tl, hl).len(),
                search_inv(visited@, queue@, tm, hm, alpha),
                head <= queue@.len(),
                explored(entry_keys(visited@), pairs(queue@), lens(queue@), head as int, tm, hm, alpha),
                head > 0 ==> forall|j: int| 0 <= j < queue@.len() ==> #[trigger] lens(queue@)[j] <= lens(queue@)[head - 1] + 1,
                head == 0 ==> queue@.len() == 1,
            decreases ub - visited_count(visited@, tm, hm), queue@.len() - head,
        {
            let ghost v0 = visited_count(visited@, tm, hm);
            let ghost q0 = queue@.len();
            proof {
                lemma_search_state(visited@, queue@, tm, hm, alpha, head as int);
                lemma_search_bound(visited@, queue@, tm, hm, alpha);
            }
            let cur_tf = queue[head].tf.duplicate();
            let cur_hf = queue[head].hf.duplicate();
            let cur_word = copy_letters(queue[head].word.as_slice(), 0, queue[head].word.len());
            let ghost cur = (cur_tf@, cur_hf@);
            let ghost cl = cur_word@.len() as int;
            proof {
                assert(cur_word@ =~= queue@[head as int].word@);
                assert(pairs(queue@)[head as int] == cur);
                assert(lens(queue@)[head as int] == cl);
                lemma_explored_facts(entry_keys(visited@), pairs(queue@), lens(queue@), head as int, tm, hm, alpha);
                assert forall|j: int| 0 <= j < queue@.len() implies #[trigger] lens(queue@)[j] <= cl + 1 by {
                    if head > 0 {
                        assert(lens(queue@)[j] <= lens(queue@)[head - 1] + 1);
                        assert(lens(queue@)[head - 1] <= lens(queue@)[head as int]);
                    }
                }
                lemma_nothing_done(tm, hm, pairs(queue@), lens(queue@), cur, alpha, Seq::empty(), Seq::empty(), cl + 1);
            }
            head = head + 1;
            let mut s: usize = 0;
            while s < self.alphabet.len()
                invariant
                    tm == self.target@,
                    hm == hyp@,
                    arta_wf(tm),
                    arta_wf(hm),
                    alpha == symbol_keys(self.alphabet@),
                    tl == tm.locations,
                    hl == hm.locations,
                    ub == search_universe(tl, hl).len(),
                    search_inv(visited@, queue@, tm, hm, alpha),
                    head <= queue@.len(),
                    word_ok(cur_tf@, cur_hf@, cur_word@, tm, hm, alpha),
                    visited_count(visited@, tm, hm) >= v0,
                    queue@.len() - q0 == visited_count(visited@, tm, hm) - v0,
                    v0 <= ub,
                    1 <= head,
                    explored(entry_keys(visited@), pairs(queue@), lens(queue@), head - 1, tm, hm, alpha),
                    pairs(queue@)[head - 1] == cur,
                    lens(queue@)[head - 1] == cl,
                    cl == cur_word@.len(),
                    cur == (cur_tf@, cur_hf@),
                    forall|j: int| 0 <= j < queue@.len() ==> #[trigger] lens(queue@)[j] <= cl + 1,
                    symbols_done(tm, hm, pairs(queue@), lens(queue@), cur, alpha, s as int, cl + 1),
                    s <= self.alphabet@.len(),
                decreases self.alphabet@.len() - s,
            {
                let reps = delay_representatives(&cur_tf, &cur_hf, &self.alphabet[s], &self.target, hyp);
                let ghost cells = choose|cells: Seq<HalfUnitRange>|
                    #[trigger] partition_ok(
                        formula_guard_ranges(cur_tf@, tm.buckets, self.alphabet@[s as int].key())
                            + formula_guard_ranges(cur_hf@, hm.buckets, self.alphabet@[s as int].key()),
                        cells,
                    ) && reps@.map_values(|d: DelayRep| d@) == preference_halves(cells);
                let ghost rh = reps@.map_values(|d: DelayRep| d@);
                proof {
                    assert(alpha[s as int] == self.alphabet@[s as int].key());
                    lemma_nothing_done(tm, hm, pairs(queue@), lens(queue@), cur, alpha, alpha[s as int], rh, cl + 1);
                    lemma_preference_finite(cells);
                    assert forall|k: int| 0 <= k < reps@.len() implies !half_is_infinite(#[trigger] reps@[k]@) by {
                        assert(reps@.map_values(|d: DelayRep| d@)[k] == reps@[k]@);
                    }
                }
                let mut r: usize = 0;
                while r < reps.len()
                    invariant
                        tm == self.target@,
                        hm == hyp@,
                        arta_wf(tm),
                        arta_wf(hm),
                        alpha == symbol_keys(self.alphabet@),
                        s < self.alphabet@.len(),
                        tl == tm.locations,
                        hl == hm.locations,
                        ub == search_universe(tl, hl).len(),
                        search_inv(visited@, queue@, tm, hm, alpha),
                        head <= queue@.len(),
                        word_ok(cur_tf@, cur_hf@, cur_word@, tm, hm, alpha),
                        visited_count(visited@, tm, hm) >= v0,
                        queue@.len() - q0 == visited_count(visited@, tm, hm) - v0,
                        v0 <= ub,
                        forall|k: int| 0 <= k < reps@.len() ==> !half_is_infinite(#[trigger] reps@[k]@),
                        1 <= head,
                        explored(entry_keys(visited@), pairs(queue@), lens(queue@), head - 1, tm, hm, alpha),
                        pairs(queue@)[head - 1] == cur,
                        lens(queue@)[head - 1] == cl,
                        cl == cur_word@.len(),
                        cur == (cur_tf@, cur_hf@),
                        forall|j: int| 0 <= j < queue@.len() ==> #[trigger] lens(queue@)[j] <= cl + 1,
                        symbols_done(tm, hm, pairs(queue@), lens(queue@), cur, alpha, s as int, cl + 1),
                        rh == reps@.map_values(|d: DelayRep| d@),
                        reps_done(tm, hm, pairs(queue@), lens(queue@), cur, alpha[s as int], rh, r as int, cl + 1),
                        r <= reps@.len(),
                    decreases reps@.len() - r,
                {
                    let ghost ps0 = pairs(queue@);
                    let ghost ls0 = lens(queue@);
                    proof {
                        lemma_explored_facts(entry_keys(visited@), pairs(queue@), lens(queue@), head - 1, tm, hm, alpha);
                        lemma_explored_agree_below(entry_keys(visited@), pairs(queue@), lens(queue@), head - 1, tm, hm, alpha);
                    }
                    let (v2, q2, found) = self.try_delay(
                        hyp,
                        visited,
                        queue,
                        &cur_tf,
                        &cur_hf,
                        &cur_word,
                        s,
                        reps[r],
                        Ghost(head - 1),
                    );
                    visited = v2;
                    queue = q2;
                    if found.is_some() {
                        return found;
                    }
                    proof {
                        let ps1 = pairs(queue@);
                        let ls1 = lens(queue@);
                        assert(ps1.take(ps0.len() as int)[head - 1] == ps1[head - 1]);
                        assert(ls1.take(ls0.len() as int)[head - 1] == ls1[head - 1]);
                        lemma_done_grow(tm, hm, ps0, ls0, ps1, ls1, cur, alpha, s as int, alpha[s as int], rh, r as int, cl + 1);
                        assert(rh[r as int] == reps@[r as int]@);
                        lemma_rep_done(tm, hm, ps1, ls1, cur, alpha[s as int], rh, r as int, cl + 1);
                    }
                    r = r + 1;
                }
                proof {
                    reveal(arta_wf);
                    assert(rh.len() == reps@.len());
                    lemma_symbol_done(tm, hm, pairs(queue@), lens(queue@), cur, alpha, s as int, cells, rh, cl + 1);
                }
                s = s + 1;
            }
            proof {
                lemma_search_bound(visited@, queue@, tm, hm, alpha);
                assert(alpha.len() == self.alphabet@.len());
                assert(pairs(queue@)[head - 1] == cur);
                lemma_state_done(entry_keys(visited@), pairs(queue@), lens(queue@), head - 1, tm, hm, alpha);
            }
        }
        proof {
            lemma_explored_agree(entry_keys(visited@), pairs(queue@), lens(queue@), tm, hm, alpha);
        }
        None
    }

    /// Search for a shortest timed word on which the target and `hyp`
    /// disagree; `None` when the search finds none.
    pub fn find_counterexample(&mut self, hyp: &Arta<A>) -> (r: Result<Option<TimedWord<A>>, WhiteBoxEqOracleError>)
        ensures
            final(self)@ == old(self)@,
            r is Ok,
            r matches Ok(Some(w)) ==> distinguishes(old(self)@.0, hyp@, old(self)@.1, w@) && finite_delays(w@),
            r matches Ok(None) ==> agree_on(old(self)@.0, hyp@, old(self)@.1),
            r matches Ok(Some(w)) ==> agree_below(old(self)@.0, hyp@, old(self)@.1, w@.len() as int),
    {
        let found = self.search(hyp);
        Ok(found)
    }
}

} // verus!
