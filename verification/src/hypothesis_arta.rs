//! Pieces of hypothesis-automaton construction: naming evidence states as
//! locations, turning basis formulas into state formulas, and compressing
//! runs of equal transition targets.

use vstd::prelude::*;

use crate::decomposition::{
    basis_views, bmentions, bsat, indices_of, lemma_bsat_and, lemma_bsat_or, lemma_bview_unfold, BasisFormula, BasisModel,
};
use crate::location::LocationId;
use crate::state_formula::formula::{occurs, sat, views_of, DagStateFormula, DagStateFormulaManager, Formula};
use crate::text::{decimal, decimal_string, push_char, push_str};
use crate::arta::builder::{build_ok, build_result, lemma_built_target, pending_clash, pending_ok};
use crate::arta::{Arta, ArtaBuilder, ArtaError};
use crate::evidence_afa::{lemma_shaped_lengths, letters_distinct, EvidenceAfa};
use crate::partition::{
    all_finite, cell_hi, cell_lo, consecutive_cells, infer_guard_intervals_from_delays, lemma_consecutive_cells_partition,
    strictly_increasing, PartitionError,
};
use crate::symbol::Symbol;
use crate::time::delay::{half_is_infinite, DelayRep};
use crate::time::interval::{max_finite, Interval, IntervalModel};
use crate::arta::builder::PendingModel;
use crate::timed_word::{contains_letter_key, letter_key};

verus! {

broadcast use {vstd::std_specs::vec::axiom_vec_decreases_to_view, vstd::std_specs::vec::axiom_vec_index_decreases};

/// State identifier in an evidence automaton.
#[derive(Copy, Clone, Debug, PartialEq, Eq, Hash, Structural)]
pub struct AfaStateId(pub usize);

/// The name of the hypothesis location of evidence state `i`: `q{i}`.
pub open spec fn state_location_name(i: nat) -> Seq<char> {
    seq!['q'] + decimal(i)
}

/// Map evidence state `i` to hypothesis location `q{i}`.
pub fn evidence_state_to_location_id(state: AfaStateId) -> (r: LocationId)
    ensures
        r@ == state_location_name(state.0 as nat),
{
    let mut s = String::new();
    push_char(&mut s, 'q');
    let d = decimal_string(state.0 as u64);
    push_str(&mut s, d.as_str());
    assert(s@ =~= state_location_name(state.0 as nat));
    LocationId::from_string(s)
}

/// The basis variables that are true when exactly the hypothesis locations
/// named in `val` are true.
pub open spec fn basis_valuation(val: Set<Seq<char>>) -> Set<usize> {
    Set::new(|i: usize| val.contains(state_location_name(i as nat)))
}

/// A variable of a disjunct occurs in the disjunction.
proof fn lemma_bmentions_or(ms: Seq<BasisModel>, k: int, i: usize)
    requires
        0 <= k < ms.len(),
        bmentions(ms[k], i),
    ensures
        bmentions(BasisModel::Or(ms), i),
{
    let f = BasisModel::Or(ms);
    assert(bmentions(f->Or_0[k], i));
}

/// Location `n` is `q{i}` for a basis variable `i` that occurs in `f`.
pub open spec fn names_basis_var(f: BasisModel, n: Seq<char>) -> bool {
    exists|i: usize| #[trigger] bmentions(f, i) && n == state_location_name(i as nat)
}

/// Convert a basis formula into a state formula over hypothesis locations:
/// each `BasisVar(i)` becomes location `q{i}`.
pub fn convert_basis_formula_to_dag_state_formula(
    formula: &BasisFormula,
    mgr: &std::sync::Arc<DagStateFormulaManager>,
) -> (r: DagStateFormula)
    ensures
        forall|val: Set<Seq<char>>| #[trigger] sat(r@, val) == bsat(formula@, basis_valuation(val)),
        forall|n: Seq<char>| #[trigger] occurs(r@, n) ==> names_basis_var(formula@, n),
    decreases formula,
{
    proof {
        lemma_bview_unfold(*formula);
    }
    match formula {
        BasisFormula::Top => DagStateFormula::top(mgr),
        BasisFormula::Bot => DagStateFormula::bot(mgr),
        BasisFormula::And(vars) => {
            let ghost ks = indices_of(vars@);
            let mut terms: Vec<DagStateFormula> = Vec::new();
            let mut i: usize = 0;
            while i < vars.len()
                invariant
                    i <= vars@.len(),
                    ks == indices_of(vars@),
                    terms@.len() == i,
                    forall|k: int| 0 <= k < i ==> (#[trigger] terms@[k])@ == Formula::Var(state_location_name(ks[k] as nat)),
                decreases vars@.len() - i,
            {
                let loc = evidence_state_to_location_id(AfaStateId(vars[i].0));
                let v = DagStateFormula::var(mgr, loc);
                terms.push(v);
                i = i + 1;
            }
            let ghost tv = views_of(terms@);
            let r = DagStateFormula::and(mgr, terms);
            proof {
                assert forall|n: Seq<char>| #[trigger] occurs(r@, n) implies names_basis_var(formula@, n) by {
                    let k = choose|k: int| 0 <= k < tv.len() && occurs(#[trigger] tv[k], n);
                    assert(tv[k] == Formula::Var(state_location_name(ks[k] as nat)));
                    assert(ks.contains(ks[k]));
                    assert(bmentions(formula@, ks[k]));
                }
                assert forall|val: Set<Seq<char>>| #[trigger] sat(r@, val) == bsat(formula@, basis_valuation(val)) by {
                    let bv = basis_valuation(val);
                    lemma_bsat_and(ks, bv);
                    assert forall|k: int| 0 <= k < tv.len() implies #[trigger] sat(tv[k], val) == bv.contains(ks[k]) by {
                        assert(tv[k] == Formula::Var(state_location_name(ks[k] as nat)));
                    }
                    if sat(r@, val) {
                        assert forall|k: int| 0 <= k < ks.len() implies bv.contains(#[trigger] ks[k]) by {
                            assert(sat(tv[k], val));
                        }
                    }
                    if bsat(formula@, bv) {
                        assert forall|k: int| 0 <= k < tv.len() implies sat(#[trigger] tv[k], val) by {
                            assert(bv.contains(ks[k]));
                        }
                    }
                }
            }
            r
        },
        BasisFormula::Or(ts) => {
            let ghost ms = basis_views(ts@);
            let terms = convert_all(ts, mgr);
            let ghost tv = views_of(terms@);
            let r = DagStateFormula::or(mgr, terms);
            proof {
                assert forall|n: Seq<char>| #[trigger] occurs(r@, n) implies names_basis_var(formula@, n) by {
                    let k = choose|k: int| 0 <= k < tv.len() && occurs(#[trigger] tv[k], n);
                    assert(occurs(terms@[k]@, n));
                    assert(ms[k] == ts@[k]@);
                    let i = choose|i: usize| #[trigger] bmentions(ms[k], i) && n == state_location_name(i as nat);
                    assert(0 <= k < ms.len());
                    assert(bmentions(ms[k], i));
                    assert(formula@ == BasisModel::Or(ms));
                    lemma_bmentions_or(ms, k, i);
                }
                assert forall|val: Set<Seq<char>>| #[trigger] sat(r@, val) == bsat(formula@, basis_valuation(val)) by {
                    let bv = basis_valuation(val);
                    lemma_bsat_or(ms, bv);
                    if sat(r@, val) {
                        let k = choose|k: int| 0 <= k < tv.len() && sat(#[trigger] tv[k], val);
                        assert(sat(terms@[k]@, val));
                        assert(bsat(ms[k], bv));
                    }
                    if bsat(formula@, bv) {
                        let k = choose|k: int| 0 <= k < ms.len() && bsat(#[trigger] ms[k], bv);
                        assert(sat(terms@[k]@, val));
                        assert(sat(tv[k], val));
                    }
                }
            }
            r
        },
    }
}

/// Convert each formula of `ts`.
fn convert_all(ts: &Vec<BasisFormula>, mgr: &std::sync::Arc<DagStateFormulaManager>) -> (r: Vec<DagStateFormula>)
    ensures
        r@.len() == ts@.len(),
        forall|k: int, val: Set<Seq<char>>|
            0 <= k < ts@.len() ==> #[trigger] sat((#[trigger] r@[k])@, val) == bsat(ts@[k]@, basis_valuation(val)),
        forall|k: int, n: Seq<char>|
            0 <= k < ts@.len() && #[trigger] occurs((#[trigger] r@[k])@, n) ==> names_basis_var(ts@[k]@, n),
    decreases ts,
{
    let mut terms: Vec<DagStateFormula> = Vec::new();
    let mut i: usize = 0;
    while i < ts.len()
        invariant
            i <= ts@.len(),
            terms@.len() == i,
            forall|k: int, val: Set<Seq<char>>|
                0 <= k < i ==> #[trigger] sat((#[trigger] terms@[k])@, val) == bsat(ts@[k]@, basis_valuation(val)),
            forall|k: int, n: Seq<char>|
                0 <= k < i && #[trigger] occurs((#[trigger] terms@[k])@, n) ==> names_basis_var(ts@[k]@, n),
        decreases ts@.len() - i,
    {
        proof {
            assert(decreases_to!(ts => ts@[i as int]));
        }
        let c = convert_basis_formula_to_dag_state_formula(&ts[i], mgr);
        terms.push(c);
        i = i + 1;
    }
    terms
}

/// The view of a list of change points: each delay by its half-unit count
/// and each target by its view.
pub open spec fn change_points_view(s: Seq<(DelayRep, BasisFormula)>) -> Seq<(u32, BasisModel)> {
    Seq::new(s.len(), |i: int| (s[i].0@, s[i].1@))
}

/// The change points `s` with every run of consecutive equal targets
/// replaced by its last point.
pub open spec fn compressed(s: Seq<(u32, BasisModel)>) -> Seq<(u32, BasisModel)>
    decreases s.len(),
{
    if s.len() == 0 {
        Seq::empty()
    } else {
        let r = compressed(s.drop_last());
        let p = s[s.len() - 1];
        if r.len() > 0 && r[r.len() - 1].1 == p.1 {
            r.update(r.len() - 1, p)
        } else {
            r.push(p)
        }
    }
}

/// Collapse each run of consecutive change points with equal targets into
/// one point that keeps the run's last delay.
pub fn compress_resolved_change_points(points: Vec<(DelayRep, BasisFormula)>) -> (r: Vec<(DelayRep, BasisFormula)>)
    ensures
        change_points_view(r@) == compressed(change_points_view(points@)),
{
    let ghost pv = change_points_view(points@);
    let mut out: Vec<(DelayRep, BasisFormula)> = Vec::new();
    let mut i: usize = 0;
    assert(change_points_view(out@) =~= compressed(pv.take(0)));
    while i < points.len()
        invariant
            i <= points@.len(),
            pv == change_points_view(points@),
            change_points_view(out@) == compressed(pv.take(i as int)),
        decreases points@.len() - i,
    {
        let d = points[i].0;
        let t = points[i].1.duplicate();
        let ghost s = pv.take(i + 1);
        proof {
            assert(s.drop_last() =~= pv.take(i as int));
            assert(s[s.len() - 1] == (d@, t@));
        }
        let n = out.len();
        if n > 0 && out[n - 1].1.same(&t) {
            out.set(n - 1, (d, t));
            proof {
                assert(change_points_view(out@) =~= compressed(s));
            }
        } else {
            out.push((d, t));
            proof {
                assert(change_points_view(out@) =~= compressed(s));
            }
        }
        i = i + 1;
    }
    assert(pv.take(i as int) =~= pv);
    out
}

/// Insert `d` into the strictly increasing delays `v`, keeping them
/// strictly increasing; `d` is not among them.
fn insert_delay(v: &mut Vec<DelayRep>, d: DelayRep)
    requires
        strictly_increasing(old(v)@),
        !old(v)@.contains(d),
    ensures
        strictly_increasing(final(v)@),
        final(v)@.len() == old(v)@.len() + 1,
        forall|x: DelayRep| #[trigger] final(v)@.contains(x) <==> (old(v)@.contains(x) || x == d),
{
    let mut p: usize = 0;
    while p < v.len() && v[p].half_units() < d.half_units()
        invariant
            p <= v@.len(),
            forall|k: int| 0 <= k < p ==> (#[trigger] v@[k])@ < d@,
        decreases v@.len() - p,
    {
        p = p + 1;
    }
    let ghost before = v@;
    proof {
        if p < before.len() {
            assert(before[p as int]@ != d@) by {
                if before[p as int]@ == d@ {
                    crate::time::delay::lemma_delay_view_injective(before[p as int], d);
                    assert(before[p as int] == d);
                }
            }
        }
    }
    v.insert(p, d);
    proof {
        assert forall|k: int| 0 < k < v@.len() implies v@[k - 1]@ < #[trigger] v@[k]@ by {
            if k < p {
                assert(v@[k] == before[k] && v@[k - 1] == before[k - 1]);
            } else if k == p {
                assert(v@[k - 1] == before[k - 1]);
            } else if k == p + 1 {
                assert(v@[k] == before[k - 1]);
            } else {
                assert(v@[k] == before[k - 1] && v@[k - 1] == before[k - 2]);
            }
        }
        assert forall|x: DelayRep| #[trigger] v@.contains(x) <==> (before.contains(x) || x == d) by {
            if v@.contains(x) {
                let k = choose|k: int| 0 <= k < v@.len() && v@[k] == x;
                if k < p {
                    assert(before[k] == x);
                } else if k > p {
                    assert(before[k - 1] == x);
                }
            }
            if before.contains(x) {
                let k = choose|k: int| 0 <= k < before.len() && before[k] == x;
                if k < p {
                    assert(v@[k] == x);
                } else {
                    assert(v@[k + 1] == x);
                }
            }
            if x == d {
                assert(v@[p as int] == d);
            }
        }
    }
}

/// A copy of the delays `v`.
fn copy_delays(v: &Vec<DelayRep>) -> (r: Vec<DelayRep>)
    ensures
        r@ == v@,
{
    let mut out: Vec<DelayRep> = Vec::new();
    let mut i: usize = 0;
    while i < v.len()
        invariant
            i <= v@.len(),
            out@ == v@.take(i as int),
        decreases v@.len() - i,
    {
        out.push(v[i]);
        proof {
            assert(v@.take(i + 1) =~= v@.take(i as int).push(v@[i as int]));
        }
        i = i + 1;
    }
    assert(v@.take(i as int) =~= v@);
    out
}

/// Symbols with distinct keys, one nonempty strictly increasing delay list
/// each.
pub open spec fn lists_shaped<A: Symbol>(syms: Seq<A>, lists: Seq<Vec<DelayRep>>) -> bool {
    &&& syms.len() == lists.len()
    &&& forall|s: int, t: int| 0 <= s < t < syms.len() ==> (#[trigger] syms[s]).key() != (#[trigger] syms[t]).key()
    &&& forall|s: int| 0 <= s < lists.len() ==> strictly_increasing(#[trigger] lists[s]@) && lists[s]@.len() > 0
}

/// Each of the first `m` letters has its delay in the list of its symbol.
pub open spec fn lists_cover<A: Symbol>(
    alphabet: Seq<(A, DelayRep)>,
    m: int,
    syms: Seq<A>,
    lists: Seq<Vec<DelayRep>>,
) -> bool {
    forall|n: int|
        0 <= n < m ==> exists|s: int|
            0 <= s < syms.len() && (#[trigger] syms[s]).key() == (#[trigger] alphabet[n]).0.key() && lists[s]@.contains(
                alphabet[n].1,
            )
}

/// Delay `k` of list `s` comes from one of the first `m` letters of its
/// symbol.
pub open spec fn delay_origin<A: Symbol>(
    alphabet: Seq<(A, DelayRep)>,
    m: int,
    syms: Seq<A>,
    lists: Seq<Vec<DelayRep>>,
    s: int,
    k: int,
) -> bool {
    exists|n: int| 0 <= n < m && (#[trigger] alphabet[n]).0.key() == syms[s].key() && alphabet[n].1 == lists[s]@[k]
}

/// Each listed delay comes from one of the first `m` letters of its symbol.
pub open spec fn lists_sound<A: Symbol>(
    alphabet: Seq<(A, DelayRep)>,
    m: int,
    syms: Seq<A>,
    lists: Seq<Vec<DelayRep>>,
) -> bool {
    forall|s: int, k: int|
        0 <= s < lists.len() && 0 <= k < lists[s]@.len() ==> #[trigger] delay_origin(alphabet, m, syms, lists, s, k)
}

/// Add letter `m` of `alphabet` to the symbol delay lists.
#[verifier::rlimit(100)]
fn add_letter_to_lists<A: Symbol>(
    alphabet: &[(A, DelayRep)],
    m: usize,
    symbols: &mut Vec<A>,
    lists: &mut Vec<Vec<DelayRep>>,
)
    requires
        letters_distinct(alphabet@),
        m < alphabet@.len(),
        lists_shaped(old(symbols)@, old(lists)@),
        lists_cover(alphabet@, m as int, old(symbols)@, old(lists)@),
        lists_sound(alphabet@, m as int, old(symbols)@, old(lists)@),
    ensures
        lists_shaped(final(symbols)@, final(lists)@),
        lists_cover(alphabet@, m + 1, final(symbols)@, final(lists)@),
        lists_sound(alphabet@, m + 1, final(symbols)@, final(lists)@),
{
    let (sym, d) = &alphabet[m];
    let mut s: usize = 0;
    while s < symbols.len() && !symbols[s].same_symbol(sym)
        invariant
            s <= symbols@.len(),
            forall|t: int| 0 <= t < s ==> (#[trigger] symbols@[t]).key() != sym.key(),
        decreases symbols@.len() - s,
    {
        s = s + 1;
    }
    let ghost old_symbols = symbols@;
    let ghost old_lists = lists@;
    if s < symbols.len() {
        let mut l = copy_delays(&lists[s]);
        proof {
            if l@.contains(*d) {
                let k = choose|k: int| 0 <= k < l@.len() && l@[k] == *d;
                assert(old_lists[s as int]@[k] == *d);
                assert(delay_origin(alphabet@, m as int, old_symbols, old_lists, s as int, k));
                let n = choose|n: int|
                    0 <= n < m && (#[trigger] alphabet@[n]).0.key() == old_symbols[s as int].key() && alphabet@[n].1
                        == old_lists[s as int]@[k];
                assert(letter_key(alphabet@[n]) == letter_key(alphabet@[m as int]));
            }
        }
        insert_delay(&mut l, *d);
        lists.set(s, l);
        proof {
            assert forall|n: int| 0 <= n < m + 1 implies exists|t: int|
                0 <= t < symbols@.len() && (#[trigger] symbols@[t]).key() == (#[trigger] alphabet@[n]).0.key()
                    && lists@[t]@.contains(alphabet@[n].1) by {
                if n == m {
                    assert(lists@[s as int]@.contains(alphabet@[n].1));
                    assert(symbols@[s as int].key() == alphabet@[n].0.key());
                } else {
                    let t = choose|t: int|
                        0 <= t < old_symbols.len() && (#[trigger] old_symbols[t]).key() == (#[trigger] alphabet@[n]).0.key()
                            && old_lists[t]@.contains(alphabet@[n].1);
                    assert(lists@[t]@.contains(alphabet@[n].1));
                }
            }
            assert forall|t: int, k: int|
                0 <= t < lists@.len() && 0 <= k < lists@[t]@.len() implies #[trigger] delay_origin(
                    alphabet@,
                    m + 1,
                    symbols@,
                    lists@,
                    t,
                    k,
                ) by {
                let x = lists@[t]@[k];
                if t == s {
                    assert(lists@[t]@.contains(x));
                    if x == *d {
                        assert(alphabet@[m as int].1 == x);
                    } else {
                        assert(old_lists[t]@.contains(x));
                        let k2 = choose|k2: int| 0 <= k2 < old_lists[t]@.len() && old_lists[t]@[k2] == x;
                        assert(delay_origin(alphabet@, m as int, old_symbols, old_lists, t, k2));
                        let n = choose|n: int|
                            0 <= n < m && (#[trigger] alphabet@[n]).0.key() == old_symbols[t].key() && alphabet@[n].1
                                == old_lists[t]@[k2];
                        assert(alphabet@[n].1 == x);
                    }
                } else {
                    assert(lists@[t] == old_lists[t]);
                    assert(delay_origin(alphabet@, m as int, old_symbols, old_lists, t, k));
                    let n = choose|n: int|
                        0 <= n < m && (#[trigger] alphabet@[n]).0.key() == old_symbols[t].key() && alphabet@[n].1
                            == old_lists[t]@[k];
                    assert(alphabet@[n].1 == x);
                }
            }
        }
    } else {
        symbols.push(sym.copy_symbol());
        let mut l: Vec<DelayRep> = Vec::new();
        l.push(*d);
        lists.push(l);
        proof {
            assert forall|n: int| 0 <= n < m + 1 implies exists|t: int|
                0 <= t < symbols@.len() && (#[trigger] symbols@[t]).key() == (#[trigger] alphabet@[n]).0.key()
                    && lists@[t]@.contains(alphabet@[n].1) by {
                if n == m {
                    assert(lists@[s as int]@[0] == alphabet@[n].1);
                    assert(lists@[s as int]@.contains(alphabet@[n].1));
                    assert(symbols@[s as int].key() == alphabet@[n].0.key());
                } else {
                    let t = choose|t: int|
                        0 <= t < old_symbols.len() && (#[trigger] old_symbols[t]).key() == (#[trigger] alphabet@[n]).0.key()
                            && old_lists[t]@.contains(alphabet@[n].1);
                    assert(symbols@[t] == old_symbols[t]);
                    assert(lists@[t] == old_lists[t]);
                }
            }
            assert forall|t: int, k: int|
                0 <= t < lists@.len() && 0 <= k < lists@[t]@.len() implies #[trigger] delay_origin(
                    alphabet@,
                    m + 1,
                    symbols@,
                    lists@,
                    t,
                    k,
                ) by {
                if t == s {
                    assert(alphabet@[m as int].1 == lists@[t]@[k]);
                    assert(alphabet@[m as int].0.key() == symbols@[t].key());
                } else {
                    assert(s == old_lists.len());
                    assert(lists@[t] == old_lists[t]);
                    assert(symbols@[t] == old_symbols[t]);
                    assert(delay_origin(alphabet@, m as int, old_symbols, old_lists, t, k));
                    let n = choose|n: int|
                        0 <= n < m && (#[trigger] alphabet@[n]).0.key() == old_symbols[t].key() && alphabet@[n].1
                            == old_lists[t]@[k];
                    assert(alphabet@[n].1 == lists@[t]@[k]);
                }
            }
        }
    }
}

/// The symbols of `alphabet` in order of first occurrence, each with its
/// delays in increasing order; the letters of `alphabet` are pairwise
/// distinct.
fn collect_symbol_delay_lists<A: Symbol>(alphabet: &[(A, DelayRep)]) -> (r: (Vec<A>, Vec<Vec<DelayRep>>))
    requires
        letters_distinct(alphabet@),
    ensures
        lists_shaped(r.0@, r.1@),
        lists_cover(alphabet@, alphabet@.len() as int, r.0@, r.1@),
        forall|s: int, k: int|
            0 <= s < r.1@.len() && 0 <= k < r.1@[s]@.len() ==> contains_letter_key(
                alphabet@,
                (r.0@[s], #[trigger] r.1@[s]@[k]),
            ),
{
    let mut symbols: Vec<A> = Vec::new();
    let mut lists: Vec<Vec<DelayRep>> = Vec::new();
    let mut m: usize = 0;
    while m < alphabet.len()
        invariant
            letters_distinct(alphabet@),
            m <= alphabet@.len(),
            lists_shaped(symbols@, lists@),
            lists_cover(alphabet@, m as int, symbols@, lists@),
            lists_sound(alphabet@, m as int, symbols@, lists@),
        decreases alphabet@.len() - m,
    {
        add_letter_to_lists(alphabet, m, &mut symbols, &mut lists);
        m = m + 1;
    }
    proof {
        assert forall|s: int, k: int|
            0 <= s < lists@.len() && 0 <= k < lists@[s]@.len() implies contains_letter_key(
                alphabet@,
                (symbols@[s], #[trigger] lists@[s]@[k]),
            ) by {
            assert(delay_origin(alphabet@, m as int, symbols@, lists@, s, k));
            let n = choose|n: int|
                0 <= n < m && (#[trigger] alphabet@[n]).0.key() == symbols@[s].key() && alphabet@[n].1
                    == lists@[s]@[k];
            assert(letter_key(alphabet@[n]) == letter_key((symbols@[s], lists@[s]@[k])));
        }
    }
    (symbols, lists)
}

/// The change points are in strictly increasing delay order.
pub open spec fn points_increasing(ps: Seq<(u32, BasisModel)>) -> bool {
    forall|i: int, j: int| 0 <= i < j < ps.len() ==> (#[trigger] ps[i]).0 < (#[trigger] ps[j]).0
}

/// Compressed point `j` covers delay `h` with target `t`: it has target `t`
/// and `h` lies after the previous kept delay and up to its own.
pub open spec fn run_cell(cs: Seq<(u32, BasisModel)>, j: int, h: u32, t: BasisModel) -> bool {
    &&& 0 <= j < cs.len()
    &&& cs[j].1 == t
    &&& (j == 0 || cs[j - 1].0 < h)
    &&& h <= cs[j].0
}

/// Compression keeps only points of the original sequence.
proof fn lemma_compressed_members(ps: Seq<(u32, BasisModel)>)
    ensures
        forall|j: int| 0 <= j < compressed(ps).len() ==> ps.contains(#[trigger] compressed(ps)[j]),
    decreases ps.len(),
{
    if ps.len() > 0 {
        let q = ps.drop_last();
        lemma_compressed_members(q);
        let r = compressed(q);
        let p = ps[ps.len() - 1];
        assert forall|j: int| 0 <= j < compressed(ps).len() implies ps.contains(#[trigger] compressed(ps)[j]) by {
            if compressed(ps)[j] == p {
                assert(ps[ps.len() - 1] == p);
            } else {
                assert(j < r.len() && compressed(ps)[j] == r[j]);
                assert(q.contains(r[j]));
                let i = choose|i: int| 0 <= i < q.len() && q[i] == r[j];
                assert(ps[i] == q[i]);
            }
        }
    }
}

/// Some letter of `afa` has the delay `+∞`.
pub open spec fn has_infinite_letter<A: Symbol>(afa: EvidenceAfa<A>) -> bool {
    exists|m: int| 0 <= m < afa.letters().len() && half_is_infinite(#[trigger] afa.letters()[m].1@)
}

/// Every point of `ps` lies in the run of a point of `cs` with its target.
pub open spec fn runs_covered(ps: Seq<(u32, BasisModel)>, cs: Seq<(u32, BasisModel)>) -> bool {
    forall|k: int| 0 <= k < ps.len() ==> #[trigger] covered_at(ps, cs, k)
}

/// Point `k` of `ps` lies in the run of a point of `cs` with its target.
pub open spec fn covered_at(ps: Seq<(u32, BasisModel)>, cs: Seq<(u32, BasisModel)>, k: int) -> bool {
    exists|j: int| #[trigger] run_cell(cs, j, ps[k].0, ps[k].1)
}

/// Compression keeps the points increasing, keeps the last point, and every
/// original point lies in the run of a kept point with its target.
#[verifier::rlimit(50)]
pub proof fn lemma_compressed_runs(ps: Seq<(u32, BasisModel)>)
    requires
        points_increasing(ps),
    ensures
        points_increasing(compressed(ps)),
        compressed(ps).len() <= ps.len(),
        ps.len() > 0 ==> compressed(ps).len() > 0 && compressed(ps)[compressed(ps).len() - 1] == ps[ps.len() - 1],
        runs_covered(ps, compressed(ps)),
    decreases ps.len(),
{
    if ps.len() > 0 {
        let q = ps.drop_last();
        assert(points_increasing(q)) by {
            assert forall|i: int, j: int| 0 <= i < j < q.len() implies (#[trigger] q[i]).0 < (#[trigger] q[j]).0 by {
                assert(q[i] == ps[i] && q[j] == ps[j]);
            }
        }
        lemma_compressed_runs(q);
        let r = compressed(q);
        let p = ps[ps.len() - 1];
        let cs = compressed(ps);
        if q.len() > 0 {
            assert(q[q.len() - 1].0 < p.0);
        }
        if r.len() > 0 && r[r.len() - 1].1 == p.1 {
            assert(cs == r.update(r.len() - 1, p));
            assert forall|k: int| 0 <= k < ps.len() implies #[trigger] covered_at(ps, cs, k) by {
                if k == ps.len() - 1 {
                    assert(run_cell(cs, r.len() - 1, ps[k].0, ps[k].1));
                } else {
                    assert(ps[k] == q[k]);
                    assert(covered_at(q, r, k));
                    let j = choose|j: int| #[trigger] run_cell(r, j, q[k].0, q[k].1);
                    assert(q[k].0 <= q[q.len() - 1].0) by {
                        if k < q.len() - 1 {
                            assert(q[k].0 < q[q.len() - 1].0);
                        }
                    }
                    assert(run_cell(cs, j, ps[k].0, ps[k].1));
                }
            }
            assert(runs_covered(ps, cs));
        } else {
            assert(cs == r.push(p));
            assert forall|k: int| 0 <= k < ps.len() implies #[trigger] covered_at(ps, cs, k) by {
                if k == ps.len() - 1 {
                    assert(run_cell(cs, r.len() as int, ps[k].0, ps[k].1));
                } else {
                    assert(ps[k] == q[k]);
                    assert(covered_at(q, r, k));
                    let j = choose|j: int| #[trigger] run_cell(r, j, q[k].0, q[k].1);
                    assert(run_cell(cs, j, ps[k].0, ps[k].1));
                }
            }
        }
        assert(runs_covered(ps, cs));
    }
}

/// A transition target has the meaning of a basis formula: it holds for a
/// set of true locations exactly when the basis formula holds for the
/// basis variables of those locations.
pub open spec fn same_meaning(f: Formula, b: BasisModel) -> bool {
    forall|val: Set<Seq<char>>| #[trigger] sat(f, val) == bsat(b, basis_valuation(val))
}

/// Errors produced while converting an evidence automaton into a hypothesis
/// automaton.
#[derive(Debug)]
#[non_exhaustive]
pub enum HypothesisArtaError<A> {
    /// The evidence automaton lacks a transition for one of its own letters.
    MissingDelta {
        /// Evidence-state index whose transition is missing.
        state_index: usize,
        /// Index of the symbol among the alphabet's symbols.
        symbol_index: usize,
        /// Delay of the missing transition.
        delay: DelayRep,
    },
    /// Guard inference failed for a compressed delay list.
    GuardInferenceFailed {
        /// Evidence-state index being converted.
        state_index: usize,
        /// Index of the symbol among the alphabet's symbols.
        symbol_index: usize,
        /// The partition failure.
        source: PartitionError,
    },
    /// The automaton builder rejected the hypothesis.
    ArtaBuildFailed {
        /// The builder failure.
        source: ArtaError<A>,
    },
}

/// The evidence targets of state `state` on `symbol` at each of `delays`.
fn resolve_targets<A: Symbol>(afa: &EvidenceAfa<A>, state: usize, symbol: &A, symbol_index: usize, delays: &Vec<DelayRep>) -> (r:
    Result<Vec<(DelayRep, BasisFormula)>, HypothesisArtaError<A>>)
    requires
        state < afa.rows().len(),
        forall|k: int| 0 <= k < delays@.len() ==> contains_letter_key(afa.letters(), (*symbol, #[trigger] delays@[k])),
    ensures
        r matches Ok(v) ==> v@.len() == delays@.len() && forall|k: int|
            0 <= k < v@.len() ==> (#[trigger] v@[k]).0 == delays@[k] && forall|a: int|
                0 <= a < afa.letters().len() && letter_key(#[trigger] afa.letters()[a]) == (symbol.key(), delays@[k]@)
                    ==> v@[k].1@ == afa.delta(state as int, a),
        r is Ok,
{
    proof {
        use_type_invariant(afa);
    }
    let mut resolved: Vec<(DelayRep, BasisFormula)> = Vec::new();
    let mut k: usize = 0;
    while k < delays.len()
        invariant
            afa.inv(),
            state < afa.rows().len(),
            forall|k: int| 0 <= k < delays@.len() ==> contains_letter_key(afa.letters(), (*symbol, #[trigger] delays@[k])),
            k <= delays@.len(),
            resolved@.len() == k,
            forall|j: int|
                0 <= j < k ==> (#[trigger] resolved@[j]).0 == delays@[j] && forall|a: int|
                    0 <= a < afa.letters().len() && letter_key(#[trigger] afa.letters()[a]) == (symbol.key(), delays@[j]@)
                        ==> resolved@[j].1@ == afa.delta(state as int, a),
        decreases delays@.len() - k,
    {
        let sigma = (symbol.copy_symbol(), delays[k]);
        match afa.transition(AfaStateId(state), &sigma) {
            Some(f) => {
                let ghost kk = k as int;
                proof {
                    let a0 = choose|a: int|
                        0 <= a < afa.letters().len() && letter_key(#[trigger] afa.letters()[a]) == letter_key(sigma) && (
                        forall|b: int| 0 <= b < a ==> letter_key(#[trigger] afa.letters()[b]) != letter_key(sigma))
                            && state < afa.rows().len() && f@ == afa.delta(state as int, a);
                    assert forall|a: int|
                        0 <= a < afa.letters().len() && letter_key(#[trigger] afa.letters()[a]) == (symbol.key(), delays@[kk]@)
                            implies f@ == afa.delta(state as int, a) by {
                        if a != a0 {
                            if a < a0 {
                                assert(letter_key(afa.letters()[a]) != letter_key(afa.letters()[a0]));
                            } else {
                                assert(letter_key(afa.letters()[a0]) != letter_key(afa.letters()[a]));
                            }
                        }
                    }
                }
                resolved.push((delays[k], f.duplicate()));
            },
            None => {
                proof {
                    assert(contains_letter_key(afa.letters(), (*symbol, delays@[k as int])));
                    assert(letter_key(sigma) == letter_key((*symbol, delays@[k as int])));
                }
                return Err(HypothesisArtaError::MissingDelta { state_index: state, symbol_index, delay: delays[k] });
            },
        }
        k = k + 1;
    }
    Ok(resolved)
}

/// Strictly increasing delays increase between any two positions.
proof fn lemma_strict_pairwise(d: Seq<DelayRep>)
    requires
        strictly_increasing(d),
    ensures
        forall|i: int, j: int| 0 <= i < j < d.len() ==> (#[trigger] d[i])@ < (#[trigger] d[j])@,
    decreases d.len(),
{
    if d.len() > 0 {
        let q = d.drop_last();
        assert(strictly_increasing(q)) by {
            assert forall|i: int| 0 < i < q.len() implies q[i - 1]@ < #[trigger] q[i]@ by {
                assert(q[i] == d[i] && q[i - 1] == d[i - 1]);
            }
        }
        lemma_strict_pairwise(q);
        assert forall|i: int, j: int| 0 <= i < j < d.len() implies (#[trigger] d[i])@ < (#[trigger] d[j])@ by {
            if j < d.len() - 1 {
                assert(q[i] == d[i] && q[j] == d[j]);
            } else if i < j - 1 {
                assert(q[i] == d[i] && q[j - 1] == d[j - 1]);
                assert(d[j - 1]@ < d[j]@);
            }
        }
    }
}

/// Pending transition `p` leaves location `q{state}` on the symbol with key
/// `key`, its guard holds the finite delay `h`, and its target means `b`.
pub open spec fn transition_for(p: PendingModel, state: int, key: Seq<char>, h: u32, b: BasisModel) -> bool {
    &&& p.0 == state_location_name(state as nat)
    &&& p.1 == key
    &&& p.2.has(h as int)
    &&& !half_is_infinite(h)
    &&& same_meaning(p.3, b)
}

/// The guards partition the time line into consecutive cells, cell `t`
/// holding delay `cd[t]`.
#[verifier::opaque]
pub open spec fn cells_cover(guards: Seq<IntervalModel>, cd: Seq<DelayRep>) -> bool {
    &&& consecutive_cells(guards)
    &&& forall|t: int| 0 <= t < guards.len() ==> (#[trigger] guards[t]).has(cd[t]@ as int)
}

/// The targets of the transitions added from `base` name only locations of
/// basis variables of the matching change points.
#[verifier::opaque]
pub open spec fn targets_named(pending: Seq<PendingModel>, base: int, cv: Seq<(u32, BasisModel)>) -> bool {
    forall|t: int, y: Seq<char>|
        0 <= t < cv.len() && #[trigger] occurs(pending[base + t].3, y) ==> names_basis_var(cv[t].1, y)
}

/// The delays of the kept change points and the guards inferred from them.
fn kept_guards(kept: &Vec<(DelayRep, BasisFormula)>) -> (r: Result<(Vec<DelayRep>, Vec<Interval>), PartitionError>)
    requires
        kept@.len() > 0,
        forall|t: int| 0 < t < kept@.len() ==> kept@[t - 1].0@ < #[trigger] kept@[t].0@,
    ensures
        r is Err ==> exists|t: int| 0 <= t < kept@.len() && half_is_infinite(#[trigger] kept@[t].0@),
        r matches Ok((cd, iv)) ==> {
            &&& cd@.len() == kept@.len()
            &&& iv@.len() == kept@.len()
            &&& forall|t: int| 0 <= t < cd@.len() ==> (#[trigger] cd@[t]) == kept@[t].0
            &&& forall|t: int| 0 <= t < cd@.len() ==> !half_is_infinite(#[trigger] cd@[t]@)
            &&& forall|t: int| 0 <= t < iv@.len() ==> (#[trigger] iv@[t])@.wf()
            &&& forall|t: int| 0 <= t < iv@.len() ==> (#[trigger] iv@[t])@.lo() == cell_lo(cd@, t)
            &&& forall|t: int| 0 <= t < iv@.len() ==> (#[trigger] iv@[t])@.hi() == cell_hi(cd@, t)
            &&& cells_cover(iv@.map_values(|v: Interval| v@), cd@)
        },
{
    let mut cdelays: Vec<DelayRep> = Vec::new();
    let mut j: usize = 0;
    while j < kept.len()
        invariant
            j <= kept@.len(),
            cdelays@.len() == j,
            forall|t: int| 0 <= t < j ==> (#[trigger] cdelays@[t]) == kept@[t].0,
        decreases kept@.len() - j,
    {
        cdelays.push(kept[j].0);
        j = j + 1;
    }
    proof {
        assert forall|t: int| 0 < t < cdelays@.len() implies cdelays@[t - 1]@ < #[trigger] cdelays@[t]@ by {
            assert(cdelays@[t - 1] == kept@[t - 1].0);
        }
    }
    match infer_guard_intervals_from_delays(&cdelays) {
        Ok(v) => {
            proof {
                reveal(cells_cover);
                let g = v@.map_values(|w: Interval| w@);
                assert forall|t: int| 0 <= t < g.len() implies (#[trigger] g[t]).has(cdelays@[t]@ as int) by {
                    assert(g[t] == v@[t]@);
                }
            }
            Ok((cdelays, v))
        },
        Err(e) => {
            proof {
                assert(!all_finite(cdelays@));
                let t = choose|t: int| 0 <= t < cdelays@.len() && half_is_infinite(#[trigger] cdelays@[t]@);
                assert(cdelays@[t] == kept@[t].0);
            }
            Err(e)
        },
    }
}

/// Add one transition per kept change point: from `q{state}` on `symbol`,
/// guarded by the interval inferred for it, to the point's target.
fn add_cell_transitions<A: Symbol>(
    builder: &mut ArtaBuilder<A>,
    state: usize,
    symbol: &A,
    kept: &Vec<(DelayRep, BasisFormula)>,
    intervals: &Vec<Interval>,
    mgr: &std::sync::Arc<DagStateFormulaManager>,
)
    requires
        intervals@.len() == kept@.len(),
    ensures
        final(builder)@.locations == old(builder)@.locations,
        final(builder)@.accepting == old(builder)@.accepting,
        final(builder)@.init == old(builder)@.init,
        final(builder)@.pending.len() == old(builder)@.pending.len() + kept@.len(),
        final(builder)@.pending.take(old(builder)@.pending.len() as int) == old(builder)@.pending,
        forall|t: int|
            0 <= t < kept@.len() ==> (#[trigger] final(builder)@.pending[old(builder)@.pending.len() + t]).0
                == state_location_name(state as nat) && final(builder)@.pending[old(builder)@.pending.len() + t].1
                == symbol.key() && final(builder)@.pending[old(builder)@.pending.len() + t].2 == intervals@[t]@
                && same_meaning(
                final(builder)@.pending[old(builder)@.pending.len() + t].3,
                change_points_view(kept@)[t].1,
            ),
        targets_named(final(builder)@.pending, old(builder)@.pending.len() as int, change_points_view(kept@)),
{
    let ghost before = builder@.pending;
    let ghost cv = change_points_view(kept@);
    let mut x: usize = 0;
    while x < intervals.len()
        invariant
            x <= intervals@.len(),
            intervals@.len() == kept@.len(),
            cv == change_points_view(kept@),
            builder@.locations == old(builder)@.locations,
            builder@.accepting == old(builder)@.accepting,
            builder@.init == old(builder)@.init,
            before == old(builder)@.pending,
            builder@.pending.len() == before.len() + x,
            builder@.pending.take(before.len() as int) == before,
            forall|t: int|
                0 <= t < x ==> (#[trigger] builder@.pending[before.len() + t]).0 == state_location_name(state as nat)
                    && builder@.pending[before.len() + t].1 == symbol.key() && builder@.pending[before.len() + t].2
                    == intervals@[t]@ && same_meaning(builder@.pending[before.len() + t].3, cv[t].1),
            forall|t: int, y: Seq<char>|
                0 <= t < x && #[trigger] occurs(builder@.pending[before.len() + t].3, y) ==> names_basis_var(cv[t].1, y),
        decreases intervals@.len() - x,
    {
        let loc = evidence_state_to_location_id(AfaStateId(state));
        let target = convert_basis_formula_to_dag_state_formula(&kept[x].1, mgr);
        let ghost prev = builder@.pending;
        builder.add_transition(loc, symbol.copy_symbol(), intervals[x], target);
        proof {
            assert(builder@.pending == prev.push(builder@.pending[prev.len() as int]));
            assert(builder@.pending.take(before.len() as int) =~= before) by {
                assert forall|t: int| 0 <= t < before.len() implies builder@.pending[t] == before[t] by {
                    assert(prev.take(before.len() as int)[t] == before[t]);
                }
            }
            assert(same_meaning(builder@.pending[before.len() + x].3, cv[x as int].1));
            assert(builder@.pending[before.len() + x].3 == target@);
            assert(cv[x as int].1 == kept@[x as int].1@);
            assert forall|t: int, y: Seq<char>|
                0 <= t < x + 1 && #[trigger] occurs(builder@.pending[before.len() + t].3, y) implies names_basis_var(cv[t].1, y) by {
                if t < x {
                    assert(builder@.pending[before.len() + t] == prev[before.len() + t]);
                }
            }
        }
        x = x + 1;
    }
    proof {
        reveal(targets_named);
    }
}

/// Add the transitions of evidence state `state` on `symbol` over the sorted
/// delays `delays`: the targets are resolved, runs of equal targets are
/// compressed, and guards are inferred from the kept delays.
#[verifier::rlimit(80)]
#[verifier::spinoff_prover]
fn add_symbol_transitions<A: Symbol>(
    afa: &EvidenceAfa<A>,
    builder: &mut ArtaBuilder<A>,
    state: usize,
    symbol: &A,
    symbol_index: usize,
    delays: &Vec<DelayRep>,
    mgr: &std::sync::Arc<DagStateFormulaManager>,
) -> (r: Result<(), HypothesisArtaError<A>>)
    requires
        state < afa.rows().len(),
        strictly_increasing(delays@),
        delays@.len() > 0,
        forall|k: int| 0 <= k < delays@.len() ==> contains_letter_key(afa.letters(), (*symbol, #[trigger] delays@[k])),
    ensures
        final(builder)@.locations == old(builder)@.locations,
        final(builder)@.accepting == old(builder)@.accepting,
        final(builder)@.init == old(builder)@.init,
        old(builder)@.pending.len() <= final(builder)@.pending.len(),
        final(builder)@.pending.take(old(builder)@.pending.len() as int) == old(builder)@.pending,
        forall|i: int|
            old(builder)@.pending.len() <= i < final(builder)@.pending.len() ==> (#[trigger] final(builder)@.pending[i]).0
                == state_location_name(state as nat) && final(builder)@.pending[i].1 == symbol.key(),
        r is Ok ==> forall|k: int, a: int|
            0 <= k < delays@.len() && 0 <= a < afa.letters().len() && letter_key(#[trigger] afa.letters()[a]) == (
            symbol.key(),
            #[trigger] delays@[k]@,
        ) ==> exists|i: int|
            old(builder)@.pending.len() <= i < final(builder)@.pending.len() && #[trigger] transition_for(
                final(builder)@.pending[i],
                state as int,
                symbol.key(),
                delays@[k]@,
                afa.delta(state as int, a),
            ),
        r matches Err(e) ==> (e matches HypothesisArtaError::GuardInferenceFailed { state_index, symbol_index: si, .. }
            && state_index == state && si == symbol_index),
        r is Ok && afa.vars_in_range() ==> cell_segment(
            final(builder)@.pending,
            old(builder)@.pending.len() as int,
            state_location_name(state as nat),
            symbol.key(),
            afa.rows().len(),
        ),
        r is Err ==> has_infinite_letter(*afa),
{
    let resolved = match resolve_targets(afa, state, symbol, symbol_index, delays) {
        Ok(v) => v,
        Err(e) => {
            return Err(e);
        },
    };
    let ghost pv = change_points_view(resolved@);
    proof {
        lemma_strict_pairwise(delays@);
        assert forall|i: int, j: int| 0 <= i < j < pv.len() implies (#[trigger] pv[i]).0 < (#[trigger] pv[j]).0 by {
            assert(resolved@[i].0 == delays@[i] && resolved@[j].0 == delays@[j]);
            assert(delays@[i]@ < delays@[j]@);
        }
        lemma_compressed_runs(pv);
    }
    let kept = compress_resolved_change_points(resolved);
    let ghost cv = change_points_view(kept@);
    proof {
        assert(cv == compressed(pv));
        lemma_compressed_members(pv);
        assert(pv.len() > 0 ==> cv.len() > 0);
        assert forall|t: int| 0 < t < kept@.len() implies kept@[t - 1].0@ < #[trigger] kept@[t].0@ by {
            assert(cv[t - 1].0 < cv[t].0);
        }
    }
    let (cdelays, intervals) = match kept_guards(&kept) {
        Ok(v) => v,
        Err(source) => {
            proof {
                let t = choose|t: int| 0 <= t < kept@.len() && half_is_infinite(#[trigger] kept@[t].0@);
                assert(pv.contains(cv[t]));
                let k = choose|k: int| 0 <= k < pv.len() && pv[k] == cv[t];
                assert(resolved@[k].0 == delays@[k]);
                assert(contains_letter_key(afa.letters(), (*symbol, delays@[k])));
                let m = choose|m: int|
                    0 <= m < afa.letters().len() && letter_key(#[trigger] afa.letters()[m]) == letter_key(
                        (*symbol, delays@[k]),
                    );
                assert(half_is_infinite(afa.letters()[m].1@));
            }
            return Err(HypothesisArtaError::GuardInferenceFailed { state_index: state, symbol_index, source });
        },
    };
    proof {
        assert forall|t: int| 0 <= t < cdelays@.len() implies (#[trigger] cdelays@[t])@ == cv[t].0 by {
            assert(cdelays@[t] == kept@[t].0);
        }
    }
    let ghost before = builder@.pending;
    add_cell_transitions(builder, state, symbol, &kept, &intervals, mgr);
    let ghost guards = intervals@.map_values(|iv: Interval| iv@);
    proof {
        assert forall|t: int| 0 <= t < guards.len() implies #[trigger] guards[t] == intervals@[t]@ by {}
        assert forall|t: int| 0 <= t < cdelays@.len() implies !half_is_infinite(#[trigger] cdelays@[t]@) by {}
        assert forall|t: int|
            0 <= t < cv.len() implies (#[trigger] builder@.pending[before.len() + t]).2 == guards[t] by {}
        assert forall|k: int, a: int|
            0 <= k < delays@.len() && 0 <= a < afa.letters().len() && letter_key(#[trigger] afa.letters()[a]) == (
                symbol.key(),
                #[trigger] delays@[k]@,
            ) implies pv[k] == (delays@[k]@, afa.delta(state as int, a)) by {}
        lemma_symbol_cover(*afa, pv, cv, cdelays@, guards, builder@.pending, before.len() as int, state as int, symbol.key(), delays@);
        if afa.vars_in_range() {
            assert(cv == compressed(pv));
            lemma_compressed_members(pv);
            lemma_symbol_segment(*afa, builder@.pending, before.len() as int, state as int, *symbol, cv, cdelays@, guards, delays@, pv);
        }
        assert forall|i: int|
            before.len() <= i < builder@.pending.len() implies (#[trigger] builder@.pending[i]).0 == state_location_name(
                state as nat,
            ) && builder@.pending[i].1 == symbol.key() by {
            assert(builder@.pending[before.len() + (i - before.len())] == builder@.pending[i]);
        }
    }
    Ok(())
}

/// The transitions `pending[base..]` leave location `name` on symbol key
/// `key`, have well-formed guards holding a finite delay, targets over the
/// locations `q{j}` with `j < n`, and no two of them clash.
#[verifier::opaque]
pub open spec fn cell_segment(pending: Seq<PendingModel>, base: int, name: Seq<char>, key: Seq<char>, n: nat) -> bool {
    &&& forall|i: int|
        base <= i < pending.len() ==> (#[trigger] pending[i]).0 == name && pending[i].1 == key && pending[i].2.wf()
            && pending[i].2.has_witness()
    &&& forall|i: int, x: Seq<char>|
        base <= i < pending.len() && #[trigger] occurs(pending[i].3, x) ==> exists|j: nat|
            j < n && x == #[trigger] state_location_name(j)
    &&& forall|i: int, j: int|
        base <= i < pending.len() && base <= j < pending.len() ==> !pending_clash(#[trigger] pending[i], #[trigger] pending[j])
}

/// The transitions added for one symbol of a state form a cell segment.
proof fn lemma_symbol_segment<A: Symbol>(
    afa: EvidenceAfa<A>,
    pending: Seq<PendingModel>,
    base: int,
    state: int,
    sym: A,
    cv: Seq<(u32, BasisModel)>,
    cd: Seq<DelayRep>,
    guards: Seq<IntervalModel>,
    delays: Seq<DelayRep>,
    pv: Seq<(u32, BasisModel)>,
)
    requires
        afa.vars_in_range(),
        0 <= state < afa.rows().len(),
        0 <= base,
        pending.len() == base + cv.len(),
        cd.len() == cv.len(),
        guards.len() == cv.len(),
        pv.len() == delays.len(),
        forall|t: int| 0 <= t < cv.len() ==> pv.contains(#[trigger] cv[t]),
        forall|t: int|
            0 <= t < cv.len() ==> (#[trigger] pending[base + t]).0 == state_location_name(state as nat) && pending[base
                + t].1 == sym.key() && pending[base + t].2 == guards[t],
        forall|t: int| 0 <= t < cd.len() ==> !half_is_infinite(#[trigger] cd[t]@),
        cells_cover(guards, cd),
        targets_named(pending, base, cv),
        forall|k: int| 0 <= k < delays.len() ==> contains_letter_key(afa.letters(), (sym, #[trigger] delays[k])),
        forall|k: int, a: int|
            0 <= k < delays.len() && 0 <= a < afa.letters().len() && letter_key(#[trigger] afa.letters()[a]) == (
                sym.key(),
                #[trigger] delays[k]@,
            ) ==> pv[k] == (delays[k]@, afa.delta(state, a)),
    ensures
        cell_segment(pending, base, state_location_name(state as nat), sym.key(), afa.rows().len()),
{
    reveal(cells_cover);
    reveal(targets_named);
    reveal(cell_segment);
    let n = afa.rows().len();
    assert forall|i: int| base <= i < pending.len() implies (#[trigger] pending[i]).0 == state_location_name(state as nat)
        && pending[i].1 == sym.key() && pending[i].2.wf() && pending[i].2.has_witness() by {
        let t = i - base;
        assert(pending[base + t] == pending[i]);
        assert(guards[t].has(cd[t]@ as int));
        assert(!half_is_infinite(cd[t]@));
    }
    assert forall|i: int, x: Seq<char>| base <= i < pending.len() && #[trigger] occurs(pending[i].3, x) implies exists|j: nat|
        j < n && x == #[trigger] state_location_name(j) by {
        let t = i - base;
        assert(pending[base + t] == pending[i]);
        assert(names_basis_var(cv[t].1, x));
        let v = choose|v: usize| #[trigger] bmentions(cv[t].1, v) && x == state_location_name(v as nat);
        let k = choose|k: int| 0 <= k < pv.len() && pv[k] == cv[t];
        assert(contains_letter_key(afa.letters(), (sym, delays[k])));
        let a = choose|a: int| 0 <= a < afa.letters().len() && letter_key(#[trigger] afa.letters()[a]) == letter_key((sym, delays[k]));
        assert(pv[k] == (delays[k]@, afa.delta(state, a)));
        assert(bmentions(afa.delta(state, a), v));
        assert(v < n);
        assert(state_location_name(v as nat) == x);
    }
    assert forall|i: int, j: int| base <= i < pending.len() && base <= j < pending.len() implies !pending_clash(
        #[trigger] pending[i],
        #[trigger] pending[j],
    ) by {
        let ti = i - base;
        let tj = j - base;
        assert(pending[base + ti] == pending[i]);
        assert(pending[base + tj] == pending[j]);
        if ti != tj && pending_clash(pending[i], pending[j]) {
            let h: int = if guards[ti] == guards[tj] {
                assert(guards[ti].has(cd[ti]@ as int));
                guards[ti].lo()
            } else {
                choose|h: int| 0 <= h <= max_finite() && #[trigger] pending[i].2.has(h) && pending[j].2.has(h)
            };
            assert(guards[ti].has(h) && guards[tj].has(h));
            lemma_consecutive_cells_partition(guards, h);
        }
    }
}

/// Every letter of `afa` on `key` with one of the delays `delays` has a
/// pending transition from `state` among those added after `base`.
proof fn lemma_symbol_cover<A: Symbol>(
    afa: EvidenceAfa<A>,
    pv: Seq<(u32, BasisModel)>,
    cv: Seq<(u32, BasisModel)>,
    cdelays: Seq<DelayRep>,
    guards: Seq<IntervalModel>,
    pending: Seq<PendingModel>,
    base: int,
    state: int,
    key: Seq<char>,
    delays: Seq<DelayRep>,
)
    requires
        pv.len() == delays.len(),
        runs_covered(pv, cv),
        cdelays.len() == cv.len(),
        guards.len() == cv.len(),
        0 <= base,
        pending.len() == base + cv.len(),
        forall|t: int| 0 <= t < cdelays.len() ==> (#[trigger] cdelays[t])@ == cv[t].0,
        forall|t: int| 0 <= t < cdelays.len() ==> !half_is_infinite(#[trigger] cdelays[t]@),
        forall|t: int| 0 <= t < guards.len() ==> (#[trigger] guards[t]).wf(),
        forall|t: int| 0 <= t < guards.len() ==> (#[trigger] guards[t]).lo() == cell_lo(cdelays, t),
        forall|t: int| 0 <= t < guards.len() ==> (#[trigger] guards[t]).hi() == cell_hi(cdelays, t),
        forall|t: int|
            0 <= t < cv.len() ==> (#[trigger] pending[base + t]).0 == state_location_name(state as nat) && pending[base
                + t].1 == key && pending[base + t].2 == guards[t] && same_meaning(pending[base + t].3, cv[t].1),
        forall|k: int, a: int|
            0 <= k < delays.len() && 0 <= a < afa.letters().len() && letter_key(#[trigger] afa.letters()[a]) == (
                key,
                #[trigger] delays[k]@,
            ) ==> pv[k] == (delays[k]@, afa.delta(state, a)),
    ensures
        forall|k: int, a: int|
            0 <= k < delays.len() && 0 <= a < afa.letters().len() && letter_key(#[trigger] afa.letters()[a]) == (
                key,
                #[trigger] delays[k]@,
            ) ==> exists|i: int|
                base <= i < pending.len() && #[trigger] transition_for(
                    pending[i],
                    state,
                    key,
                    delays[k]@,
                    afa.delta(state, a),
                ),
{
    assert forall|k: int, a: int|
        0 <= k < delays.len() && 0 <= a < afa.letters().len() && letter_key(#[trigger] afa.letters()[a]) == (
            key,
            #[trigger] delays[k]@,
        ) implies exists|i: int|
        base <= i < pending.len() && #[trigger] transition_for(pending[i], state, key, delays[k]@, afa.delta(state, a)) by {
        assert(pv[k] == (delays[k]@, afa.delta(state, a)));
        lemma_cell_transition(pv, cv, cdelays, guards, pending, base, state, key, k);
    }
}

/// The pending transition of the cell that covers point `k` of `pv` is a
/// transition for that point's delay and target.
proof fn lemma_cell_transition(
    pv: Seq<(u32, BasisModel)>,
    cv: Seq<(u32, BasisModel)>,
    cdelays: Seq<DelayRep>,
    guards: Seq<IntervalModel>,
    pending: Seq<PendingModel>,
    base: int,
    state: int,
    key: Seq<char>,
    k: int,
)
    requires
        0 <= k < pv.len(),
        runs_covered(pv, cv),
        cdelays.len() == cv.len(),
        guards.len() == cv.len(),
        0 <= base,
        pending.len() == base + cv.len(),
        forall|t: int| 0 <= t < cdelays.len() ==> (#[trigger] cdelays[t])@ == cv[t].0,
        forall|t: int| 0 <= t < cdelays.len() ==> !half_is_infinite(#[trigger] cdelays[t]@),
        forall|t: int| 0 <= t < guards.len() ==> (#[trigger] guards[t]).wf(),
        forall|t: int| 0 <= t < guards.len() ==> (#[trigger] guards[t]).lo() == cell_lo(cdelays, t),
        forall|t: int| 0 <= t < guards.len() ==> (#[trigger] guards[t]).hi() == cell_hi(cdelays, t),
        forall|t: int|
            0 <= t < cv.len() ==> (#[trigger] pending[base + t]).0 == state_location_name(state as nat) && pending[base
                + t].1 == key && pending[base + t].2 == guards[t] && same_meaning(pending[base + t].3, cv[t].1),
    ensures
        exists|i: int| base <= i < pending.len() && #[trigger] transition_for(pending[i], state, key, pv[k].0, pv[k].1),
{
    assert(covered_at(pv, cv, k));
    let jj = choose|jj: int| #[trigger] run_cell(cv, jj, pv[k].0, pv[k].1);
    let h = pv[k].0;
    let p = pending[base + jj];
    assert(cdelays[jj]@ == cv[jj].0);
    if jj > 0 {
        assert(cdelays[jj - 1]@ == cv[jj - 1].0);
    }
    assert(!half_is_infinite(cdelays[jj]@));
    assert(guards[jj].wf());
    assert(p.2.has(h as int));
    assert(transition_for(p, state, key, h, pv[k].1));
}

/// Some pending transition covers letter `m` of `afa` from state `i`.
pub open spec fn covered_letter<A: Symbol>(pending: Seq<PendingModel>, afa: EvidenceAfa<A>, i: int, m: int) -> bool {
    exists|idx: int|
        0 <= idx < pending.len() && #[trigger] transition_for(
            pending[idx],
            i,
            afa.letters()[m].0.key(),
            afa.letters()[m].1@,
            afa.delta(i, m),
        )
}

/// Pending transitions kept as a prefix keep covering what they covered.
proof fn lemma_covered_prefix<A: Symbol>(p0: Seq<PendingModel>, p1: Seq<PendingModel>, afa: EvidenceAfa<A>, i: int, m: int)
    requires
        p0.len() <= p1.len(),
        p1.take(p0.len() as int) == p0,
        covered_letter(p0, afa, i, m),
    ensures
        covered_letter(p1, afa, i, m),
{
    let idx = choose|idx: int|
        0 <= idx < p0.len() && #[trigger] transition_for(
            p0[idx],
            i,
            afa.letters()[m].0.key(),
            afa.letters()[m].1@,
            afa.delta(i, m),
        );
    assert(p1.take(p0.len() as int)[idx] == p1[idx]);
    assert(transition_for(p1[idx], i, afa.letters()[m].0.key(), afa.letters()[m].1@, afa.delta(i, m)));
}

/// A letter whose delay is in the list just handled is covered by the
/// transitions added for that list.
proof fn lemma_new_symbol_covered<A: Symbol>(
    afa: EvidenceAfa<A>,
    pending: Seq<PendingModel>,
    base: int,
    i: int,
    key: Seq<char>,
    delays: Seq<DelayRep>,
    m: int,
)
    requires
        0 <= m < afa.letters().len(),
        key == afa.letters()[m].0.key(),
        delays.contains(afa.letters()[m].1),
        0 <= base,
        forall|k: int, a: int|
            0 <= k < delays.len() && 0 <= a < afa.letters().len() && letter_key(#[trigger] afa.letters()[a]) == (
                key,
                #[trigger] delays[k]@,
            ) ==> exists|idx: int|
                base <= idx < pending.len() && #[trigger] transition_for(pending[idx], i, key, delays[k]@, afa.delta(i, a)),
    ensures
        covered_letter(pending, afa, i, m),
{
    let k = choose|k: int| 0 <= k < delays.len() && delays[k] == afa.letters()[m].1;
    assert(letter_key(afa.letters()[m]) == (key, delays[k]@));
    let idx = choose|idx: int|
        base <= idx < pending.len() && #[trigger] transition_for(pending[idx], i, key, delays[k]@, afa.delta(i, m));
    assert(transition_for(pending[idx], i, afa.letters()[m].0.key(), afa.letters()[m].1@, afa.delta(i, m)));
}

/// After the transitions on symbol `si` are added, the letters on the
/// symbols up to `si` are covered and the earlier transitions stay.
proof fn lemma_symbol_step<A: Symbol>(
    afa: EvidenceAfa<A>,
    start: Seq<PendingModel>,
    before: Seq<PendingModel>,
    after: Seq<PendingModel>,
    i: int,
    symbols: Seq<A>,
    lists: Seq<Vec<DelayRep>>,
    si: int,
)
    requires
        0 <= si < symbols.len(),
        symbols.len() == lists.len(),
        start.len() <= before.len() <= after.len(),
        before.take(start.len() as int) == start,
        after.take(before.len() as int) == before,
        forall|m: int|
            0 <= m < afa.letters().len() && (exists|s: int|
                0 <= s < si && symbols[s].key() == afa.letters()[m].0.key() && lists[s]@.contains(
                    afa.letters()[m].1,
                )) ==> #[trigger] covered_letter(before, afa, i, m),
        forall|k: int, a: int|
            0 <= k < lists[si]@.len() && 0 <= a < afa.letters().len() && letter_key(#[trigger] afa.letters()[a]) == (
                symbols[si].key(),
                #[trigger] lists[si]@[k]@,
            ) ==> exists|idx: int|
                before.len() <= idx < after.len() && #[trigger] transition_for(
                    after[idx],
                    i,
                    symbols[si].key(),
                    lists[si]@[k]@,
                    afa.delta(i, a),
                ),
    ensures
        after.take(start.len() as int) == start,
        forall|m: int|
            0 <= m < afa.letters().len() && (exists|s: int|
                0 <= s < si + 1 && symbols[s].key() == afa.letters()[m].0.key() && lists[s]@.contains(
                    afa.letters()[m].1,
                )) ==> #[trigger] covered_letter(after, afa, i, m),
{
    assert(after.take(start.len() as int) =~= start) by {
        assert forall|t: int| 0 <= t < start.len() implies after[t] == start[t] by {
            assert(after.take(before.len() as int)[t] == before[t]);
            assert(before.take(start.len() as int)[t] == start[t]);
        }
    }
    assert forall|m: int|
        0 <= m < afa.letters().len() && (exists|s: int|
            0 <= s < si + 1 && symbols[s].key() == afa.letters()[m].0.key() && lists[s]@.contains(
                afa.letters()[m].1,
            )) implies #[trigger] covered_letter(after, afa, i, m) by {
        let s = choose|s: int|
            0 <= s < si + 1 && symbols[s].key() == afa.letters()[m].0.key() && lists[s]@.contains(
                afa.letters()[m].1,
            );
        if s < si {
            assert(covered_letter(before, afa, i, m));
            lemma_covered_prefix(before, after, afa, i, m);
        } else {
            lemma_new_symbol_covered(afa, after, before.len() as int, i, symbols[si].key(), lists[si]@, m);
        }
    }
}

/// The transitions `pending[base..]` leave location `name`, have
/// well-formed guards holding a finite delay, targets over the locations
/// `q{j}` with `j < n`, and no two of them clash.
#[verifier::opaque]
pub open spec fn state_segment(pending: Seq<PendingModel>, base: int, name: Seq<char>, n: nat) -> bool {
    &&& forall|i: int|
        base <= i < pending.len() ==> (#[trigger] pending[i]).0 == name && pending[i].2.wf() && pending[i].2.has_witness()
    &&& forall|i: int, x: Seq<char>|
        base <= i < pending.len() && #[trigger] occurs(pending[i].3, x) ==> exists|j: nat|
            j < n && x == #[trigger] state_location_name(j)
    &&& forall|i: int, j: int|
        base <= i < pending.len() && base <= j < pending.len() ==> !pending_clash(#[trigger] pending[i], #[trigger] pending[j])
}

/// The symbol key of each transition of `pending[base..]` is one of the
/// first `si` keys.
#[verifier::opaque]
pub open spec fn keys_before(pending: Seq<PendingModel>, base: int, keys: Seq<Seq<char>>, si: int) -> bool {
    forall|i: int| base <= i < pending.len() ==> exists|s: int| 0 <= s < si && #[trigger] keys[s] == (#[trigger] pending[i]).1
}

/// Adding the segment of a new symbol key keeps a state's transitions free
/// of clashes.
proof fn lemma_state_grow(
    before: Seq<PendingModel>,
    after: Seq<PendingModel>,
    base: int,
    name: Seq<char>,
    n: nat,
    keys: Seq<Seq<char>>,
    si: int,
)
    requires
        0 <= base <= before.len() <= after.len(),
        0 <= si < keys.len(),
        after.take(before.len() as int) == before,
        state_segment(before, base, name, n),
        keys_before(before, base, keys, si),
        cell_segment(after, before.len() as int, name, keys[si], n),
        forall|s: int| 0 <= s < si ==> keys[s] != keys[si],
    ensures
        state_segment(after, base, name, n),
        keys_before(after, base, keys, si + 1),
{
    reveal(state_segment);
    reveal(keys_before);
    reveal(cell_segment);
    assert forall|i: int| 0 <= i < before.len() implies after[i] == before[i] by {
        assert(after.take(before.len() as int)[i] == before[i]);
    }
    assert forall|i: int| base <= i < after.len() implies (#[trigger] after[i]).0 == name && after[i].2.wf()
        && after[i].2.has_witness() by {
        if i < before.len() {
            assert(after[i] == before[i]);
        }
    }
    assert forall|i: int, x: Seq<char>| base <= i < after.len() && #[trigger] occurs(after[i].3, x) implies exists|j: nat|
        j < n && x == #[trigger] state_location_name(j) by {
        if i < before.len() {
            assert(after[i] == before[i]);
        }
    }
    assert forall|i: int, j: int| base <= i < after.len() && base <= j < after.len() implies !pending_clash(
        #[trigger] after[i],
        #[trigger] after[j],
    ) by {
        if i < before.len() && j < before.len() {
            assert(after[i] == before[i] && after[j] == before[j]);
        } else if i < before.len() {
            assert(after[i] == before[i]);
            let s = choose|s: int| 0 <= s < si && #[trigger] keys[s] == before[i].1;
            assert(after[j].1 == keys[si]);
        } else if j < before.len() {
            assert(after[j] == before[j]);
            let s = choose|s: int| 0 <= s < si && #[trigger] keys[s] == before[j].1;
            assert(after[i].1 == keys[si]);
        }
    }
    assert forall|i: int| base <= i < after.len() implies exists|s: int| 0 <= s < si + 1 && #[trigger] keys[s] == (#[trigger] after[i]).1 by {
        if i < before.len() {
            assert(after[i] == before[i]);
            let s = choose|s: int| 0 <= s < si && #[trigger] keys[s] == before[i].1;
            assert(keys[s] == after[i].1);
        } else {
            assert(keys[si] == after[i].1);
        }
    }
}

/// Every pending transition is valid over `locs` and no two clash.
#[verifier::opaque]
pub open spec fn pendings_valid(locs: Seq<Seq<char>>, pending: Seq<PendingModel>) -> bool {
    &&& forall|k: int| 0 <= k < pending.len() ==> pending_ok(locs, #[trigger] pending[k])
    &&& forall|k: int, l: int|
        0 <= k < pending.len() && 0 <= l < pending.len() ==> !pending_clash(#[trigger] pending[k], #[trigger] pending[l])
}

/// Every pending transition leaves a location `q{j}` with `j < i`.
#[verifier::opaque]
pub open spec fn states_before(pending: Seq<PendingModel>, i: int) -> bool {
    forall|k: int| 0 <= k < pending.len() ==> exists|j: nat| j < i && (#[trigger] pending[k]).0 == #[trigger] state_location_name(j)
}

/// Different states have different location names.
proof fn lemma_state_name_injective(a: nat, b: nat)
    requires
        state_location_name(a) == state_location_name(b),
    ensures
        a == b,
{
    assert(decimal(a) =~= state_location_name(a).drop_first());
    assert(decimal(b) =~= state_location_name(b).drop_first());
    crate::text::lemma_decimal_injective(a, b);
}

/// Adding the transitions of state `i` keeps the pending transitions valid.
proof fn lemma_state_added(before: Seq<PendingModel>, after: Seq<PendingModel>, locs: Seq<Seq<char>>, n: nat, i: int)
    requires
        0 <= i < n,
        before.len() <= after.len(),
        after.take(before.len() as int) == before,
        pendings_valid(locs, before),
        states_before(before, i),
        state_segment(after, before.len() as int, state_location_name(i as nat), n),
        forall|nm: Seq<char>|
            #![trigger locs.contains(nm)]
            locs.contains(nm) <==> exists|j: nat| j < n && nm == #[trigger] state_location_name(j),
    ensures
        pendings_valid(locs, after),
        states_before(after, i + 1),
{
    reveal(pendings_valid);
    reveal(states_before);
    reveal(state_segment);
    assert forall|k: int| 0 <= k < before.len() implies after[k] == before[k] by {
        assert(after.take(before.len() as int)[k] == before[k]);
    }
    assert(locs.contains(state_location_name(i as nat)));
    assert forall|k: int| 0 <= k < after.len() implies pending_ok(locs, #[trigger] after[k]) by {
        if k < before.len() {
            assert(after[k] == before[k]);
        } else {
            assert forall|x: Seq<char>| #[trigger] occurs(after[k].3, x) implies locs.contains(x) by {
                let j = choose|j: nat| j < n && x == #[trigger] state_location_name(j);
            }
        }
    }
    assert forall|k: int, l: int| 0 <= k < after.len() && 0 <= l < after.len() implies !pending_clash(
        #[trigger] after[k],
        #[trigger] after[l],
    ) by {
        if k < before.len() && l < before.len() {
            assert(after[k] == before[k] && after[l] == before[l]);
        } else if k < before.len() {
            assert(after[k] == before[k]);
            let j = choose|j: nat| j < i && (#[trigger] before[k]).0 == #[trigger] state_location_name(j);
            if after[k].0 == after[l].0 {
                lemma_state_name_injective(j, i as nat);
            }
        } else if l < before.len() {
            assert(after[l] == before[l]);
            let j = choose|j: nat| j < i && (#[trigger] before[l]).0 == #[trigger] state_location_name(j);
            if after[k].0 == after[l].0 {
                lemma_state_name_injective(j, i as nat);
            }
        }
    }
    assert forall|k: int| 0 <= k < after.len() implies exists|j: nat| j < i + 1 && (#[trigger] after[k]).0 == #[trigger] state_location_name(j) by {
        if k < before.len() {
            assert(after[k] == before[k]);
            let j = choose|j: nat| j < i && (#[trigger] before[k]).0 == #[trigger] state_location_name(j);
        } else {
            assert(after[k].0 == state_location_name(i as nat));
        }
    }
}

/// Add the transitions of evidence state `i` on every symbol.
#[verifier::rlimit(100)]
fn add_state_transitions<A: Symbol>(
    afa: &EvidenceAfa<A>,
    builder: &mut ArtaBuilder<A>,
    i: usize,
    symbols: &Vec<A>,
    lists: &Vec<Vec<DelayRep>>,
    mgr: &std::sync::Arc<DagStateFormulaManager>,
) -> (r: Result<(), HypothesisArtaError<A>>)
    requires
        i < afa.rows().len(),
        lists_shaped(symbols@, lists@),
        lists_cover(afa.letters(), afa.letters().len() as int, symbols@, lists@),
        forall|s: int, k: int|
            0 <= s < lists@.len() && 0 <= k < lists@[s]@.len() ==> contains_letter_key(
                afa.letters(),
                (symbols@[s], #[trigger] lists@[s]@[k]),
            ),
    ensures
        final(builder)@.locations == old(builder)@.locations,
        final(builder)@.accepting == old(builder)@.accepting,
        final(builder)@.init == old(builder)@.init,
        old(builder)@.pending.len() <= final(builder)@.pending.len(),
        final(builder)@.pending.take(old(builder)@.pending.len() as int) == old(builder)@.pending,
        r is Ok ==> forall|m: int| 0 <= m < afa.letters().len() ==> #[trigger] covered_letter(final(builder)@.pending, *afa, i as int, m),
        r is Err ==> !(r->Err_0 is MissingDelta),
        r is Err ==> has_infinite_letter(*afa),
        r matches Err(e) ==> e is GuardInferenceFailed,
        r is Ok && afa.vars_in_range() ==> state_segment(
            final(builder)@.pending,
            old(builder)@.pending.len() as int,
            state_location_name(i as nat),
            afa.rows().len(),
        ),
{
    proof {
        use_type_invariant(afa);
    }
    let ghost start = builder@.pending;
    let ghost keys = Seq::new(symbols@.len(), |s: int| symbols@[s].key());
    proof {
        reveal(state_segment);
        reveal(keys_before);
    }
    let mut si: usize = 0;
    while si < symbols.len()
        invariant
            afa.inv(),
            i < afa.rows().len(),
            lists_shaped(symbols@, lists@),
            lists_cover(afa.letters(), afa.letters().len() as int, symbols@, lists@),
            forall|s: int, k: int|
                0 <= s < lists@.len() && 0 <= k < lists@[s]@.len() ==> contains_letter_key(
                    afa.letters(),
                    (symbols@[s], #[trigger] lists@[s]@[k]),
                ),
            si <= symbols@.len(),
            builder@.locations == old(builder)@.locations,
            builder@.accepting == old(builder)@.accepting,
            builder@.init == old(builder)@.init,
            start == old(builder)@.pending,
            start.len() <= builder@.pending.len(),
            builder@.pending.take(start.len() as int) == start,
            forall|m: int|
                0 <= m < afa.letters().len() && (exists|s: int|
                    0 <= s < si && symbols@[s].key() == afa.letters()[m].0.key() && lists@[s]@.contains(
                        afa.letters()[m].1,
                    )) ==> #[trigger] covered_letter(builder@.pending, *afa, i as int, m),
            keys == Seq::new(symbols@.len(), |s: int| symbols@[s].key()),
            afa.vars_in_range() ==> state_segment(builder@.pending, start.len() as int, state_location_name(i as nat), afa.rows().len()),
            afa.vars_in_range() ==> keys_before(builder@.pending, start.len() as int, keys, si as int),
        decreases symbols@.len() - si,
    {
        let ghost before = builder@.pending;
        proof {
            assert(strictly_increasing(lists@[si as int]@) && lists@[si as int]@.len() > 0);
            assert forall|k: int| 0 <= k < lists@[si as int]@.len() implies contains_letter_key(
                afa.letters(),
                (symbols@[si as int], #[trigger] lists@[si as int]@[k]),
            ) by {}
        }
        match add_symbol_transitions(afa, builder, i, &symbols[si], si, &lists[si], mgr) {
            Ok(()) => {},
            Err(e) => {
                proof {
                    assert(builder@.pending.take(start.len() as int) =~= start) by {
                        assert forall|t: int| 0 <= t < start.len() implies builder@.pending[t] == start[t] by {
                            assert(builder@.pending.take(before.len() as int)[t] == before[t]);
                            assert(before.take(start.len() as int)[t] == start[t]);
                        }
                    }
                }
                return Err(e);
            },
        }
        proof {
            lemma_symbol_step(*afa, start, before, builder@.pending, i as int, symbols@, lists@, si as int);
            if afa.vars_in_range() {
                assert forall|s: int| 0 <= s < si implies keys[s] != keys[si as int] by {
                    assert(symbols@[s].key() != symbols@[si as int].key());
                }
                lemma_state_grow(before, builder@.pending, start.len() as int, state_location_name(i as nat), afa.rows().len(), keys, si as int);
            }
        }
        si = si + 1;
    }
    proof {
        assert forall|m: int| 0 <= m < afa.letters().len() implies #[trigger] covered_letter(builder@.pending, *afa, i as int, m) by {
            let s = choose|s: int|
                0 <= s < symbols@.len() && (#[trigger] symbols@[s]).key() == (#[trigger] afa.letters()[m]).0.key()
                    && lists@[s]@.contains(afa.letters()[m].1);
        }
    }
    Ok(())
}

impl<A: Symbol> EvidenceAfa<A> {
    /// The hypothesis automaton of this evidence automaton: location `q{i}`
    /// for each state `i`, accepting where the state accepts, the initial
    /// and transition formulas rewritten over the locations, and guards
    /// inferred from each symbol's delays after runs of equal targets are
    /// compressed. Every evidence letter is read as the evidence automaton
    /// reads it.
    pub fn to_hypothesis_arta(&self, mgr: &std::sync::Arc<DagStateFormulaManager>) -> (r: Result<
        Arta<A>,
        HypothesisArtaError<A>,
    >)
        ensures
            r matches Ok(h) ==> {
                &&& forall|n: Seq<char>|
                    #![trigger h@.locations.contains(n)]
                    h@.locations.contains(n) <==> exists|i: nat| i < self.rows().len() && n == #[trigger] state_location_name(i)
                &&& forall|n: Seq<char>|
                    #![trigger h@.accepting.contains(n)]
                    h@.accepting.contains(n) <==> exists|i: nat|
                        i < self.rows().len() && self.accepting_states()[i as int] && n == #[trigger] state_location_name(i)
                &&& same_meaning(h@.init, self.init_model())
                &&& forall|i: int, m: int|
                    0 <= i < self.rows().len() && 0 <= m < self.letters().len() ==> same_meaning(
                        #[trigger] h@.target(state_location_name(i as nat), self.letters()[m].0.key(), self.letters()[m].1@),
                        #[trigger] self.delta(i, m),
                    )
            },
            r is Err ==> !(r->Err_0 is MissingDelta),
            r matches Err(HypothesisArtaError::GuardInferenceFailed { .. }) ==> has_infinite_letter(*self),
            self.vars_in_range() && !has_infinite_letter(*self) ==> r is Ok,
            self.vars_in_range() ==> !(r matches Err(HypothesisArtaError::ArtaBuildFailed { .. })),
    {
        proof {
            use_type_invariant(self);
            lemma_shaped_lengths(*self);
        }
        let init = convert_basis_formula_to_dag_state_formula(self.init(), mgr);
        let ghost init_view = init@;
        proof {
            assert(forall|x: Seq<char>| #[trigger] occurs(init_view, x) ==> names_basis_var(self.init_model(), x));
        }
        let mut builder: ArtaBuilder<A> = ArtaBuilder::new(init);
        let n = self.num_states();
        let mut i: usize = 0;
        while i < n
            invariant
                n == self.rows().len(),
                self.accepting_states().len() == n,
                i <= n,
                builder@.init == init_view,
                builder@.pending.len() == 0,
                forall|nm: Seq<char>|
                    #![trigger builder@.locations.contains(nm)]
                    builder@.locations.contains(nm) <==> exists|j: nat| j < i && nm == #[trigger] state_location_name(j),
                forall|nm: Seq<char>|
                    #![trigger builder@.accepting.contains(nm)]
                    builder@.accepting.contains(nm) <==> exists|j: nat|
                        j < i && self.accepting_states()[j as int] && nm == #[trigger] state_location_name(j),
            decreases n - i,
        {
            let ghost prev = builder@;
            let loc = evidence_state_to_location_id(AfaStateId(i));
            let ghost q = loc@;
            builder.add_location(loc);
            proof {
                assert(q == state_location_name(i as nat));
                assert forall|nm: Seq<char>| #![trigger builder@.locations.contains(nm)]
                    builder@.locations.contains(nm) <==> (prev.locations.contains(nm) || nm == q) by {}
            }
            let ghost mid = builder@;
            let acc = self.is_accepting(AfaStateId(i));
            if acc {
                let loc2 = evidence_state_to_location_id(AfaStateId(i));
                builder.add_accepting(loc2);
                proof {
                    assert forall|nm: Seq<char>| #![trigger builder@.accepting.contains(nm)]
                        builder@.accepting.contains(nm) <==> (mid.accepting.contains(nm) || nm == q) by {}
                    assert(builder@.locations == mid.locations);
                }
            }
            proof {
                assert forall|nm: Seq<char>| #![trigger builder@.locations.contains(nm)]
                    builder@.locations.contains(nm) <==> exists|j: nat| j < i + 1 && nm == #[trigger] state_location_name(j) by {
                    if builder@.locations.contains(nm) && nm != q {
                        assert(prev.locations.contains(nm));
                    }
                    if exists|j: nat| j < i + 1 && nm == #[trigger] state_location_name(j) {
                        let j = choose|j: nat| j < i + 1 && nm == #[trigger] state_location_name(j);
                        if j < i {
                            assert(prev.locations.contains(nm));
                        }
                    }
                }
                assert forall|nm: Seq<char>| #![trigger builder@.accepting.contains(nm)]
                    builder@.accepting.contains(nm) <==> exists|j: nat|
                        j < i + 1 && self.accepting_states()[j as int] && nm == #[trigger] state_location_name(j) by {
                    if builder@.accepting.contains(nm) {
                        if !(acc && nm == q) {
                            assert(prev.accepting.contains(nm));
                        } else {
                            assert(self.accepting_states()[i as int] && nm == state_location_name(i as nat));
                        }
                    }
                    if exists|j: nat| j < i + 1 && self.accepting_states()[j as int] && nm == #[trigger] state_location_name(j) {
                        let j = choose|j: nat| j < i + 1 && self.accepting_states()[j as int] && nm == #[trigger] state_location_name(j);
                        if j < i {
                            assert(prev.accepting.contains(nm));
                        } else {
                            assert(acc);
                        }
                    }
                }
            }
            i = i + 1;
        }
        let (symbols, lists) = collect_symbol_delay_lists(self.alphabet());
        let ghost locs = builder@.locations;
        let ghost accs = builder@.accepting;
        proof {
            reveal(pendings_valid);
            reveal(states_before);
        }
        let mut i: usize = 0;
        while i < n
            invariant
                self.inv(),
                n == self.rows().len(),
                i <= n,
                lists_shaped(symbols@, lists@),
                lists_cover(self.letters(), self.letters().len() as int, symbols@, lists@),
                forall|s: int, k: int|
                    0 <= s < lists@.len() && 0 <= k < lists@[s]@.len() ==> contains_letter_key(
                        self.letters(),
                        (symbols@[s], #[trigger] lists@[s]@[k]),
                    ),
                builder@.init == init_view,
                builder@.locations == locs,
                builder@.accepting == accs,
                forall|j: int, m: int|
                    0 <= j < i && 0 <= m < self.letters().len() ==> #[trigger] covered_letter(builder@.pending, *self, j, m),
                forall|x: Seq<char>| #[trigger] occurs(init_view, x) ==> names_basis_var(self.init_model(), x),
                forall|nm: Seq<char>|
                    #![trigger locs.contains(nm)]
                    locs.contains(nm) <==> exists|j: nat| j < n && nm == #[trigger] state_location_name(j),
                forall|nm: Seq<char>|
                    #![trigger accs.contains(nm)]
                    accs.contains(nm) <==> exists|j: nat|
                        j < n && self.accepting_states()[j as int] && nm == #[trigger] state_location_name(j),
                self.vars_in_range() ==> pendings_valid(locs, builder@.pending),
                self.vars_in_range() ==> states_before(builder@.pending, i as int),
            decreases n - i,
        {
            let ghost before = builder@.pending;
            match add_state_transitions(self, &mut builder, i, &symbols, &lists, mgr) {
                Ok(()) => {},
                Err(e) => {
                    return Err(e);
                },
            }
            proof {
                assert forall|j: int, m: int|
                    0 <= j < i + 1 && 0 <= m < self.letters().len() implies #[trigger] covered_letter(
                        builder@.pending,
                        *self,
                        j,
                        m,
                    ) by {
                    if j < i {
                        assert(covered_letter(before, *self, j, m));
                        lemma_covered_prefix(before, builder@.pending, *self, j, m);
                    }
                }
                if self.vars_in_range() {
                    lemma_state_added(before, builder@.pending, locs, n as nat, i as int);
                }
            }
            i = i + 1;
        }
        let ghost model = builder@;
        let built = builder.build();
        proof {
            assert(build_result(built, model));
            if self.vars_in_range() {
                reveal(pendings_valid);
                assert forall|x: Seq<char>| #[trigger] occurs(model.init, x) implies model.locations.contains(x) by {
                    assert(names_basis_var(self.init_model(), x));
                    let v = choose|v: usize| #[trigger] bmentions(self.init_model(), v) && x == state_location_name(v as nat);
                    assert(v < n);
                    assert(model.locations.contains(state_location_name(v as nat)));
                }
                assert forall|k: int| 0 <= k < model.accepting.len() implies model.locations.contains(#[trigger] model.accepting[k]) by {
                    assert(model.accepting.contains(model.accepting[k]));
                    let j = choose|j: nat| j < n && self.accepting_states()[j as int] && model.accepting[k] == #[trigger] state_location_name(j);
                    assert(model.locations.contains(state_location_name(j)));
                }
                assert(build_ok(model));
            }
        }
        match built {
            Ok(h) => {
                proof {
                    use_type_invariant(&h);
                    assert forall|ii: int, m: int|
                        0 <= ii < self.rows().len() && 0 <= m < self.letters().len() implies same_meaning(
                            #[trigger] h@.target(state_location_name(ii as nat), self.letters()[m].0.key(), self.letters()[m].1@),
                            #[trigger] self.delta(ii, m),
                        ) by {
                        assert(covered_letter(model.pending, *self, ii, m));
                        let idx = choose|idx: int|
                            0 <= idx < model.pending.len() && #[trigger] transition_for(
                                model.pending[idx],
                                ii,
                                self.letters()[m].0.key(),
                                self.letters()[m].1@,
                                self.delta(ii, m),
                            );
                        lemma_built_target(h@, model, idx, self.letters()[m].1@);
                    }
                }
                Ok(h)
            },
            Err(source) => Err(HypothesisArtaError::ArtaBuildFailed { source }),
        }
    }
}

} // verus!
