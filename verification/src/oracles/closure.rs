//! Why the white-box search is complete: a delay behaves like the
//! representative of its guard-membership class, so the successors of the
//! explored states on the representatives cover every finite delay.

use vstd::prelude::*;

use super::partition::{covered, interval_half_range, partition_ok, range_holds, uniform_on, HalfUnitRange};
use super::whitebox::{edge_ranges, formula_guard_ranges, locations_guard_ranges, preference_halves};
use crate::arta::{bucket_edges, first_enabled, ArtaModel, BucketModel, EdgeModel};
use crate::state_formula::formula::{lemma_sat_occurs, occurs, sat, Formula};
use crate::state_formula::minimal_model::key_holds;
use crate::text::sorted_list;
use crate::time::delay::half_is_infinite;
use crate::time::interval::{max_finite, Endpoint, IntervalModel};

verus! {

/// Every location of `f` is in the sorted list of its locations.
pub open spec fn occurs_listed(f: Formula) -> bool {
    forall|n: Seq<char>| #[trigger] occurs(f, n) ==> sorted_list(Set::new(|n: Seq<char>| occurs(f, n))).contains(n)
}

/// A valid guard holding a representable delay has a half-unit range that
/// holds exactly its representable delays.
pub proof fn lemma_half_range(g: IntervalModel)
    requires
        g.wf(),
        g.has_witness(),
    ensures
        interval_half_range(g) is Some,
        forall|h: int| 0 <= h <= max_finite() ==> (g.has(h) <==> range_holds(interval_half_range(g)->Some_0, h)),
{
    let n = g.lower->Finite_0 as int;
    assert(2 * n <= max_finite());
    assert((2 * n) % 0x1_0000_0000 == 2 * n);
    assert(g.has(2 * n) == g.lower_inclusive);
    match g.upper {
        Endpoint::Finite(u) => {
            let ui = u as int;
            if 2 * ui < 0x1_0000_0000 {
                assert((2 * ui) % 0x1_0000_0000 == 2 * ui);
                if g.upper_inclusive {
                    assert(g.has(2 * ui));
                } else {
                    assert(ui > 0);
                    assert(!g.has(2 * ui));
                }
            }
        },
        Endpoint::Infinity => {},
    }
}

/// The range of a valid guard of edge `k` is among the edges' ranges.
proof fn lemma_edge_range_in(es: Seq<EdgeModel>, k: int)
    requires
        0 <= k < es.len(),
        es[k].0.wf(),
        es[k].0.has_witness(),
    ensures
        edge_ranges(es).contains(interval_half_range(es[k].0)->Some_0),
    decreases es.len(),
{
    lemma_half_range(es[k].0);
    let rest = edge_ranges(es.drop_last());
    if k == es.len() - 1 {
        assert(edge_ranges(es) == rest.push(interval_half_range(es.last().0)->Some_0));
        assert(edge_ranges(es)[rest.len() as int] == interval_half_range(es[k].0)->Some_0);
    } else {
        assert(es.drop_last()[k] == es[k]);
        lemma_edge_range_in(es.drop_last(), k);
        let i = choose|i: int| 0 <= i < rest.len() && rest[i] == interval_half_range(es[k].0)->Some_0;
        match interval_half_range(es.last().0) {
            Some(r) => {
                assert(edge_ranges(es) == rest.push(r));
                assert(edge_ranges(es)[i] == rest[i]);
            },
            None => {},
        }
    }
}

/// The ranges of the edges leaving a listed location are among the ranges
/// of all listed locations.
proof fn lemma_location_ranges_in(vars: Seq<Seq<char>>, bs: Seq<BucketModel>, a: Seq<char>, n: Seq<char>, r: HalfUnitRange)
    requires
        vars.contains(n),
        edge_ranges(bucket_edges(bs, n, a)).contains(r),
    ensures
        locations_guard_ranges(vars, bs, a).contains(r),
    decreases vars.len(),
{
    let pre = locations_guard_ranges(vars.drop_last(), bs, a);
    let last = edge_ranges(bucket_edges(bs, vars.last(), a));
    assert(locations_guard_ranges(vars, bs, a) == pre + last);
    if vars.last() == n {
        let i = choose|i: int| 0 <= i < last.len() && last[i] == r;
        assert((pre + last)[pre.len() + i] == r);
    } else {
        let j = choose|j: int| 0 <= j < vars.len() && vars[j] == n;
        assert(vars.drop_last()[j] == n);
        lemma_location_ranges_in(vars.drop_last(), bs, a, n, r);
        let i = choose|i: int| 0 <= i < pre.len() && pre[i] == r;
        assert((pre + last)[i] == r);
    }
}

/// Two delays on which every guard agrees enable the same target.
proof fn lemma_first_enabled_same(es: Seq<EdgeModel>, h1: int, h2: int)
    requires
        forall|k: int| 0 <= k < es.len() ==> (#[trigger] es[k].0.has(h1) == es[k].0.has(h2)),
    ensures
        first_enabled(es, h1) == first_enabled(es, h2),
    decreases es.len(),
{
    if es.len() > 0 {
        assert(es[0].0.has(h1) == es[0].0.has(h2));
        assert forall|k: int| 0 <= k < es.drop_first().len() implies (#[trigger] es.drop_first()[k].0.has(h1)
            == es.drop_first()[k].0.has(h2)) by {
            assert(es.drop_first()[k] == es[k + 1]);
        }
        lemma_first_enabled_same(es.drop_first(), h1, h2);
    }
}

/// The edges leaving a location are those of one of its buckets, or none.
proof fn lemma_edges_of_bucket(bs: Seq<BucketModel>, n: Seq<char>, a: Seq<char>)
    ensures
        bucket_edges(bs, n, a).len() == 0 || exists|i: int| 0 <= i < bs.len() && bucket_edges(bs, n, a) == #[trigger] bs[i].2,
    decreases bs.len(),
{
    if bs.len() > 0 && !(bs[0].0 == n && bs[0].1 == a) {
        lemma_edges_of_bucket(bs.drop_first(), n, a);
        if bucket_edges(bs, n, a).len() != 0 {
            let i = choose|i: int| 0 <= i < bs.drop_first().len() && bucket_edges(bs.drop_first(), n, a) == #[trigger] bs.drop_first()[i].2;
            assert(bs[i + 1] == bs.drop_first()[i]);
        }
    }
}

/// Two delays in one cell of a partition of the guard ranges leaving the
/// locations of `f` lead `f` to the same successor.
pub proof fn lemma_step_uniform(
    m: ArtaModel,
    f: Formula,
    a: Seq<char>,
    input: Seq<HalfUnitRange>,
    cells: Seq<HalfUnitRange>,
    c: int,
    h1: u32,
    h2: u32,
)
    requires
        m.wf(),
        occurs_listed(f),
        forall|r: HalfUnitRange| #[trigger] formula_guard_ranges(f, m.buckets, a).contains(r) ==> input.contains(r),
        partition_ok(input, cells),
        0 <= c < cells.len(),
        range_holds(cells[c], h1 as int),
        range_holds(cells[c], h2 as int),
        h1 <= max_finite(),
        h2 <= max_finite(),
    ensures
        forall|val: Set<Seq<char>>| #[trigger] sat(f, m.step_val(a, h1, val)) == sat(f, m.step_val(a, h2, val)),
{
    let vars = sorted_list(Set::new(|n: Seq<char>| occurs(f, n)));
    assert forall|n: Seq<char>| #[trigger] occurs(f, n) implies m.target(n, a, h1) == m.target(n, a, h2) by {
        let es = bucket_edges(m.buckets, n, a);
        assert(!half_is_infinite(h1) && !half_is_infinite(h2));
        lemma_edges_of_bucket(m.buckets, n, a);
        assert forall|k: int| 0 <= k < es.len() implies (#[trigger] es[k].0.has(h1 as int) == es[k].0.has(h2 as int)) by {
            let i = choose|i: int| 0 <= i < m.buckets.len() && es == #[trigger] m.buckets[i].2;
            assert(crate::arta::bucket_ok(m.locations, m.buckets[i]));
            assert(crate::arta::edge_ok(m.locations, es[k]));
            lemma_half_range(es[k].0);
            let r = interval_half_range(es[k].0)->Some_0;
            lemma_edge_range_in(es, k);
            assert(vars.contains(n));
            lemma_location_ranges_in(vars, m.buckets, a, n, r);
            assert(formula_guard_ranges(f, m.buckets, a).contains(r));
            assert(input.contains(r));
            let ri = choose|ri: int| 0 <= ri < input.len() && input[ri] == r;
            assert(uniform_on(cells[c], input[ri], h1 as int, h2 as int));
        }
        lemma_first_enabled_same(es, h1 as int, h2 as int);
    }
    assert forall|val: Set<Seq<char>>| #[trigger] sat(f, m.step_val(a, h1, val)) == sat(f, m.step_val(a, h2, val)) by {
        assert forall|n: Seq<char>| #[trigger] occurs(f, n) implies (m.step_val(a, h1, val).contains(n)
            == m.step_val(a, h2, val).contains(n)) by {
            assert(m.target(n, a, h1) == m.target(n, a, h2));
        }
        lemma_sat_occurs(f, m.step_val(a, h1, val), m.step_val(a, h2, val));
    }
}

/// The preferred count of a cell.
pub open spec fn cell_pref(c: HalfUnitRange) -> int {
    match c.end {
        Some(e) => e as int,
        None => c.start as int,
    }
}

/// Every cell within the finite counts has its preferred count among the
/// preference halves.
pub proof fn lemma_pref_listed(cells: Seq<HalfUnitRange>, c: int)
    requires
        0 <= c < cells.len(),
        forall|i: int| 0 <= i < cells.len() ==> (#[trigger] cells[i]).start <= max_finite() && match cells[i].end {
            Some(e) => e <= max_finite(),
            None => true,
        },
    ensures
        preference_halves(cells).contains(cell_pref(cells[c]) as u32),
    decreases cells.len(),
{
    let rest = cells.drop_last();
    let pr = preference_halves(rest);
    let h = cell_pref(cells.last());
    assert(cells.last() == cells[cells.len() - 1]);
    assert(h <= max_finite());
    assert(preference_halves(cells) == seq![h as u32] + pr);
    if c == cells.len() - 1 {
        assert(preference_halves(cells)[0] == h as u32);
    } else {
        assert(rest[c] == cells[c]);
        assert forall|i: int| 0 <= i < rest.len() implies (#[trigger] rest[i]).start <= max_finite() && match rest[i].end {
            Some(e) => e <= max_finite(),
            None => true,
        } by {
            assert(rest[i] == cells[i]);
        }
        lemma_pref_listed(rest, c);
        let k = choose|k: int| 0 <= k < pr.len() && pr[k] == cell_pref(cells[c]) as u32;
        assert(preference_halves(cells)[k + 1] == pr[k]);
    }
}

/// The state formulas `x` are what the pair `p` reaches in one step on
/// symbol `a` after `h` half units.
pub open spec fn step_equiv(tm: ArtaModel, hm: ArtaModel, p: (Formula, Formula), a: Seq<char>, h: u32, x: (Formula, Formula)) -> bool {
    &&& forall|val: Set<Seq<char>>| #[trigger] sat(x.0, val) == sat(p.0, tm.step_val(a, h, val))
    &&& forall|val: Set<Seq<char>>| #[trigger] sat(x.1, val) == sat(p.1, hm.step_val(a, h, val))
}

/// Some state of `ps`, whose word is at most `bound` letters long (the
/// lengths are `ls`), is the successor of `p` on `a` after `h` half units.
pub open spec fn has_successor(
    tm: ArtaModel,
    hm: ArtaModel,
    ps: Seq<(Formula, Formula)>,
    ls: Seq<int>,
    p: (Formula, Formula),
    a: Seq<char>,
    h: u32,
    bound: int,
) -> bool {
    exists|j: int| 0 <= j < ps.len() && #[trigger] step_equiv(tm, hm, p, a, h, ps[j]) && ls[j] <= bound
}

/// `ps2` and `ls2` extend `ps` and `ls`.
pub open spec fn extends(
    ps: Seq<(Formula, Formula)>,
    ls: Seq<int>,
    ps2: Seq<(Formula, Formula)>,
    ls2: Seq<int>,
) -> bool {
    &&& ps.len() <= ps2.len()
    &&& ls.len() <= ls2.len()
    &&& ps2.take(ps.len() as int) == ps
    &&& ls2.take(ls.len() as int) == ls
}

/// Successors found among some states are found among more.
pub proof fn lemma_has_successor_grow(
    tm: ArtaModel,
    hm: ArtaModel,
    ps: Seq<(Formula, Formula)>,
    ls: Seq<int>,
    ps2: Seq<(Formula, Formula)>,
    ls2: Seq<int>,
    p: (Formula, Formula),
    a: Seq<char>,
    h: u32,
    bound: int,
)
    requires
        has_successor(tm, hm, ps, ls, p, a, h, bound),
        extends(ps, ls, ps2, ls2),
        ps.len() <= ls.len(),
    ensures
        has_successor(tm, hm, ps2, ls2, p, a, h, bound),
{
    let j = choose|j: int| 0 <= j < ps.len() && #[trigger] step_equiv(tm, hm, p, a, h, ps[j]) && ls[j] <= bound;
    assert(ps2.take(ps.len() as int)[j] == ps2[j]);
    assert(ls2.take(ls.len() as int)[j] == ls2[j]);
    assert(step_equiv(tm, hm, p, a, h, ps2[j]));
}

/// When the representatives of all cells have successors, so does every
/// finite delay.
pub proof fn lemma_successor_from_reps(
    tm: ArtaModel,
    hm: ArtaModel,
    ps: Seq<(Formula, Formula)>,
    ls: Seq<int>,
    p: (Formula, Formula),
    a: Seq<char>,
    cells: Seq<HalfUnitRange>,
    reps: Seq<u32>,
    h: u32,
    bound: int,
)
    requires
        tm.wf(),
        hm.wf(),
        occurs_listed(p.0),
        occurs_listed(p.1),
        partition_ok(formula_guard_ranges(p.0, tm.buckets, a) + formula_guard_ranges(p.1, hm.buckets, a), cells),
        reps == preference_halves(cells),
        forall|k: int| 0 <= k < reps.len() ==> has_successor(tm, hm, ps, ls, p, a, #[trigger] reps[k], bound),
        !half_is_infinite(h),
    ensures
        has_successor(tm, hm, ps, ls, p, a, h, bound),
{
    let rt = formula_guard_ranges(p.0, tm.buckets, a);
    let rh = formula_guard_ranges(p.1, hm.buckets, a);
    let input = rt + rh;
    assert(h <= max_finite());
    assert(covered(cells, h as int));
    let c = choose|c: int| 0 <= c < cells.len() && range_holds(#[trigger] cells[c], h as int);
    lemma_pref_listed(cells, c);
    let r = cell_pref(cells[c]) as u32;
    assert(range_holds(cells[c], r as int));
    let k = choose|k: int| 0 <= k < reps.len() && reps[k] == r;
    assert(has_successor(tm, hm, ps, ls, p, a, reps[k], bound));
    assert forall|x: HalfUnitRange| #[trigger] rt.contains(x) implies input.contains(x) by {
        let i = choose|i: int| 0 <= i < rt.len() && rt[i] == x;
        assert(input[i] == x);
    }
    assert forall|x: HalfUnitRange| #[trigger] rh.contains(x) implies input.contains(x) by {
        let i = choose|i: int| 0 <= i < rh.len() && rh[i] == x;
        assert(input[rt.len() + i] == x);
    }
    lemma_step_uniform(tm, p.0, a, input, cells, c, h, r);
    lemma_step_uniform(hm, p.1, a, input, cells, c, h, r);
    let j = choose|j: int| 0 <= j < ps.len() && #[trigger] step_equiv(tm, hm, p, a, r, ps[j]) && ls[j] <= bound;
    assert(step_equiv(tm, hm, p, a, h, ps[j]));
}

/// The first `s` symbols of `alpha` have, for every finite delay, a
/// successor of `p` among `ps` with a word of at most `bound` letters.
#[verifier::opaque]
pub open spec fn symbols_done(
    tm: ArtaModel,
    hm: ArtaModel,
    ps: Seq<(Formula, Formula)>,
    ls: Seq<int>,
    p: (Formula, Formula),
    alpha: Seq<Seq<char>>,
    s: int,
    bound: int,
) -> bool {
    forall|t: int, h: u32| 0 <= t < s && !half_is_infinite(h) ==> #[trigger] has_successor(tm, hm, ps, ls, p, alpha[t], h, bound)
}

/// The first `r` delays of `reps` have a successor of `p` on `a` among `ps`
/// with a word of at most `bound` letters.
#[verifier::opaque]
pub open spec fn reps_done(
    tm: ArtaModel,
    hm: ArtaModel,
    ps: Seq<(Formula, Formula)>,
    ls: Seq<int>,
    p: (Formula, Formula),
    a: Seq<char>,
    reps: Seq<u32>,
    r: int,
    bound: int,
) -> bool {
    forall|k: int| 0 <= k < r ==> #[trigger] has_successor(tm, hm, ps, ls, p, a, reps[k], bound)
}

/// No symbol is done yet, and no representative.
pub proof fn lemma_nothing_done(
    tm: ArtaModel,
    hm: ArtaModel,
    ps: Seq<(Formula, Formula)>,
    ls: Seq<int>,
    p: (Formula, Formula),
    alpha: Seq<Seq<char>>,
    a: Seq<char>,
    reps: Seq<u32>,
    bound: int,
)
    ensures
        symbols_done(tm, hm, ps, ls, p, alpha, 0, bound),
        reps_done(tm, hm, ps, ls, p, a, reps, 0, bound),
{
    reveal(symbols_done);
    reveal(reps_done);
}

/// What is done stays done among more states.
pub proof fn lemma_done_grow(
    tm: ArtaModel,
    hm: ArtaModel,
    ps: Seq<(Formula, Formula)>,
    ls: Seq<int>,
    ps2: Seq<(Formula, Formula)>,
    ls2: Seq<int>,
    p: (Formula, Formula),
    alpha: Seq<Seq<char>>,
    s: int,
    a: Seq<char>,
    reps: Seq<u32>,
    r: int,
    bound: int,
)
    requires
        symbols_done(tm, hm, ps, ls, p, alpha, s, bound),
        reps_done(tm, hm, ps, ls, p, a, reps, r, bound),
        extends(ps, ls, ps2, ls2),
        ps.len() <= ls.len(),
    ensures
        symbols_done(tm, hm, ps2, ls2, p, alpha, s, bound),
        reps_done(tm, hm, ps2, ls2, p, a, reps, r, bound),
{
    reveal(symbols_done);
    reveal(reps_done);
    assert forall|t: int, h: u32| 0 <= t < s && !half_is_infinite(h) implies #[trigger] has_successor(
        tm,
        hm,
        ps2,
        ls2,
        p,
        alpha[t],
        h,
        bound,
    ) by {
        lemma_has_successor_grow(tm, hm, ps, ls, ps2, ls2, p, alpha[t], h, bound);
    }
    assert forall|k: int| 0 <= k < r implies #[trigger] has_successor(tm, hm, ps2, ls2, p, a, reps[k], bound) by {
        lemma_has_successor_grow(tm, hm, ps, ls, ps2, ls2, p, a, reps[k], bound);
    }
}

/// One more representative done.
pub proof fn lemma_rep_done(
    tm: ArtaModel,
    hm: ArtaModel,
    ps: Seq<(Formula, Formula)>,
    ls: Seq<int>,
    p: (Formula, Formula),
    a: Seq<char>,
    reps: Seq<u32>,
    r: int,
    bound: int,
)
    requires
        reps_done(tm, hm, ps, ls, p, a, reps, r, bound),
        has_successor(tm, hm, ps, ls, p, a, reps[r], bound),
    ensures
        reps_done(tm, hm, ps, ls, p, a, reps, r + 1, bound),
{
    reveal(reps_done);
}

/// Once every representative of the symbol `alpha[s]` is done, so is the
/// symbol.
pub proof fn lemma_symbol_done(
    tm: ArtaModel,
    hm: ArtaModel,
    ps: Seq<(Formula, Formula)>,
    ls: Seq<int>,
    p: (Formula, Formula),
    alpha: Seq<Seq<char>>,
    s: int,
    cells: Seq<HalfUnitRange>,
    reps: Seq<u32>,
    bound: int,
)
    requires
        tm.wf(),
        hm.wf(),
        0 <= s < alpha.len(),
        occurs_listed(p.0),
        occurs_listed(p.1),
        partition_ok(formula_guard_ranges(p.0, tm.buckets, alpha[s]) + formula_guard_ranges(p.1, hm.buckets, alpha[s]), cells),
        reps == preference_halves(cells),
        symbols_done(tm, hm, ps, ls, p, alpha, s, bound),
        reps_done(tm, hm, ps, ls, p, alpha[s], reps, reps.len() as int, bound),
    ensures
        symbols_done(tm, hm, ps, ls, p, alpha, s + 1, bound),
{
    reveal(symbols_done);
    reveal(reps_done);
    assert forall|t: int, h: u32| 0 <= t < s + 1 && !half_is_infinite(h) implies #[trigger] has_successor(
        tm,
        hm,
        ps,
        ls,
        p,
        alpha[t],
        h,
        bound,
    ) by {
        if t == s {
            lemma_successor_from_reps(tm, hm, ps, ls, p, alpha[s], cells, reps, h, bound);
        }
    }
}

/// Every letter of `w` has a symbol of `alpha` and a finite delay.
pub open spec fn word_over(alpha: Seq<Seq<char>>, w: Seq<(Seq<char>, u32)>) -> bool {
    forall|i: int| 0 <= i < w.len() ==> alpha.contains(#[trigger] w[i].0) && !half_is_infinite(w[i].1)
}

/// The two automata accept the same words over `alpha` with finite delays.
pub open spec fn agree_on(tm: ArtaModel, hm: ArtaModel, alpha: Seq<Seq<char>>) -> bool {
    forall|w: Seq<(Seq<char>, u32)>| word_over(alpha, w) ==> #[trigger] tm.accepts(w) == hm.accepts(w)
}

/// The two automata accept the same words over `alpha` with finite delays
/// that are shorter than `n` letters.
pub open spec fn agree_below(tm: ArtaModel, hm: ArtaModel, alpha: Seq<Seq<char>>, n: int) -> bool {
    forall|w: Seq<(Seq<char>, u32)>| word_over(alpha, w) && w.len() < n ==> #[trigger] tm.accepts(w) == hm.accepts(w)
}

/// The search has met the states `ps`, recorded by the keys `v` and reached
/// on words of lengths `ls` (in nondecreasing order, the first the empty
/// word): both automata accept alike in each, the first is the initial
/// pair, and each of the first `done` states has all its successors on the
/// alphabet with finite delays among them, reached on a word at most one
/// letter longer.
#[verifier::opaque]
pub open spec fn explored(
    v: Seq<(Seq<Seq<Seq<char>>>, Seq<Seq<Seq<char>>>)>,
    ps: Seq<(Formula, Formula)>,
    ls: Seq<int>,
    done: int,
    tm: ArtaModel,
    hm: ArtaModel,
    alpha: Seq<Seq<char>>,
) -> bool {
    &&& v.len() == ps.len()
    &&& ls.len() == ps.len()
    &&& 0 < ps.len()
    &&& 0 <= done <= ps.len()
    &&& ls[0] == 0
    &&& forall|i: int, j: int| 0 <= i < j < ls.len() ==> #[trigger] ls[i] <= #[trigger] ls[j]
    &&& forall|i: int, val: Set<Seq<char>>| 0 <= i < ps.len() ==> #[trigger] key_holds(v[i].0, val) == sat(ps[i].0, val)
    &&& forall|i: int, val: Set<Seq<char>>| 0 <= i < ps.len() ==> #[trigger] key_holds(v[i].1, val) == sat(ps[i].1, val)
    &&& forall|i: int| 0 <= i < ps.len() ==> sat((#[trigger] ps[i]).0, tm.accepting_set()) == sat(ps[i].1, hm.accepting_set())
    &&& forall|i: int, s: int, h: u32|
        0 <= i < done && 0 <= s < alpha.len() && !half_is_infinite(h) ==> #[trigger] has_successor(
            tm,
            hm,
            ps,
            ls,
            ps[i],
            alpha[s],
            h,
            ls[i] + 1,
        )
    &&& forall|val: Set<Seq<char>>| #[trigger] sat(ps[0].0, val) == sat(tm.init, val)
    &&& forall|val: Set<Seq<char>>| #[trigger] sat(ps[0].1, val) == sat(hm.init, val)
}

/// The search starts with the initial pair, where both automata agree.
pub proof fn lemma_explored_init(
    v: Seq<(Seq<Seq<Seq<char>>>, Seq<Seq<Seq<char>>>)>,
    ps: Seq<(Formula, Formula)>,
    ls: Seq<int>,
    tm: ArtaModel,
    hm: ArtaModel,
    alpha: Seq<Seq<char>>,
)
    requires
        v.len() == 1,
        ps.len() == 1,
        ls == seq![0int],
        ps[0] == (tm.init, hm.init),
        forall|val: Set<Seq<char>>| #[trigger] key_holds(v[0].0, val) == sat(tm.init, val),
        forall|val: Set<Seq<char>>| #[trigger] key_holds(v[0].1, val) == sat(hm.init, val),
        sat(tm.init, tm.accepting_set()) == sat(hm.init, hm.accepting_set()),
    ensures
        explored(v, ps, ls, 0, tm, hm, alpha),
{
    reveal(explored);
}

/// The facts of an exploration that the search loops use directly.
pub proof fn lemma_explored_facts(
    v: Seq<(Seq<Seq<Seq<char>>>, Seq<Seq<Seq<char>>>)>,
    ps: Seq<(Formula, Formula)>,
    ls: Seq<int>,
    done: int,
    tm: ArtaModel,
    hm: ArtaModel,
    alpha: Seq<Seq<char>>,
)
    requires
        explored(v, ps, ls, done, tm, hm, alpha),
    ensures
        v.len() == ps.len(),
        ls.len() == ps.len(),
        0 <= done <= ps.len(),
        forall|i: int, j: int| 0 <= i < j < ls.len() ==> #[trigger] ls[i] <= #[trigger] ls[j],
{
    reveal(explored);
}

/// Recording a new state, reached on a word no shorter than any recorded
/// one, where both automata agree, keeps the exploration facts.
pub proof fn lemma_explored_push(
    v: Seq<(Seq<Seq<Seq<char>>>, Seq<Seq<Seq<char>>>)>,
    ps: Seq<(Formula, Formula)>,
    ls: Seq<int>,
    done: int,
    tm: ArtaModel,
    hm: ArtaModel,
    alpha: Seq<Seq<char>>,
    e: (Seq<Seq<Seq<char>>>, Seq<Seq<Seq<char>>>),
    x: (Formula, Formula),
    lx: int,
)
    requires
        explored(v, ps, ls, done, tm, hm, alpha),
        forall|val: Set<Seq<char>>| #[trigger] key_holds(e.0, val) == sat(x.0, val),
        forall|val: Set<Seq<char>>| #[trigger] key_holds(e.1, val) == sat(x.1, val),
        sat(x.0, tm.accepting_set()) == sat(x.1, hm.accepting_set()),
        forall|j: int| 0 <= j < ls.len() ==> #[trigger] ls[j] <= lx,
    ensures
        explored(v.push(e), ps.push(x), ls.push(lx), done, tm, hm, alpha),
        extends(ps, ls, ps.push(x), ls.push(lx)),
{
    reveal(explored);
    let v2 = v.push(e);
    let ps2 = ps.push(x);
    let ls2 = ls.push(lx);
    assert(ps2.take(ps.len() as int) =~= ps);
    assert(ls2.take(ls.len() as int) =~= ls);
    assert forall|i: int, j: int| 0 <= i < j < ls2.len() implies #[trigger] ls2[i] <= #[trigger] ls2[j] by {
        assert(ls2[i] == ls[i]);
        if j < ls.len() {
            assert(ls2[j] == ls[j]);
        }
    }
    assert forall|i: int, val: Set<Seq<char>>| 0 <= i < ps2.len() implies #[trigger] key_holds(v2[i].0, val) == sat(ps2[i].0, val) by {
        if i < ps.len() {
            assert(v2[i] == v[i] && ps2[i] == ps[i]);
        }
    }
    assert forall|i: int, val: Set<Seq<char>>| 0 <= i < ps2.len() implies #[trigger] key_holds(v2[i].1, val) == sat(ps2[i].1, val) by {
        if i < ps.len() {
            assert(v2[i] == v[i] && ps2[i] == ps[i]);
        }
    }
    assert forall|i: int| 0 <= i < ps2.len() implies sat((#[trigger] ps2[i]).0, tm.accepting_set()) == sat(ps2[i].1, hm.accepting_set()) by {
        if i < ps.len() {
            assert(ps2[i] == ps[i]);
        }
    }
    assert forall|i: int, s: int, h: u32|
        0 <= i < done && 0 <= s < alpha.len() && !half_is_infinite(h) implies #[trigger] has_successor(
        tm,
        hm,
        ps2,
        ls2,
        ps2[i],
        alpha[s],
        h,
        ls2[i] + 1,
    ) by {
        assert(ps2[i] == ps[i]);
        assert(ls2[i] == ls[i]);
        assert(has_successor(tm, hm, ps, ls, ps[i], alpha[s], h, ls[i] + 1));
        lemma_has_successor_grow(tm, hm, ps, ls, ps2, ls2, ps[i], alpha[s], h, ls[i] + 1);
    }
    assert(ps2[0] == ps[0]);
    assert(ls2[0] == ls[0]);
}

/// A successor equivalent to a recorded state is found among the states.
pub proof fn lemma_explored_seen(
    v: Seq<(Seq<Seq<Seq<char>>>, Seq<Seq<Seq<char>>>)>,
    ps: Seq<(Formula, Formula)>,
    ls: Seq<int>,
    done: int,
    tm: ArtaModel,
    hm: ArtaModel,
    alpha: Seq<Seq<char>>,
    j: int,
    e: (Seq<Seq<Seq<char>>>, Seq<Seq<Seq<char>>>),
    p: (Formula, Formula),
    a: Seq<char>,
    h: u32,
    bound: int,
)
    requires
        explored(v, ps, ls, done, tm, hm, alpha),
        0 <= j < v.len(),
        ls[j] <= bound,
        forall|val: Set<Seq<char>>| #[trigger] key_holds(v[j].0, val) == key_holds(e.0, val),
        forall|val: Set<Seq<char>>| #[trigger] key_holds(v[j].1, val) == key_holds(e.1, val),
        forall|val: Set<Seq<char>>| #[trigger] key_holds(e.0, val) == sat(p.0, tm.step_val(a, h, val)),
        forall|val: Set<Seq<char>>| #[trigger] key_holds(e.1, val) == sat(p.1, hm.step_val(a, h, val)),
    ensures
        has_successor(tm, hm, ps, ls, p, a, h, bound),
{
    reveal(explored);
    assert forall|val: Set<Seq<char>>| #[trigger] sat(ps[j].0, val) == sat(p.0, tm.step_val(a, h, val)) by {
        assert(key_holds(v[j].0, val) == sat(ps[j].0, val));
        assert(key_holds(e.0, val) == sat(p.0, tm.step_val(a, h, val)));
    }
    assert forall|val: Set<Seq<char>>| #[trigger] sat(ps[j].1, val) == sat(p.1, hm.step_val(a, h, val)) by {
        assert(key_holds(v[j].1, val) == sat(ps[j].1, val));
        assert(key_holds(e.1, val) == sat(p.1, hm.step_val(a, h, val)));
    }
    assert(step_equiv(tm, hm, p, a, h, ps[j]));
}

/// A state whose symbols are all done counts as done.
pub proof fn lemma_state_done(
    v: Seq<(Seq<Seq<Seq<char>>>, Seq<Seq<Seq<char>>>)>,
    ps: Seq<(Formula, Formula)>,
    ls: Seq<int>,
    done: int,
    tm: ArtaModel,
    hm: ArtaModel,
    alpha: Seq<Seq<char>>,
)
    requires
        explored(v, ps, ls, done, tm, hm, alpha),
        0 <= done < ps.len(),
        symbols_done(tm, hm, ps, ls, ps[done], alpha, alpha.len() as int, ls[done] + 1),
    ensures
        explored(v, ps, ls, done + 1, tm, hm, alpha),
{
    reveal(symbols_done);
    reveal(explored);
}

/// A word over the alphabet with finite delays leads both automata to an
/// explored state reached on a word no longer, when every explored state
/// reached on a shorter word than it is done.
proof fn lemma_explored_reach(
    v: Seq<(Seq<Seq<Seq<char>>>, Seq<Seq<Seq<char>>>)>,
    ps: Seq<(Formula, Formula)>,
    ls: Seq<int>,
    done: int,
    tm: ArtaModel,
    hm: ArtaModel,
    alpha: Seq<Seq<char>>,
    w: Seq<(Seq<char>, u32)>,
) -> (j: int)
    requires
        explored(v, ps, ls, done, tm, hm, alpha),
        word_over(alpha, w),
        forall|i: int| 0 <= i < ps.len() && #[trigger] ls[i] < w.len() ==> i < done,
    ensures
        0 <= j < ps.len(),
        ls[j] <= w.len(),
        forall|val: Set<Seq<char>>| #[trigger] sat(ps[j].0, val) == sat(tm.init, tm.post(w, val)),
        forall|val: Set<Seq<char>>| #[trigger] sat(ps[j].1, val) == sat(hm.init, hm.post(w, val)),
    decreases w.len(),
{
    reveal(explored);
    if w.len() == 0 {
        0
    } else {
        let u = w.drop_last();
        let x = w.last();
        assert(w == u.push(x));
        assert forall|i: int| 0 <= i < u.len() implies alpha.contains(#[trigger] u[i].0) && !half_is_infinite(u[i].1) by {
            assert(u[i] == w[i]);
        }
        let ju = lemma_explored_reach(v, ps, ls, done, tm, hm, alpha, u);
        assert(alpha.contains(w[w.len() - 1].0) && !half_is_infinite(w[w.len() - 1].1));
        let s = choose|s: int| 0 <= s < alpha.len() && alpha[s] == x.0;
        assert(ls[ju] < w.len());
        assert(ju < done);
        assert(has_successor(tm, hm, ps, ls, ps[ju], alpha[s], x.1, ls[ju] + 1));
        let j = choose|j: int| 0 <= j < ps.len() && #[trigger] step_equiv(tm, hm, ps[ju], x.0, x.1, ps[j]) && ls[j] <= ls[ju] + 1;
        assert forall|val: Set<Seq<char>>| #[trigger] sat(ps[j].0, val) == sat(tm.init, tm.post(w, val)) by {
            crate::arta::execution::lemma_post_push(tm, u, x, val);
            assert(sat(ps[j].0, val) == sat(ps[ju].0, tm.step_val(x.0, x.1, val)));
            assert(sat(ps[ju].0, tm.step_val(x.0, x.1, val)) == sat(tm.init, tm.post(u, tm.step_val(x.0, x.1, val))));
        }
        assert forall|val: Set<Seq<char>>| #[trigger] sat(ps[j].1, val) == sat(hm.init, hm.post(w, val)) by {
            crate::arta::execution::lemma_post_push(hm, u, x, val);
            assert(sat(ps[j].1, val) == sat(ps[ju].1, hm.step_val(x.0, x.1, val)));
            assert(sat(ps[ju].1, hm.step_val(x.0, x.1, val)) == sat(hm.init, hm.post(u, hm.step_val(x.0, x.1, val))));
        }
        j
    }
}

/// Both automata agree on a word that leads to an explored state.
proof fn lemma_explored_word_agrees(
    v: Seq<(Seq<Seq<Seq<char>>>, Seq<Seq<Seq<char>>>)>,
    ps: Seq<(Formula, Formula)>,
    ls: Seq<int>,
    done: int,
    tm: ArtaModel,
    hm: ArtaModel,
    alpha: Seq<Seq<char>>,
    w: Seq<(Seq<char>, u32)>,
)
    requires
        explored(v, ps, ls, done, tm, hm, alpha),
        word_over(alpha, w),
        forall|i: int| 0 <= i < ps.len() && #[trigger] ls[i] < w.len() ==> i < done,
    ensures
        tm.accepts(w) == hm.accepts(w),
{
    let j = lemma_explored_reach(v, ps, ls, done, tm, hm, alpha, w);
    reveal(explored);
    assert(sat(ps[j].0, tm.accepting_set()) == sat(ps[j].1, hm.accepting_set()));
    assert(sat(ps[j].0, tm.accepting_set()) == sat(tm.init, tm.post(w, tm.accepting_set())));
    assert(sat(ps[j].1, hm.accepting_set()) == sat(hm.init, hm.post(w, hm.accepting_set())));
}

/// When every explored state has all its successors among the explored
/// states, the automata agree on every word over the alphabet.
pub proof fn lemma_explored_agree(
    v: Seq<(Seq<Seq<Seq<char>>>, Seq<Seq<Seq<char>>>)>,
    ps: Seq<(Formula, Formula)>,
    ls: Seq<int>,
    tm: ArtaModel,
    hm: ArtaModel,
    alpha: Seq<Seq<char>>,
)
    requires
        explored(v, ps, ls, ps.len() as int, tm, hm, alpha),
    ensures
        agree_on(tm, hm, alpha),
{
    assert forall|w: Seq<(Seq<char>, u32)>| word_over(alpha, w) implies #[trigger] tm.accepts(w) == hm.accepts(w) by {
        lemma_explored_word_agrees(v, ps, ls, ps.len() as int, tm, hm, alpha, w);
    }
}

/// While state `c` is being explored, every state before it being done,
/// the automata agree on every word over the alphabet no longer than the
/// word of state `c`.
pub proof fn lemma_explored_agree_below(
    v: Seq<(Seq<Seq<Seq<char>>>, Seq<Seq<Seq<char>>>)>,
    ps: Seq<(Formula, Formula)>,
    ls: Seq<int>,
    c: int,
    tm: ArtaModel,
    hm: ArtaModel,
    alpha: Seq<Seq<char>>,
)
    requires
        explored(v, ps, ls, c, tm, hm, alpha),
        0 <= c < ps.len(),
    ensures
        agree_below(tm, hm, alpha, ls[c] + 1),
{
    assert forall|w: Seq<(Seq<char>, u32)>| word_over(alpha, w) && w.len() < ls[c] + 1 implies #[trigger] tm.accepts(w)
        == hm.accepts(w) by {
        assert forall|i: int| 0 <= i < ps.len() && #[trigger] ls[i] < w.len() implies i < c by {
            reveal(explored);
            if i >= c {
                if i > c {
                    assert(ls[c] <= ls[i]);
                }
            }
        }
        lemma_explored_word_agrees(v, ps, ls, c, tm, hm, alpha, w);
    }
}

} // verus!
