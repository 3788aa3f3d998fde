//! Semantic simplification of automata.

use vstd::prelude::*;

use super::{
    bucket_model, buckets_model, copy_transitions, edge_model, edges_deterministic, edges_model,
    edges_sorted, first_enabled, lemma_bucket_edges_at, lemma_first_enabled_none,
    lemma_first_enabled_unique, lemma_no_bucket_no_edges, restrict, supported, Arta, ArtaModel,
    BucketModel, EdgeModel, GuardedTransition,
};
use crate::location::{names_of, LocationId};
use crate::state_formula::formula::{
    all_sat, any_sat, normal, occurs, occurs_any, sat, views_of, DagStateFormula, DagStateFormulaManager, Formula,
};
use crate::state_formula::minimal_model::{
    antichain, canonical_key, clause_holds, clause_subset, clauses_view, key_holds, MinimalModelKey,
};
use crate::symbol::Symbol;
use crate::time::delay::half_is_infinite;
use crate::time::interval::{max_finite, ranges_connected, IntervalModel};

verus! {

/// The formula of a clause: `⊤` for none, the variable for one, their
/// conjunction otherwise.
fn formula_from_clause(mgr: &DagStateFormulaManager, clause: &Vec<LocationId>) -> (r: DagStateFormula)
    ensures
        forall|val: Set<Seq<char>>| #![trigger sat(r@, val)] sat(r@, val) == clause_holds(names_of(clause@), val),
        normal(r@),
        forall|n: Seq<char>| occurs(r@, n) ==> names_of(clause@).contains(n),
{
    if clause.len() == 0 {
        DagStateFormula::top(mgr)
    } else if clause.len() == 1 {
        let r = DagStateFormula::var(mgr, clause[0].copy_id());
        proof {
            assert(names_of(clause@)[0] == clause@[0]@);
            assert forall|val: Set<Seq<char>>| sat(r@, val) == clause_holds(names_of(clause@), val) by {
                assert(names_of(clause@)[0] == clause@[0]@);
            }
        }
        r
    } else {
        let mut vars: Vec<DagStateFormula> = Vec::new();
        let mut i: usize = 0;
        while i < clause.len()
            invariant
                i <= clause@.len(),
                vars@.len() == i,
                forall|j: int| 0 <= j < i ==> #[trigger] vars@[j]@ == Formula::Var(clause@[j]@),
            decreases clause@.len() - i,
        {
            vars.push(DagStateFormula::var(mgr, clause[i].copy_id()));
            i = i + 1;
        }
        let ghost vv = views_of(vars@);
        let r = DagStateFormula::and(mgr, vars);
        proof {
            assert forall|n: Seq<char>| occurs(r@, n) implies names_of(clause@).contains(n) by {
                let j = choose|j: int| 0 <= j < vv.len() && occurs(#[trigger] vv[j], n);
                assert(vv[j] == Formula::Var(clause@[j]@));
                assert(names_of(clause@)[j] == clause@[j]@);
            }
            assert forall|val: Set<Seq<char>>| sat(r@, val) == clause_holds(names_of(clause@), val) by {
                assert(sat(r@, val) == all_sat(vv, val));
                if all_sat(vv, val) {
                    assert forall|j: int| 0 <= j < names_of(clause@).len() implies val.contains(
                        #[trigger] names_of(clause@)[j],
                    ) by {
                        assert(sat(vv[j], val));
                    }
                }
                if clause_holds(names_of(clause@), val) {
                    assert forall|j: int| 0 <= j < vv.len() implies sat(#[trigger] vv[j], val) by {
                        assert(val.contains(names_of(clause@)[j]));
                    }
                }
            }
        }
        r
    }
}

/// The formula of a semantic key: `⊥` for no clause, the clause's formula
/// for one, the disjunction of the clauses' formulas otherwise.
pub fn formula_from_key(mgr: &DagStateFormulaManager, key: &MinimalModelKey) -> (r: DagStateFormula)
    ensures
        forall|val: Set<Seq<char>>| #![trigger sat(r@, val)] sat(r@, val) == key_holds(key@, val),
        normal(r@),
        forall|n: Seq<char>| occurs(r@, n) ==> key_mentions(key@, n),
{
    let cs = key.clauses();
    if cs.len() == 0 {
        DagStateFormula::bot(mgr)
    } else if cs.len() == 1 {
        let r = formula_from_clause(mgr, &cs[0]);
        proof {
            assert(key@[0] == names_of(cs@[0]@));
            assert forall|val: Set<Seq<char>>| sat(r@, val) == key_holds(key@, val) by {
                assert(key@[0] == names_of(cs@[0]@));
            }
            assert forall|n: Seq<char>| occurs(r@, n) implies key_mentions(key@, n) by {
                assert(key@[0].contains(n));
            }
        }
        r
    } else {
        let mut fs: Vec<DagStateFormula> = Vec::new();
        let mut i: usize = 0;
        while i < cs.len()
            invariant
                i <= cs@.len(),
                fs@.len() == i,
                forall|j: int, val: Set<Seq<char>>|
                    0 <= j < i ==> #[trigger] sat(fs@[j]@, val) == clause_holds(names_of(cs@[j]@), val),
                forall|j: int| 0 <= j < i ==> normal(#[trigger] fs@[j]@),
                forall|j: int, n: Seq<char>| 0 <= j < i && #[trigger] occurs(fs@[j]@, n) ==> names_of(cs@[j]@).contains(n),
            decreases cs@.len() - i,
        {
            fs.push(formula_from_clause(mgr, &cs[i]));
            i = i + 1;
        }
        let ghost fv = views_of(fs@);
        let r = DagStateFormula::or(mgr, fs);
        proof {
            assert forall|n: Seq<char>| occurs(r@, n) implies key_mentions(key@, n) by {
                let j = choose|j: int| 0 <= j < fv.len() && occurs(#[trigger] fv[j], n);
                assert(key@[j] == names_of(cs@[j]@));
                assert(key@[j].contains(n));
            }
            assert forall|val: Set<Seq<char>>| sat(r@, val) == key_holds(key@, val) by {
                assert(sat(r@, val) == any_sat(fv, val));
                if any_sat(fv, val) {
                    let j = choose|j: int| 0 <= j < fv.len() && sat(#[trigger] fv[j], val);
                    assert(key@[j] == names_of(cs@[j]@));
                    assert(clause_holds(key@[j], val));
                }
                if key_holds(key@, val) {
                    let j = choose|j: int| 0 <= j < key@.len() && clause_holds(#[trigger] key@[j], val);
                    assert(key@[j] == names_of(cs@[j]@));
                    assert(sat(fv[j], val));
                }
            }
        }
        r
    }
}

/// Some clause of `key` names location `n`.
pub open spec fn key_mentions(key: Seq<Seq<Seq<char>>>, n: Seq<char>) -> bool {
    exists|i: int| 0 <= i < key.len() && (#[trigger] key[i]).contains(n)
}

/// Location `n` matters to `f`: making `n` true turns `f` from false to
/// true under some valuation.
pub open spec fn relevant(f: Formula, n: Seq<char>) -> bool {
    exists|val: Set<Seq<char>>| #[trigger] sat(f, val.insert(n)) && !sat(f, val.remove(n))
}

/// `f` is in normal form and names only locations that matter to it, as
/// the formula read off a semantic key is.
pub open spec fn reduced(f: Formula) -> bool {
    &&& normal(f)
    &&& forall|n: Seq<char>| occurs(f, n) ==> #[trigger] relevant(f, n)
}

/// A formula that holds exactly when a canonical key does, in normal form
/// and naming only locations of the key's clauses, is reduced.
proof fn lemma_key_formula_reduced(f: Formula, key: Seq<Seq<Seq<char>>>)
    requires
        canonical_key(key),
        forall|val: Set<Seq<char>>| #![trigger sat(f, val)] sat(f, val) == key_holds(key, val),
        normal(f),
        forall|n: Seq<char>| occurs(f, n) ==> key_mentions(key, n),
    ensures
        reduced(f),
{
    assert forall|n: Seq<char>| occurs(f, n) implies #[trigger] relevant(f, n) by {
        let i = choose|i: int| 0 <= i < key.len() && (#[trigger] key[i]).contains(n);
        let c = key[i];
        let val = Set::new(|x: Seq<char>| c.contains(x) && x != n);
        assert(val.insert(n) =~= Set::new(|x: Seq<char>| c.contains(x)));
        assert(val.remove(n) =~= val);
        assert(clause_holds(c, val.insert(n)));
        assert(sat(f, val.insert(n)));
        if key_holds(key, val) {
            let j = choose|j: int| 0 <= j < key.len() && clause_holds(#[trigger] key[j], val);
            if j == i {
                let t = choose|t: int| 0 <= t < c.len() && c[t] == n;
                assert(val.contains(c[t]));
            } else {
                assert(clause_subset(key[j], key[i])) by {
                    assert forall|t: int| 0 <= t < key[j].len() implies key[i].contains(#[trigger] key[j][t]) by {
                        assert(val.contains(key[j][t]));
                    }
                }
                assert(antichain(key));
            }
        }
        assert(!sat(f, val.remove(n)));
    }
}

/// Targets `a` and `b` hold under the same valuations.
pub open spec fn same_target(a: Formula, b: Formula) -> bool {
    forall|val: Set<Seq<char>>| #[trigger] sat(a, val) == sat(b, val)
}

/// No two edges of `es` have touching guards and targets that hold under the
/// same valuations: such edges are merged into one.
pub open spec fn edges_merged(es: Seq<EdgeModel>) -> bool {
    forall|j: int, k: int|
        0 <= j < es.len() && 0 <= k < es.len() && j != k ==> !(ranges_connected(#[trigger] es[j].0, #[trigger] es[k].0)
            && same_target(es[j].1, es[k].1))
}

/// Each guard of `es` ends before the next one starts.
pub open spec fn edges_ascending(es: Seq<EdgeModel>) -> bool {
    forall|j: int, k: int|
        0 <= j < k < es.len() ==> (#[trigger] es[j]).0.hi() is Some && es[j].0.hi()->Some_0 < (#[trigger] es[k]).0.lo()
}

/// In a sorted deterministic bucket an earlier guard ends before a later
/// one starts.
proof fn lemma_sorted_before(em: Seq<EdgeModel>, i: int, j: int)
    requires
        edges_sorted(em),
        edges_deterministic(em),
        0 <= i < j < em.len(),
        em[i].0.wf() && em[i].0.has_witness(),
        em[j].0.wf() && em[j].0.has_witness(),
    ensures
        em[i].0.hi() is Some,
        em[i].0.hi()->Some_0 < em[j].0.lo(),
{
    let h = em[j].0.lo();
    assert(super::guard_key_le(em[i].0, em[j].0));
    assert(em[j].0.has(h));
    if em[i].0.hi() is None || em[i].0.hi()->Some_0 >= h {
        assert(em[i].0.has(h));
        assert(!em[j].0.has(h));
    }
}

/// A kept guard ends before every edge not yet read starts.
proof fn lemma_kept_before(em: Seq<EdgeModel>, om: Seq<EdgeModel>, origin: Seq<int>, ii: int, j: int, k: int)
    requires
        edges_sorted(em),
        edges_deterministic(em),
        forall|t: int| 0 <= t < em.len() ==> (#[trigger] em[t]).0.wf() && em[t].0.has_witness(),
        origin.len() == ii,
        0 <= ii <= k < em.len(),
        0 <= j < om.len(),
        forall|j: int, h: int| 0 <= j < om.len() ==> (#[trigger] om[j].0.has(h) == covers(em, origin, ii, j, h)),
        om[j].0.wf() && om[j].0.has_witness(),
    ensures
        om[j].0.hi() is Some,
        om[j].0.hi()->Some_0 < em[k].0.lo(),
{
    let h = em[k].0.lo();
    let l = om[j].0.lo();
    assert(om[j].0.has(l));
    assert(covers(em, origin, ii, j, l));
    let t = choose|t: int| #![trigger origin[t]] 0 <= t < ii && origin[t] == j && em[t].0.has(l);
    lemma_sorted_before(em, t, k);
    if om[j].0.hi() is None || om[j].0.hi()->Some_0 >= h {
        assert(om[j].0.has(h));
        assert(covers(em, origin, ii, j, h));
        let t2 = choose|t2: int| #![trigger origin[t2]] 0 <= t2 < ii && origin[t2] == j && em[t2].0.has(h);
        lemma_sorted_before(em, t2, k);
    }
}

/// Guards with a gap between them do not touch.
proof fn lemma_gap_apart(a: IntervalModel, b: IntervalModel)
    requires
        a.has_witness(),
        a.hi() is Some,
        a.hi()->Some_0 + 1 < b.lo(),
    ensures
        !ranges_connected(a, b),
        !ranges_connected(b, a),
{
}

/// Touching does not depend on the order of guards that start apart.
proof fn lemma_connected_symmetric(a: IntervalModel, b: IntervalModel)
    requires
        a.lo() != b.lo(),
    ensures
        ranges_connected(a, b) == ranges_connected(b, a),
{
}

/// Guards that each end before the next starts are in guard order.
proof fn lemma_ascending_sorted(es: Seq<EdgeModel>)
    requires
        edges_ascending(es),
        forall|j: int| 0 <= j < es.len() ==> (#[trigger] es[j]).0.has_witness(),
    ensures
        edges_sorted(es),
{
    assert forall|j: int, k: int| 0 <= j < k < es.len() implies super::guard_key_le(#[trigger] es[j].0, #[trigger] es[k].0) by {
        assert(es[j].0.has_witness());
        assert(es[j].0.hi()->Some_0 < es[k].0.lo());
    }
}

/// A bucket that simplification leaves as it is: every target is
/// satisfiable and no touching guards have targets of the same meaning.
pub open spec fn bucket_simplified(es: Seq<EdgeModel>) -> bool {
    &&& forall|k: int| 0 <= k < es.len() ==> satisfiable(#[trigger] es[k].1)
    &&& edges_merged(es)
}

/// `es` has the guards of `fs`, in the same order, with targets of the same
/// meaning.
pub open spec fn same_edges(es: Seq<EdgeModel>, fs: Seq<EdgeModel>) -> bool {
    &&& es.len() == fs.len()
    &&& forall|k: int| 0 <= k < es.len() ==> (#[trigger] es[k]).0 == fs[k].0 && same_target(es[k].1, fs[k].1)
}

/// What simplification makes of an automaton: the initial formula and
/// every target reduced, no bucket empty, and every bucket left as it is by
/// another simplification.
pub open spec fn simplified(m: ArtaModel) -> bool {
    &&& reduced(m.init)
    &&& forall|b: int| 0 <= b < m.buckets.len() ==> (#[trigger] m.buckets[b]).2.len() > 0 && bucket_simplified(m.buckets[b].2)
    &&& forall|b: int, k: int|
        0 <= b < m.buckets.len() && 0 <= k < m.buckets[b].2.len() ==> reduced(#[trigger] m.buckets[b].2[k].1)
}

/// `n` has the locations, accepting locations, buckets and guards of `m`,
/// with an initial formula and targets of the same meaning.
pub open spec fn same_shape(n: ArtaModel, m: ArtaModel) -> bool {
    &&& n.locations == m.locations
    &&& n.accepting == m.accepting
    &&& same_target(n.init, m.init)
    &&& n.buckets.len() == m.buckets.len()
    &&& forall|b: int|
        0 <= b < n.buckets.len() ==> (#[trigger] n.buckets[b]).0 == m.buckets[b].0 && n.buckets[b].1 == m.buckets[b].1
            && same_edges(n.buckets[b].2, m.buckets[b].2)
}

/// Some valuation satisfies `f`.
pub open spec fn satisfiable(f: Formula) -> bool {
    exists|val: Set<Seq<char>>| #[trigger] sat(f, val)
}

/// Some kept edge with old index below `i` that went to new edge `j` is
/// enabled at `h`.
pub open spec fn covers(em: Seq<EdgeModel>, origin: Seq<int>, i: int, j: int, h: int) -> bool {
    exists|k: int| #![trigger origin[k]] 0 <= k < i && origin[k] == j && em[k].0.has(h)
}

/// Some old edge below `i` went to new edge `j`.
pub open spec fn has_origin(origin: Seq<int>, i: int, j: int) -> bool {
    exists|k: int| #![trigger origin[k]] 0 <= k < i && origin[k] == j
}

proof fn lemma_covers_push(em: Seq<EdgeModel>, origin: Seq<int>, i: int, x: int, j: int, h: int)
    requires
        origin.len() == i,
        0 <= i < em.len(),
    ensures
        covers(em, origin.push(x), i + 1, j, h) == (covers(em, origin, i, j, h) || (x == j && em[i].0.has(h))),
        has_origin(origin.push(x), i + 1, j) == (has_origin(origin, i, j) || x == j),
{
    let o = origin.push(x);
    if covers(em, o, i + 1, j, h) {
        let k = choose|k: int| #![trigger o[k]] 0 <= k < i + 1 && o[k] == j && em[k].0.has(h);
        if k < i {
            assert(origin[k] == o[k]);
        }
    }
    if covers(em, origin, i, j, h) {
        let k = choose|k: int| #![trigger origin[k]] 0 <= k < i && origin[k] == j && em[k].0.has(h);
        assert(o[k] == origin[k]);
    }
    if x == j && em[i].0.has(h) {
        assert(o[i] == x);
    }
    if has_origin(o, i + 1, j) {
        let k = choose|k: int| #![trigger o[k]] 0 <= k < i + 1 && o[k] == j;
        if k < i {
            assert(origin[k] == o[k]);
        }
    }
    if has_origin(origin, i, j) {
        let k = choose|k: int| #![trigger origin[k]] 0 <= k < i && origin[k] == j;
        assert(o[k] == origin[k]);
    }
    if x == j {
        assert(o[i] == x);
    }
}

/// The loop state of bucket simplification after `i` old edges.
pub open spec fn simp_state(
    em: Seq<EdgeModel>,
    om: Seq<EdgeModel>,
    keys: Seq<Seq<Seq<Seq<char>>>>,
    origin: Seq<int>,
    i: int,
    locs: Seq<Seq<char>>,
) -> bool {
    &&& om.len() == keys.len()
    &&& origin.len() == i
    &&& forall|j: int, val: Set<Seq<char>>|
        0 <= j < om.len() ==> #[trigger] sat(om[j].1, val) == key_holds(keys[j], val)
    &&& forall|j: int| 0 <= j < keys.len() ==> (#[trigger] keys[j]).len() > 0
    &&& forall|k: int| 0 <= k < i ==> -1 <= #[trigger] origin[k] < om.len()
    &&& forall|k: int, val: Set<Seq<char>>|
        0 <= k < i && origin[k] == -1 ==> !#[trigger] sat(em[k].1, val)
    &&& forall|k: int, val: Set<Seq<char>>|
        0 <= k < i && origin[k] >= 0 ==> #[trigger] sat(em[k].1, val) == key_holds(keys[origin[k]], val)
    &&& forall|j: int, h: int|
        0 <= j < om.len() ==> (#[trigger] om[j].0.has(h) == covers(em, origin, i, j, h))
    &&& forall|j: int| 0 <= j < om.len() ==> #[trigger] has_origin(origin, i, j)
    &&& forall|j: int| 0 <= j < om.len() ==> (#[trigger] om[j]).0.wf() && om[j].0.has_witness()
    &&& forall|j: int| 0 <= j < om.len() ==> supported(#[trigger] om[j].1, locs)
}

/// Simplify one transition bucket: targets become the formulas of their
/// semantic keys, edges with an unsatisfiable target leave, and an edge whose
/// target has the same key as the previous kept one and whose guard touches
/// it merges into it. The result is in guard order.
fn simplify_bucket(es: &Vec<GuardedTransition>, Ghost(locs): Ghost<Seq<Seq<char>>>) -> (r: Vec<GuardedTransition>)
    requires
        forall|k: int| 0 <= k < es@.len() ==> super::edge_ok(locs, #[trigger] edges_model(es@)[k]),
        edges_deterministic(edges_model(es@)),
        edges_sorted(edges_model(es@)),
    ensures
        edges_merged(edges_model(r@)),
        bucket_simplified(edges_model(es@)) ==> same_edges(edges_model(r@), edges_model(es@)),
        forall|k: int| 0 <= k < r@.len() ==> super::edge_ok(locs, #[trigger] edges_model(r@)[k]),
        edges_sorted(edges_model(r@)),
        edges_deterministic(edges_model(r@)),
        forall|k: int| 0 <= k < r@.len() ==> satisfiable(#[trigger] edges_model(r@)[k].1),
        forall|k: int| 0 <= k < r@.len() ==> reduced(#[trigger] edges_model(r@)[k].1),
        forall|h: int, val: Set<Seq<char>>|
            0 <= h <= max_finite() ==> #[trigger] sat(first_enabled(edges_model(r@), h), val) == sat(
                first_enabled(edges_model(es@), h),
                val,
            ),
{
    let ghost em = edges_model(es@);
    let mgr = DagStateFormulaManager {};
    let mut out: Vec<GuardedTransition> = Vec::new();
    let mut keys: Vec<MinimalModelKey> = Vec::new();
    let ghost mut origin: Seq<int> = Seq::empty();
    let mut i: usize = 0;
    proof {
        assert(edges_model(out@) =~= Seq::<EdgeModel>::empty());
    }
    while i < es.len()
        invariant
            em == edges_model(es@),
            forall|k: int| 0 <= k < es@.len() ==> super::edge_ok(locs, #[trigger] em[k]),
            i <= es@.len(),
            simp_state(em, edges_model(out@), keys@.map_values(|k: MinimalModelKey| k@), origin, i as int, locs),
            forall|j: int| 0 <= j < out@.len() ==> reduced(#[trigger] edges_model(out@)[j].1),
            edges_sorted(em),
            edges_deterministic(em),
            edges_merged(edges_model(out@)),
            edges_ascending(edges_model(out@)),
            bucket_simplified(em) ==> same_edges(edges_model(out@), em.take(i as int)),
        decreases es@.len() - i,
    {
        let ghost om = edges_model(out@);
        let ghost kv = keys@.map_values(|k: MinimalModelKey| k@);
        let ghost ii = i as int;
        let e = &es[i];
        assert(em[ii] == edge_model(*e));
        let key = e.target.semantic_key();
        if key.is_bot() {
            proof {
                assert forall|val: Set<Seq<char>>| !sat(em[ii].1, val) by {
                    assert(!key_holds(key@, val));
                }
                if bucket_simplified(em) {
                    assert(satisfiable(em[ii].1));
                }
                let no = origin.push(-1);
                assert forall|j: int, h: int| 0 <= j < om.len() implies (#[trigger] om[j].0.has(h) == covers(em, no, ii + 1, j, h)) by {
                    lemma_covers_push(em, origin, ii, -1, j, h);
                }
                assert forall|j: int| 0 <= j < om.len() implies #[trigger] has_origin(no, ii + 1, j) by {
                    lemma_covers_push(em, origin, ii, -1, j, 0);
                }
                origin = no;
            }
            i = i + 1;
            continue;
        }
        let target = formula_from_key(&mgr, &key);
        proof {
            lemma_key_formula_reduced(target@, key@);
        }
        let n = out.len();
        let mut merged_into_last = false;
        let ghost touching = n > 0 && ranges_connected(om[n - 1].0, em[ii].0);
        let equiv = n > 0 && keys[n - 1].equivalent_to(&key);
        if equiv {
            proof {
                assert(om[n - 1] == edge_model(out@[n - 1]));
                assert(om[n - 1].0.wf());
            }
            match out[n - 1].guard.try_merge_adjacent(&e.guard) {
                Some(merged) => {
                    let last = out.pop().unwrap();
                    let ghost lm = edge_model(last);
                    out.push(GuardedTransition { guard: merged, target: last.target });
                    proof {
                        let nm = edges_model(out@);
                        let j0 = (n - 1) as int;
                        if bucket_simplified(em) {
                            let tk = em.take(ii);
                            assert(om.len() == ii);
                            assert(tk[j0] == em[ii - 1]);
                            assert(om[j0].0 == em[ii - 1].0);
                            assert(same_target(om[j0].1, em[ii - 1].1));
                            assert forall|val: Set<Seq<char>>| #[trigger] sat(em[ii - 1].1, val) == sat(em[ii].1, val) by {
                                assert(sat(om[j0].1, val) == sat(em[ii - 1].1, val));
                                assert(sat(om[j0].1, val) == key_holds(kv[j0], val));
                                assert(kv[j0] == keys@[j0]@);
                                assert(key_holds(key@, val) == sat(em[ii].1, val));
                            }
                            assert(ranges_connected(em[ii - 1].0, em[ii].0));
                            assert(!(ranges_connected(em[ii - 1].0, em[ii].0) && same_target(em[ii - 1].1, em[ii].1)));
                        }
                        assert(lm == om[j0]);
                        assert(nm =~= om.update(j0, (merged@, lm.1)));
                        assert forall|j: int| 0 <= j < out@.len() implies reduced(#[trigger] edges_model(out@)[j].1) by {
                            assert(nm[j].1 == om[j].1);
                        }
                        let no = origin.push(j0);
                        assert forall|j: int, h: int| 0 <= j < nm.len() implies (#[trigger] nm[j].0.has(h) == covers(em, no, ii + 1, j, h)) by {
                            lemma_covers_push(em, origin, ii, j0, j, h);
                            if j == j0 {
                                assert(merged@.has(h) == (om[j0].0.has(h) || em[ii].0.has(h)));
                            } else {
                                assert(nm[j] == om[j]);
                            }
                        }
                        assert forall|j: int| 0 <= j < nm.len() implies #[trigger] has_origin(no, ii + 1, j) by {
                            lemma_covers_push(em, origin, ii, j0, j, 0);
                            assert(has_origin(origin, ii, j));
                        }
                        assert forall|val: Set<Seq<char>>| sat(em[ii].1, val) == key_holds(kv[j0], val) by {
                            assert(kv[j0] == keys@[j0]@);
                        }
                        assert(simp_state(em, nm, kv, no, ii + 1, locs)) by {
                            assert forall|j: int, val: Set<Seq<char>>| 0 <= j < nm.len() implies #[trigger] sat(nm[j].1, val) == key_holds(kv[j], val) by {
                                assert(sat(om[j].1, val) == key_holds(kv[j], val));
                            }
                            assert forall|k: int| 0 <= k < ii + 1 implies -1 <= #[trigger] no[k] < nm.len() by {
                                if k < ii {
                                    assert(no[k] == origin[k]);
                                }
                            }
                            assert forall|k: int, val: Set<Seq<char>>| 0 <= k < ii + 1 && no[k] == -1 implies !#[trigger] sat(em[k].1, val) by {
                                assert(no[k] == origin[k]);
                            }
                            assert forall|k: int, val: Set<Seq<char>>| 0 <= k < ii + 1 && no[k] >= 0 implies #[trigger] sat(em[k].1, val) == key_holds(kv[no[k]], val) by {
                                if k < ii {
                                    assert(no[k] == origin[k]);
                                }
                            }
                            assert forall|j: int| 0 <= j < nm.len() implies (#[trigger] nm[j]).0.wf() && nm[j].0.has_witness() by {
                                if j != j0 {
                                    assert(nm[j] == om[j]);
                                } else {
                                    assert(em[ii].0.has(em[ii].0.lo()));
                                    assert(merged@.has(em[ii].0.lo()));
                                }
                            }
                            assert forall|j: int| 0 <= j < nm.len() implies supported(#[trigger] nm[j].1, locs) by {
                                assert(nm[j].1 == om[j].1);
                            }
                        }
                        let ml = merged@.lo();
                        assert(nm[j0].0 == merged@);
                        assert(merged@.has(ml));
                        assert(em[ii].0.wf() && em[ii].0.has_witness());
                        lemma_kept_before(em, om, origin, ii, j0, ii);
                        assert(ml >= om[j0].0.lo());
                        assert forall|j: int| 0 <= j < j0 implies (#[trigger] om[j]).0.hi() is Some && om[j].0.hi()->Some_0 < ml by {
                            lemma_kept_before(em, om, origin, ii, j, ii);
                            assert(om[j].0.hi()->Some_0 < om[j0].0.lo());
                        }
                        assert(edges_ascending(nm)) by {
                            assert forall|j: int, k: int| 0 <= j < k < nm.len() implies (#[trigger] nm[j]).0.hi() is Some && nm[j].0.hi()->Some_0 < (#[trigger] nm[k]).0.lo() by {
                                if k == j0 {
                                    assert(om[j].0.hi()->Some_0 < ml);
                                } else {
                                    assert(nm[j] == om[j] && nm[k] == om[k]);
                                }
                            }
                        }
                        assert(edges_merged(nm)) by {
                            assert forall|j: int, k: int| 0 <= j < nm.len() && 0 <= k < nm.len() && j != k implies !(ranges_connected(#[trigger] nm[j].0, #[trigger] nm[k].0)
                                && same_target(nm[j].1, nm[k].1)) by {
                                if j == j0 || k == j0 {
                                    let o = if j == j0 { k } else { j };
                                    assert(nm[o] == om[o]);
                                    if same_target(om[o].1, lm.1) {
                                        assert(!ranges_connected(om[o].0, om[j0].0));
                                        assert(om[o].0.hi()->Some_0 < om[j0].0.lo());
                                        lemma_gap_apart(om[o].0, merged@);
                                    }
                                } else {
                                    assert(nm[j] == om[j] && nm[k] == om[k]);
                                }
                            }
                        }
                        origin = no;
                    }
                    merged_into_last = true;
                },
                None => {},
            }
        }
        if !merged_into_last {
            let ghost km = key@;
            out.push(GuardedTransition { guard: e.guard, target });
            keys.push(key);
            proof {
                let nm = edges_model(out@);
                let nk = keys@.map_values(|k: MinimalModelKey| k@);
                let j0 = n as int;
                assert(nm =~= om.push(nm[j0]));
                assert(nk =~= kv.push(km));
                assert forall|j: int| 0 <= j < out@.len() implies reduced(#[trigger] edges_model(out@)[j].1) by {
                    if j < j0 {
                        assert(nm[j] == om[j]);
                    }
                }
                let no = origin.push(j0);
                assert forall|j: int, h: int| 0 <= j < nm.len() implies (#[trigger] nm[j].0.has(h) == covers(em, no, ii + 1, j, h)) by {
                    lemma_covers_push(em, origin, ii, j0, j, h);
                    if j == j0 {
                        if covers(em, origin, ii, j, h) {
                            let k = choose|k: int| #![trigger origin[k]] 0 <= k < ii && origin[k] == j && em[k].0.has(h);
                        }
                    } else {
                        assert(nm[j] == om[j]);
                    }
                }
                assert forall|j: int| 0 <= j < nm.len() implies #[trigger] has_origin(no, ii + 1, j) by {
                    lemma_covers_push(em, origin, ii, j0, j, 0);
                    if j < j0 {
                        assert(has_origin(origin, ii, j));
                    }
                }
                assert(simp_state(em, nm, nk, no, ii + 1, locs)) by {
                    assert forall|j: int, val: Set<Seq<char>>| 0 <= j < nm.len() implies #[trigger] sat(nm[j].1, val) == key_holds(nk[j], val) by {
                        if j < j0 {
                            assert(nm[j] == om[j]);
                            assert(sat(om[j].1, val) == key_holds(kv[j], val));
                        }
                    }
                    assert forall|j: int| 0 <= j < nk.len() implies (#[trigger] nk[j]).len() > 0 by {
                        if j < j0 {
                            assert(nk[j] == kv[j]);
                        }
                    }
                    assert forall|k: int| 0 <= k < ii + 1 implies -1 <= #[trigger] no[k] < nm.len() by {
                        if k < ii {
                            assert(no[k] == origin[k]);
                        }
                    }
                    assert forall|k: int, val: Set<Seq<char>>| 0 <= k < ii + 1 && no[k] == -1 implies !#[trigger] sat(em[k].1, val) by {
                        assert(no[k] == origin[k]);
                    }
                    assert forall|k: int, val: Set<Seq<char>>| 0 <= k < ii + 1 && no[k] >= 0 implies #[trigger] sat(em[k].1, val) == key_holds(nk[no[k]], val) by {
                        if k < ii {
                            assert(no[k] == origin[k]);
                            assert(nk[origin[k]] == kv[origin[k]]);
                        }
                    }
                    assert forall|j: int| 0 <= j < nm.len() implies (#[trigger] nm[j]).0.wf() && nm[j].0.has_witness() by {
                        if j < j0 {
                            assert(nm[j] == om[j]);
                        }
                    }
                    assert forall|j: int| 0 <= j < nm.len() implies supported(#[trigger] nm[j].1, locs) by {
                        if j < j0 {
                            assert(nm[j] == om[j]);
                        } else {
                            assert forall|val: Set<Seq<char>>| sat(nm[j].1, val) == #[trigger] sat(nm[j].1, restrict(val, locs)) by {
                                assert(supported(em[ii].1, locs));
                                assert(sat(em[ii].1, val) == sat(em[ii].1, restrict(val, locs)));
                            }
                        }
                    }
                }
                assert(nm[j0].0 == em[ii].0);
                if bucket_simplified(em) {
                    let t0 = em.take(ii);
                    let t1 = em.take(ii + 1);
                    assert(om.len() == ii);
                    assert forall|k: int| 0 <= k < nm.len() implies (#[trigger] nm[k]).0 == t1[k].0 && same_target(nm[k].1, t1[k].1) by {
                        if k < j0 {
                            assert(nm[k] == om[k]);
                            assert(t0[k] == t1[k]);
                        } else {
                            assert(t1[k] == em[ii]);
                            assert forall|val: Set<Seq<char>>| #[trigger] sat(nm[k].1, val) == sat(t1[k].1, val) by {
                                assert(key_holds(km, val) == sat(em[ii].1, val));
                            }
                        }
                    }
                    assert(same_edges(nm, t1));
                }
                assert(em[ii].0.wf() && em[ii].0.has_witness());
                assert forall|j: int| 0 <= j < j0 implies (#[trigger] om[j]).0.hi() is Some && om[j].0.hi()->Some_0 < em[ii].0.lo() by {
                    lemma_kept_before(em, om, origin, ii, j, ii);
                }
                assert(edges_ascending(nm)) by {
                    assert forall|j: int, k: int| 0 <= j < k < nm.len() implies (#[trigger] nm[j]).0.hi() is Some && nm[j].0.hi()->Some_0 < (#[trigger] nm[k]).0.lo() by {
                        assert(nm[j] == om[j]);
                        if k < j0 {
                            assert(nm[k] == om[k]);
                        }
                    }
                }
                if j0 > 0 {
                    lemma_kept_before(em, om, origin, ii, j0 - 1, ii);
                    assert(om[j0 - 1].0.lo() <= om[j0 - 1].0.hi()->Some_0);
                    assert(om[j0 - 1] == edge_model(out@[j0 - 1]));
                    assert(!(equiv && touching));
                    if equiv {
                        assert(!ranges_connected(om[j0 - 1].0, em[ii].0));
                        lemma_connected_symmetric(om[j0 - 1].0, em[ii].0);
                    } else {
                        assert(kv[j0 - 1] == keys@[j0 - 1]@);
                        assert(!same_target(om[j0 - 1].1, nm[j0].1)) by {
                            let val = choose|val: Set<Seq<char>>| key_holds(kv[j0 - 1], val) != key_holds(km, val);
                            assert(sat(om[j0 - 1].1, val) == key_holds(kv[j0 - 1], val));
                            assert(sat(nm[j0].1, val) == key_holds(km, val));
                        }
                    }
                }
                assert(edges_merged(nm)) by {
                    assert forall|j: int, k: int| 0 <= j < nm.len() && 0 <= k < nm.len() && j != k implies !(ranges_connected(#[trigger] nm[j].0, #[trigger] nm[k].0)
                        && same_target(nm[j].1, nm[k].1)) by {
                        if j == j0 || k == j0 {
                            let o = if j == j0 { k } else { j };
                            assert(nm[o] == om[o]);
                            if o < j0 - 1 {
                                lemma_kept_before(em, om, origin, ii, j0 - 1, ii);
                                assert(om[o].0.hi()->Some_0 < om[j0 - 1].0.lo());
                                assert(om[j0 - 1].0.lo() <= om[j0 - 1].0.hi()->Some_0);
                                lemma_gap_apart(om[o].0, em[ii].0);
                            } else if same_target(om[o].1, nm[j0].1) {
                                assert(same_target(om[j0 - 1].1, nm[j0].1));
                            }
                        } else {
                            assert(nm[j] == om[j] && nm[k] == om[k]);
                        }
                    }
                }
                origin = no;
            }
        }
        i = i + 1;
    }
    let ghost om = edges_model(out@);
    let ghost kv = keys@.map_values(|k: MinimalModelKey| k@);
    proof {
        lemma_simplified_disjoint(em, om, origin, i as int);
    }
    proof {
        lemma_ascending_sorted(om);
        lemma_simplified_result(em, om, kv, origin, i as int, locs, om);
    }
    out
}

/// The simplified edges are pairwise disjoint and distinct.
proof fn lemma_simplified_disjoint(em: Seq<EdgeModel>, om: Seq<EdgeModel>, origin: Seq<int>, i: int)
    requires
        i == em.len(),
        edges_deterministic(em),
        origin.len() == i,
        forall|j: int, h: int| 0 <= j < om.len() ==> (#[trigger] om[j].0.has(h) == covers(em, origin, i, j, h)),
        forall|j: int| 0 <= j < om.len() ==> (#[trigger] om[j]).0.wf() && om[j].0.has_witness(),
    ensures
        forall|a: int, b: int, h: int|
            0 <= a < om.len() && 0 <= b < om.len() && a != b && 0 <= h <= max_finite() && #[trigger] om[a].0.has(h)
                ==> !#[trigger] om[b].0.has(h),
        super::builder::edges_distinct(om),
{
    assert forall|a: int, b: int, h: int|
        0 <= a < om.len() && 0 <= b < om.len() && a != b && 0 <= h <= max_finite() && #[trigger] om[a].0.has(h) implies !#[trigger] om[b].0.has(h) by {
        if om[b].0.has(h) {
            assert(covers(em, origin, i, a, h));
            assert(covers(em, origin, i, b, h));
            let ka = choose|k: int| #![trigger origin[k]] 0 <= k < i && origin[k] == a && em[k].0.has(h);
            let kb = choose|k: int| #![trigger origin[k]] 0 <= k < i && origin[k] == b && em[k].0.has(h);
            assert(em[ka] == em[ka]);
            assert(em[kb] == em[kb]);
        }
    }
    assert forall|a: int, b: int| 0 <= a < om.len() && 0 <= b < om.len() && a != b implies #[trigger] om[a] != #[trigger] om[b] by {
        if om[a] == om[b] {
            let h = om[a].0.lo();
            assert(om[a].0.has(h));
            assert(om[b].0.has(h));
        }
    }
}

/// The sorted simplified edges keep validity, determinism, satisfiable
/// targets and the meaning of every enabled step.
proof fn lemma_simplified_result(
    em: Seq<EdgeModel>,
    om: Seq<EdgeModel>,
    kv: Seq<Seq<Seq<Seq<char>>>>,
    origin: Seq<int>,
    i: int,
    locs: Seq<Seq<char>>,
    rm: Seq<EdgeModel>,
)
    requires
        i == em.len(),
        edges_deterministic(em),
        simp_state(em, om, kv, origin, i, locs),
        forall|a: int, b: int, h: int|
            0 <= a < om.len() && 0 <= b < om.len() && a != b && 0 <= h <= max_finite() && #[trigger] om[a].0.has(h)
                ==> !#[trigger] om[b].0.has(h),
        super::builder::edges_distinct(om),
        edges_sorted(rm),
        forall|e: EdgeModel| #[trigger] rm.contains(e) <==> om.contains(e),
        super::builder::edges_distinct(rm),
    ensures
        forall|k: int| 0 <= k < rm.len() ==> super::edge_ok(locs, #[trigger] rm[k]),
        edges_deterministic(rm),
        forall|k: int| 0 <= k < rm.len() ==> satisfiable(#[trigger] rm[k].1),
        forall|h: int, val: Set<Seq<char>>|
            0 <= h <= max_finite() ==> #[trigger] sat(first_enabled(rm, h), val) == sat(first_enabled(em, h), val),
{
    assert forall|k: int| 0 <= k < rm.len() implies exists|p: int| 0 <= p < om.len() && om[p] == #[trigger] rm[k] by {
        assert(rm.contains(rm[k]));
    }
    assert forall|k: int| 0 <= k < rm.len() implies super::edge_ok(locs, #[trigger] rm[k]) by {
        let p = choose|p: int| 0 <= p < om.len() && om[p] == rm[k];
        assert(om[p] == om[p]);
    }
    assert forall|a: int, b: int, h: int|
        0 <= a < rm.len() && 0 <= b < rm.len() && a != b && 0 <= h <= max_finite() && #[trigger] rm[a].0.has(h) implies !#[trigger] rm[b].0.has(h) by {
        let p = choose|p: int| 0 <= p < om.len() && om[p] == rm[a];
        let q = choose|p: int| 0 <= p < om.len() && om[p] == rm[b];
        assert(om[p] == om[p] && om[q] == om[q]);
    }
    assert forall|a: int, b: int| 0 <= a < rm.len() && 0 <= b < rm.len() && a != b implies #[trigger] rm[a].0 != #[trigger] rm[b].0 by {
        if rm[a].0 == rm[b].0 {
            let p = choose|p: int| 0 <= p < om.len() && om[p] == rm[a];
            assert(om[p] == om[p]);
            let h = rm[a].0.lo();
            assert(rm[a].0.has(h));
            assert(rm[b].0.has(h));
        }
    }
    assert forall|k: int| 0 <= k < rm.len() implies satisfiable(#[trigger] rm[k].1) by {
        let p = choose|p: int| 0 <= p < om.len() && om[p] == rm[k];
        assert(kv[p] == kv[p]);
        assert(kv[p].len() > 0);
        let c = kv[p][0];
        let val = Set::new(|n: Seq<char>| c.contains(n));
        assert(clause_holds(c, val)) by {
            assert forall|j: int| 0 <= j < c.len() implies val.contains(#[trigger] c[j]) by {
                assert(c.contains(c[j]));
            }
        }
        assert(key_holds(kv[p], val));
        assert(sat(om[p].1, val) == key_holds(kv[p], val));
        assert(sat(rm[k].1, val));
    }
    assert forall|h: int, val: Set<Seq<char>>|
        0 <= h <= max_finite() implies #[trigger] sat(first_enabled(rm, h), val) == sat(first_enabled(em, h), val) by {
        if exists|k: int| 0 <= k < em.len() && #[trigger] em[k].0.has(h) {
            let k = choose|k: int| 0 <= k < em.len() && #[trigger] em[k].0.has(h);
            assert forall|x: int| 0 <= x < em.len() && x != k implies !(#[trigger] em[x]).0.has(h) by {}
            lemma_first_enabled_unique(em, k, h);
            assert(-1 <= origin[k] < om.len());
            if origin[k] == -1 {
                assert(!sat(em[k].1, val));
                assert forall|a: int| 0 <= a < rm.len() implies !(#[trigger] rm[a]).0.has(h) by {
                    let p = choose|p: int| 0 <= p < om.len() && om[p] == rm[a];
                    if om[p].0.has(h) {
                        assert(covers(em, origin, i, p, h));
                        let k2 = choose|k2: int| #![trigger origin[k2]] 0 <= k2 < i && origin[k2] == p && em[k2].0.has(h);
                        assert(em[k2] == em[k2]);
                    }
                }
                lemma_first_enabled_none(rm, h);
            } else {
                let p = origin[k];
                assert(covers(em, origin, i, p, h));
                assert(om[p].0.has(h));
                assert(rm.contains(om[p]));
                let a = choose|a: int| 0 <= a < rm.len() && rm[a] == om[p];
                assert forall|b: int| 0 <= b < rm.len() && b != a implies !(#[trigger] rm[b]).0.has(h) by {}
                lemma_first_enabled_unique(rm, a, h);
                assert(sat(em[k].1, val) == key_holds(kv[p], val));
                assert(sat(om[p].1, val) == key_holds(kv[p], val));
            }
        } else {
            lemma_first_enabled_none(em, h);
            assert forall|a: int| 0 <= a < rm.len() implies !(#[trigger] rm[a]).0.has(h) by {
                let p = choose|p: int| 0 <= p < om.len() && om[p] == rm[a];
                if om[p].0.has(h) {
                    assert(covers(em, origin, i, p, h));
                    let k2 = choose|k2: int| #![trigger origin[k2]] 0 <= k2 < i && origin[k2] == p && em[k2].0.has(h);
                }
            }
            lemma_first_enabled_none(rm, h);
        }
    }
}


/// Two automata mean the same: equal accepting sets, equivalent initial
/// formulas, and equivalent successors for every location, symbol and delay.
pub open spec fn equivalent(m1: ArtaModel, m2: ArtaModel) -> bool {
    &&& m1.accepting_set() == m2.accepting_set()
    &&& forall|val: Set<Seq<char>>| #[trigger] sat(m1.init, val) == sat(m2.init, val)
    &&& forall|n: Seq<char>, a: Seq<char>, h: u32, val: Set<Seq<char>>|
        #[trigger] super::sat_target(m1, n, a, h, val) == super::sat_target(m2, n, a, h, val)
}

/// Equivalent automata compute the same valuation before any word.
pub proof fn lemma_equivalent_post(m1: ArtaModel, m2: ArtaModel, w: Seq<(Seq<char>, u32)>, val: Set<Seq<char>>)
    requires
        equivalent(m1, m2),
    ensures
        m1.post(w, val) == m2.post(w, val),
    decreases w.len(),
{
    if w.len() > 0 {
        lemma_equivalent_post(m1, m2, w.drop_first(), val);
        let x = m1.post(w.drop_first(), val);
        assert(m1.step_val(w[0].0, w[0].1, x) =~= m2.step_val(w[0].0, w[0].1, x)) by {
            assert forall|n: Seq<char>| m1.step_val(w[0].0, w[0].1, x).contains(n) == m2.step_val(w[0].0, w[0].1, x).contains(n) by {
                assert(super::sat_target(m1, n, w[0].0, w[0].1, x) == super::sat_target(m2, n, w[0].0, w[0].1, x));
            }
        }
    }
}

/// Equivalent automata accept the same timed words.
pub proof fn lemma_equivalent_accepts(m1: ArtaModel, m2: ArtaModel, w: Seq<(Seq<char>, u32)>)
    requires
        equivalent(m1, m2),
    ensures
        m1.accepts(w) == m2.accepts(w),
{
    lemma_equivalent_post(m1, m2, w, m1.accepting_set());
    assert(sat(m1.init, m1.post(w, m1.accepting_set())) == sat(m2.init, m1.post(w, m1.accepting_set())));
}

/// The loop state of automaton simplification after `i` buckets.
pub open spec fn buckets_simplified(
    ob: Seq<BucketModel>,
    nb: Seq<BucketModel>,
    kept: Seq<int>,
    i: int,
    locs: Seq<Seq<char>>,
) -> bool {
    &&& nb.len() == kept.len()
    &&& forall|c: int| 0 <= c < kept.len() ==> 0 <= #[trigger] kept[c] < i
    &&& forall|c: int, d: int| 0 <= c < d < kept.len() ==> #[trigger] kept[c] < #[trigger] kept[d]
    &&& forall|c: int| 0 <= c < nb.len() ==> (#[trigger] nb[c]).0 == ob[kept[c]].0 && nb[c].1 == ob[kept[c]].1
    &&& forall|c: int| 0 <= c < nb.len() ==> super::bucket_ok(locs, #[trigger] nb[c])
    &&& forall|c: int| 0 <= c < nb.len() ==> (#[trigger] nb[c]).2.len() > 0
    &&& forall|c: int, k: int| 0 <= c < nb.len() && 0 <= k < nb[c].2.len() ==> satisfiable(#[trigger] nb[c].2[k].1)
    &&& forall|c: int, h: int, val: Set<Seq<char>>|
        0 <= c < nb.len() && 0 <= h <= max_finite() ==> #[trigger] sat(first_enabled(nb[c].2, h), val) == sat(
            first_enabled(ob[kept[c]].2, h),
            val,
        )
    &&& forall|x: int, h: int, val: Set<Seq<char>>|
        0 <= x < i && !kept.contains(x) && 0 <= h <= max_finite() ==> !#[trigger] sat(first_enabled(ob[x].2, h), val)
}

impl<A: Symbol> Arta<A> {
    /// Simplify this automaton in place without changing what it accepts:
    /// the initial formula and every target become the formulas of their
    /// semantic keys, transitions whose target is unsatisfiable leave (a
    /// missing transition already means `⊥`), and touching guards with the
    /// same target key merge.
    pub fn simplify(&mut self)
        ensures
            final(self)@.locations == old(self)@.locations,
            final(self)@.accepting == old(self)@.accepting,
            equivalent(final(self)@, old(self)@),
            forall|w: Seq<(Seq<char>, u32)>| #[trigger] final(self)@.accepts(w) == old(self)@.accepts(w),
            simplified(final(self)@),
            simplified(old(self)@) ==> same_shape(final(self)@, old(self)@),
    {
        proof {
            use_type_invariant(&*self);
        }
        let ghost om = self@;
        let ghost ob = om.buckets;
        let ghost locs = om.locations;
        let mgr = DagStateFormulaManager {};
        let init_key = self.init.semantic_key();
        let new_init = formula_from_key(&mgr, &init_key);
        proof {
            lemma_key_formula_reduced(new_init@, init_key@);
        }
        let mut buckets: Vec<((LocationId, A), Vec<GuardedTransition>)> = Vec::new();
        let ghost mut kept: Seq<int> = Seq::empty();
        let mut i: usize = 0;
        proof {
            assert(buckets_model(buckets@) =~= Seq::<BucketModel>::empty());
        }
        while i < self.transitions.len()
            invariant
                om == self@,
                om.wf(),
                ob == om.buckets,
                locs == om.locations,
                ob == buckets_model(self.transitions@),
                i <= ob.len(),
                buckets_simplified(ob, buckets_model(buckets@), kept, i as int, locs),
                forall|c: int, k: int|
                    0 <= c < buckets@.len() && 0 <= k < buckets_model(buckets@)[c].2.len() ==> reduced(
                        #[trigger] buckets_model(buckets@)[c].2[k].1,
                    ),
                forall|c: int| 0 <= c < buckets@.len() ==> edges_merged(#[trigger] buckets_model(buckets@)[c].2),
                simplified(om) ==> kept.len() == i && forall|c: int| 0 <= c < kept.len() ==> #[trigger] kept[c] == c && same_edges(
                    buckets_model(buckets@)[c].2,
                    ob[c].2,
                ),
            decreases ob.len() - i,
        {
            let b = &self.transitions[i];
            let ghost ii = i as int;
            assert(ob[ii] == bucket_model(*b));
            assert(super::bucket_ok(locs, ob[ii]));
            let edges = simplify_bucket(&b.1, Ghost(locs));
            let ghost nb = buckets_model(buckets@);
            let ghost em = edges_model(edges@);
            if edges.len() > 0 {
                buckets.push(((b.0.0.copy_id(), b.0.1.copy_symbol()), edges));
                proof {
                    let nb2 = buckets_model(buckets@);
                    let kept2 = kept.push(ii);
                    assert(nb2 =~= nb.push((ob[ii].0, ob[ii].1, em)));
                    assert forall|c: int, k: int|
                        0 <= c < buckets@.len() && 0 <= k < nb2[c].2.len() implies reduced(#[trigger] nb2[c].2[k].1) by {
                        if c < nb.len() {
                            assert(nb2[c] == nb[c]);
                        }
                    }
                    assert forall|c: int| 0 <= c < buckets@.len() implies edges_merged(#[trigger] nb2[c].2) by {
                        if c < nb.len() {
                            assert(nb2[c] == nb[c]);
                        }
                    }
                    if simplified(om) {
                        assert(bucket_simplified(ob[ii].2));
                        assert forall|c: int| 0 <= c < kept2.len() implies #[trigger] kept2[c] == c && same_edges(nb2[c].2, ob[c].2) by {
                            if c < kept.len() {
                                assert(kept2[c] == kept[c]);
                                assert(nb2[c] == nb[c]);
                            }
                        }
                    }
                    assert(buckets_simplified(ob, nb2, kept2, ii + 1, locs)) by {
                        assert forall|c: int| 0 <= c < kept2.len() implies 0 <= #[trigger] kept2[c] < ii + 1 by {
                            if c < kept.len() {
                                assert(kept2[c] == kept[c]);
                            }
                        }
                        assert forall|c: int, d: int| 0 <= c < d < kept2.len() implies #[trigger] kept2[c] < #[trigger] kept2[d] by {
                            assert(kept2[c] == kept[c]);
                            if d < kept.len() {
                                assert(kept2[d] == kept[d]);
                            }
                        }
                        assert forall|c: int| 0 <= c < nb2.len() implies (#[trigger] nb2[c]).0 == ob[kept2[c]].0 && nb2[c].1 == ob[kept2[c]].1 by {
                            if c < nb.len() {
                                assert(nb2[c] == nb[c]);
                                assert(kept2[c] == kept[c]);
                            }
                        }
                        assert forall|c: int| 0 <= c < nb2.len() implies super::bucket_ok(locs, #[trigger] nb2[c]) by {
                            if c < nb.len() {
                                assert(nb2[c] == nb[c]);
                            }
                        }
                        assert forall|c: int| 0 <= c < nb2.len() implies (#[trigger] nb2[c]).2.len() > 0 by {
                            if c < nb.len() {
                                assert(nb2[c] == nb[c]);
                            }
                        }
                        assert forall|c: int, k: int| 0 <= c < nb2.len() && 0 <= k < nb2[c].2.len() implies satisfiable(#[trigger] nb2[c].2[k].1) by {
                            if c < nb.len() {
                                assert(nb2[c] == nb[c]);
                            }
                        }
                        assert forall|c: int, h: int, val: Set<Seq<char>>|
                            0 <= c < nb2.len() && 0 <= h <= max_finite() implies #[trigger] sat(first_enabled(nb2[c].2, h), val) == sat(
                                first_enabled(ob[kept2[c]].2, h),
                                val,
                            ) by {
                            if c < nb.len() {
                                assert(nb2[c] == nb[c]);
                                assert(kept2[c] == kept[c]);
                            }
                        }
                        assert forall|x: int, h: int, val: Set<Seq<char>>|
                            0 <= x < ii + 1 && !kept2.contains(x) && 0 <= h <= max_finite() implies !#[trigger] sat(first_enabled(ob[x].2, h), val) by {
                            assert(kept2[kept.len() as int] == ii);
                            if x < ii {
                                if kept.contains(x) {
                                    let c = choose|c: int| 0 <= c < kept.len() && kept[c] == x;
                                    assert(kept2[c] == x);
                                }
                            }
                        }
                    }
                    kept = kept2;
                }
            } else {
                proof {
                    assert(buckets_simplified(ob, nb, kept, ii + 1, locs)) by {
                        assert forall|x: int, h: int, val: Set<Seq<char>>|
                            0 <= x < ii + 1 && !kept.contains(x) && 0 <= h <= max_finite() implies !#[trigger] sat(first_enabled(ob[x].2, h), val) by {
                            if x == ii {
                                lemma_first_enabled_none(em, h);
                                assert(sat(first_enabled(em, h), val) == sat(first_enabled(ob[ii].2, h), val));
                            }
                        }
                    }
                }
            }
            i = i + 1;
        }
        let ghost nbm = buckets_model(buckets@);
        let ghost nm = ArtaModel {
            locations: om.locations,
            accepting: om.accepting,
            init: new_init@,
            buckets: nbm,
        };
        proof {
            lemma_simplified_model(om, nm, kept, init_key@);
        }
        let locations = super::copy_location_list(&self.locations);
        let accepting = super::copy_location_list(&self.accepting);
        let simplified = Arta::from_parts(locations, accepting, new_init, buckets);
        *self = simplified;
        proof {
            assert forall|w: Seq<(Seq<char>, u32)>| #[trigger] self@.accepts(w) == om.accepts(w) by {
                lemma_equivalent_accepts(self@, om, w);
            }
        }
    }
}

/// The simplified buckets with the simplified initial formula form a
/// well-formed automaton equivalent to the original.
proof fn lemma_simplified_model(om: ArtaModel, nm: ArtaModel, kept: Seq<int>, ik: Seq<Seq<Seq<char>>>)
    requires
        om.wf(),
        nm.locations == om.locations,
        nm.accepting == om.accepting,
        forall|val: Set<Seq<char>>| #[trigger] sat(nm.init, val) == key_holds(ik, val),
        forall|val: Set<Seq<char>>| #[trigger] key_holds(ik, val) == sat(om.init, val),
        buckets_simplified(om.buckets, nm.buckets, kept, om.buckets.len() as int, om.locations),
    ensures
        nm.wf(),
        equivalent(nm, om),
{
    let ob = om.buckets;
    let nb = nm.buckets;
    let locs = om.locations;
    assert forall|val: Set<Seq<char>>| sat(nm.init, val) == #[trigger] sat(nm.init, restrict(val, locs)) by {
        assert(sat(nm.init, val) == key_holds(ik, val));
        assert(sat(nm.init, restrict(val, locs)) == key_holds(ik, restrict(val, locs)));
        assert(sat(om.init, val) == sat(om.init, restrict(val, locs)));
    }
    assert forall|c: int, d: int| 0 <= c < d < nb.len() implies !(#[trigger] nb[c].0 == #[trigger] nb[d].0 && nb[c].1 == nb[d].1) by {
        assert(kept[c] < kept[d]);
        assert(nb[c].0 == ob[kept[c]].0 && nb[c].1 == ob[kept[c]].1);
        assert(nb[d].0 == ob[kept[d]].0 && nb[d].1 == ob[kept[d]].1);
        assert(ob[kept[c]] == ob[kept[c]]);
        assert(ob[kept[d]] == ob[kept[d]]);
    }
    assert(nm.accepting_set() =~= om.accepting_set());
    assert forall|n: Seq<char>, a: Seq<char>, h: u32, val: Set<Seq<char>>|
        #[trigger] super::sat_target(nm, n, a, h, val) == super::sat_target(om, n, a, h, val) by {
        if !half_is_infinite(h) {
            let hi = h as int;
            if super::has_bucket(ob, n, a) {
                let x = choose|x: int| 0 <= x < ob.len() && #[trigger] ob[x].0 == n && ob[x].1 == a;
                lemma_bucket_edges_at(ob, x);
                if kept.contains(x) {
                    let c = choose|c: int| 0 <= c < kept.len() && kept[c] == x;
                    assert(nb[c] == nb[c]);
                    lemma_bucket_edges_at(nb, c);
                    assert(sat(first_enabled(nb[c].2, hi), val) == sat(first_enabled(ob[kept[c]].2, hi), val));
                } else {
                    assert(!sat(first_enabled(ob[x].2, hi), val));
                    assert(!super::has_bucket(nb, n, a)) by {
                        if super::has_bucket(nb, n, a) {
                            let c = choose|c: int| 0 <= c < nb.len() && #[trigger] nb[c].0 == n && nb[c].1 == a;
                            assert(nb[c].0 == ob[kept[c]].0 && nb[c].1 == ob[kept[c]].1);
                            assert(ob[kept[c]] == ob[kept[c]]);
                            assert(kept[c] == x) by {
                                if kept[c] < x {
                                    assert(!(ob[kept[c]].0 == ob[x].0 && ob[kept[c]].1 == ob[x].1));
                                } else if kept[c] > x {
                                    assert(!(ob[x].0 == ob[kept[c]].0 && ob[x].1 == ob[kept[c]].1));
                                }
                            }
                            assert(kept.contains(x));
                        }
                    }
                    lemma_no_bucket_no_edges(nb, n, a);
                    lemma_first_enabled_none(super::bucket_edges(nb, n, a), hi);
                }
            } else {
                lemma_no_bucket_no_edges(ob, n, a);
                lemma_first_enabled_none(super::bucket_edges(ob, n, a), hi);
                assert(!super::has_bucket(nb, n, a)) by {
                    if super::has_bucket(nb, n, a) {
                        let c = choose|c: int| 0 <= c < nb.len() && #[trigger] nb[c].0 == n && nb[c].1 == a;
                        assert(nb[c].0 == ob[kept[c]].0 && nb[c].1 == ob[kept[c]].1);
                        assert(ob[kept[c]] == ob[kept[c]]);
                    }
                }
                lemma_no_bucket_no_edges(nb, n, a);
                lemma_first_enabled_none(super::bucket_edges(nb, n, a), hi);
            }
        }
    }
}

} // verus!
