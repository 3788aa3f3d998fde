//! Execution semantics: steps, runs, evaluation and acceptance.

use vstd::prelude::*;

use super::{bucket_edges, edges_model, first_enabled, Arta, ArtaModel};
use crate::location::{has_name, lemma_names_contains, names_of, LocationId};
use crate::state_formula::formula::{
    lemma_sat_occurs, name_set, occurs, sat, substituted_val, table_lookup, views_of,
    DagStateFormula, DagStateFormulaManager,
};
use crate::symbol::Symbol;
use crate::time::delay::DelayRep;
use crate::timed_word::{letters_key, TimedWord};

verus! {

/// Reading `u` then letter `x` from the end: the valuation before `u + [x]`
/// is the valuation before `u` of the valuation before `x`.
pub proof fn lemma_post_push(m: ArtaModel, u: Seq<(Seq<char>, u32)>, x: (Seq<char>, u32), val: Set<Seq<char>>)
    ensures
        m.post(u.push(x), val) == m.post(u, m.step_val(x.0, x.1, val)),
    decreases u.len(),
{
    if u.len() == 0 {
        assert(u.push(x).drop_first() =~= Seq::<(Seq<char>, u32)>::empty());
        assert(m.post(u.push(x).drop_first(), val) == val);
    } else {
        assert(u.push(x).drop_first() =~= u.drop_first().push(x));
        lemma_post_push(m, u.drop_first(), x, val);
    }
}

/// The table lookup finds the entry of a present key when every entry
/// holds the value for its key.
proof fn lemma_table_lookup_present(
    keys: Seq<LocationId>,
    values: Seq<crate::state_formula::formula::Formula>,
    n: Seq<char>,
    m: ArtaModel,
    a: Seq<char>,
    h: u32,
)
    requires
        keys.len() == values.len(),
        has_name(keys, n),
        forall|i: int| 0 <= i < keys.len() ==> #[trigger] values[i] == m.target(keys[i]@, a, h),
    ensures
        table_lookup(keys, values, n) == m.target(n, a, h),
    decreases keys.len(),
{
    if keys[0]@ != n {
        let i = choose|i: int| 0 <= i < keys.len() && #[trigger] keys[i]@ == n;
        assert(keys.drop_first()[i - 1]@ == n);
        assert forall|j: int| 0 <= j < keys.drop_first().len() implies #[trigger] values.drop_first()[j] == m.target(
            keys.drop_first()[j]@,
            a,
            h,
        ) by {
            assert(values[j + 1] == m.target(keys[j + 1]@, a, h));
        }
        lemma_table_lookup_present(keys.drop_first(), values.drop_first(), n, m, a, h);
    }
}

impl<A: Symbol> Arta<A> {
    /// One execution step from a location on timed letter `(sym, d)`: the
    /// target of the enabled transition, or `⊥` when there is none.
    pub fn step_location(&self, loc: LocationId, sym: &A, d: DelayRep) -> (r: DagStateFormula)
        ensures
            r@ == self@.target(loc@, sym.key(), d@),
    {
        let mgr = DagStateFormulaManager {};
        if d.is_infinity() {
            return DagStateFormula::bot(&mgr);
        }
        match self.find_bucket(&loc, sym) {
            Some(i) => {
                let edges = &self.transitions[i].1;
                let ghost es = edges_model(edges@);
                let mut k: usize = 0;
                assert(es.skip(0) =~= es);
                while k < edges.len()
                    invariant
                        es == edges_model(edges@),
                        es == bucket_edges(self@.buckets, loc@, sym.key()),
                        !crate::time::delay::half_is_infinite(d@),
                        k <= es.len(),
                        first_enabled(es, d@ as int) == first_enabled(es.skip(k as int), d@ as int),
                    decreases es.len() - k,
                {
                    proof {
                        assert(es.skip(k as int).drop_first() =~= es.skip(k + 1));
                        assert(es.skip(k as int)[0] == es[k as int]);
                        assert(es[k as int] == super::edge_model(edges@[k as int]));
                    }
                    if edges[k].guard.contains(d) {
                        return edges[k].target.duplicate();
                    }
                    k = k + 1;
                }
                DagStateFormula::bot(&mgr)
            },
            None => {
                proof {
                    super::lemma_no_bucket_no_edges(self@.buckets, loc@, sym.key());
                }
                DagStateFormula::bot(&mgr)
            },
        }
    }

    /// One execution step from a formula: every location is replaced by its
    /// successor formula on `(sym, d)`.
    pub fn step_formula(&self, phi: &DagStateFormula, sym: &A, d: DelayRep) -> (r: DagStateFormula)
        ensures
            forall|val: Set<Seq<char>>|
                #![trigger sat(r@, val)]
                sat(r@, val) == sat(phi@, self@.step_val(sym.key(), d@, val)),
    {
        let keys = phi.vars();
        let mut values: Vec<DagStateFormula> = Vec::new();
        let mut i: usize = 0;
        while i < keys.len()
            invariant
                i <= keys@.len(),
                values@.len() == i,
                forall|j: int| 0 <= j < i ==> #[trigger] values@[j]@ == self@.target(keys@[j]@, sym.key(), d@),
            decreases keys@.len() - i,
        {
            let t = self.step_location(keys[i].copy_id(), sym, d);
            values.push(t);
            i = i + 1;
        }
        let mgr = DagStateFormulaManager {};
        let r = DagStateFormula::substitute_table(&mgr, phi, keys.as_slice(), values.as_slice());
        proof {
            let m = self@;
            let a = sym.key();
            let h = d@;
            let vs = views_of(values@);
            assert forall|j: int| 0 <= j < keys@.len() implies #[trigger] vs[j] == m.target(keys@[j]@, a, h) by {
                assert(vs[j] == values@[j]@);
            }
            assert forall|val: Set<Seq<char>>| sat(r@, val) == sat(phi@, m.step_val(a, h, val)) by {
                let sv = substituted_val(keys@, vs, val);
                let st = m.step_val(a, h, val);
                assert forall|n: Seq<char>| #[trigger] occurs(phi@, n) implies (sv.contains(n) == st.contains(n)) by {
                    lemma_table_lookup_present(keys@, vs, n, m, a, h);
                }
                lemma_sat_occurs(phi@, sv, st);
            }
        }
        r
    }

    /// Run the automaton semantics from `phi` over timed word `w`, letter by
    /// letter from the left.
    pub fn run_from(&self, phi: &DagStateFormula, w: &TimedWord<A>) -> (r: DagStateFormula)
        ensures
            forall|val: Set<Seq<char>>|
                #![trigger sat(r@, val)]
                sat(r@, val) == sat(phi@, self@.post(letters_key(w@), val)),
    {
        let letters = w.as_slice();
        let ghost wk = letters_key(w@);
        let mut current = phi.duplicate();
        let mut i: usize = 0;
        proof {
            assert forall|val: Set<Seq<char>>| sat(current@, val) == sat(phi@, self@.post(wk.take(0), val)) by {
                assert(wk.take(0) =~= Seq::<(Seq<char>, u32)>::empty());
            }
        }
        while i < letters.len()
            invariant
                letters@ == w@,
                wk == letters_key(w@),
                i <= letters@.len(),
                forall|val: Set<Seq<char>>|
                    #![trigger sat(current@, val)]
                    sat(current@, val) == sat(phi@, self@.post(wk.take(i as int), val)),
            decreases letters@.len() - i,
        {
            let ghost prev = current@;
            let ghost ii = i as int;
            current = self.step_formula(&current, &letters[i].0, letters[i].1);
            i = i + 1;
            proof {
                assert forall|val: Set<Seq<char>>| sat(current@, val) == sat(phi@, self@.post(wk.take(i as int), val)) by {
                    let x = wk[ii];
                    assert(x == (letters@[ii].0.key(), letters@[ii].1@));
                    assert(wk.take(i as int) =~= wk.take(ii).push(x));
                    lemma_post_push(self@, wk.take(ii), x, val);
                    let sv = self@.step_val(x.0, x.1, val);
                    assert(sat(prev, sv) == sat(phi@, self@.post(wk.take(ii), sv)));
                }
            }
        }
        assert(wk.take(i as int) =~= wk);
        current
    }

    /// Evaluate a state formula with exactly the accepting locations true.
    pub fn eval(&self, phi: &DagStateFormula) -> (b: bool)
        ensures
            b == sat(phi@, self@.accepting_set()),
    {
        let b = phi.eval_in(self.accepting.as_slice());
        proof {
            assert(name_set(self.accepting@) =~= self@.accepting_set()) by {
                assert forall|n: Seq<char>| name_set(self.accepting@).contains(n) == self@.accepting_set().contains(n) by {
                    lemma_names_contains(self.accepting@, n);
                }
            }
        }
        b
    }

    /// `true` iff timed word `w` is accepted.
    pub fn accepts(&self, w: &TimedWord<A>) -> (b: bool)
        ensures
            b == self@.accepts(letters_key(w@)),
    {
        let r = self.run_from(&self.init, w);
        let b = self.eval(&r);
        b
    }
}

} // verus!
