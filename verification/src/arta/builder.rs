//! Builder for automata, with the validation that `build` performs.

use vstd::prelude::*;

use super::{
    bucket_model, buckets_model, edge_model, edges_model, guard_key_le, Arta, ArtaError, ArtaModel,
    EdgeModel, GuardedTransition,
};
use crate::error::IntervalError;
use crate::location::{
    contains_location, has_name, insert_sorted_location, lemma_names_contains, names_of, LocationId,
};
use crate::state_formula::formula::{occurs, DagStateFormula, Formula};
use crate::symbol::Symbol;
use crate::text::{decimal_string, push_str, strictly_sorted};
use crate::time::delay::DelayRep;
use crate::time::interval::{lemma_interval_view_injective, max_finite, Interval, IntervalModel};

verus! {

/// A transition waiting for validation.
struct PendingTransition<A> {
    loc: LocationId,
    symbol: A,
    guard: Interval,
    target: DagStateFormula,
}

/// The content of a pending transition: location name, symbol key, guard,
/// target.
pub type PendingModel = (Seq<char>, Seq<char>, IntervalModel, Formula);

spec fn pending_model<A: Symbol>(p: PendingTransition<A>) -> PendingModel {
    (p.loc@, p.symbol.key(), p.guard@, p.target@)
}

spec fn pendings_model<A: Symbol>(s: Seq<PendingTransition<A>>) -> Seq<PendingModel> {
    Seq::new(s.len(), |i: int| pending_model(s[i]))
}

/// The content of a builder.
pub struct BuilderModel {
    /// Declared location names, sorted.
    pub locations: Seq<Seq<char>>,
    /// Initial state formula.
    pub init: Formula,
    /// Accepting location names, sorted.
    pub accepting: Seq<Seq<char>>,
    /// Added transitions, in order.
    pub pending: Seq<PendingModel>,
}

/// A pending transition is valid: its guard is well formed with a
/// representable delay, and its location and target locations are declared.
pub open spec fn pending_ok(locs: Seq<Seq<char>>, p: PendingModel) -> bool {
    &&& p.2.wf()
    &&& p.2.has_witness()
    &&& locs.contains(p.0)
    &&& forall|n: Seq<char>| #[trigger] occurs(p.3, n) ==> locs.contains(n)
}

/// Two pending transitions of the same bucket with different guard or
/// target that share a guard, or a delay.
pub open spec fn pending_clash(p: PendingModel, q: PendingModel) -> bool {
    &&& p.0 == q.0
    &&& p.1 == q.1
    &&& (p.2, p.3) != (q.2, q.3)
    &&& (p.2 == q.2 || exists|h: int| 0 <= h <= max_finite() && #[trigger] p.2.has(h) && q.2.has(h))
}

/// What `build` accepts: every referenced location declared, every
/// transition valid, no two transitions of a bucket clashing.
pub open spec fn build_ok(m: BuilderModel) -> bool {
    &&& forall|n: Seq<char>| #[trigger] occurs(m.init, n) ==> m.locations.contains(n)
    &&& forall|i: int| 0 <= i < m.accepting.len() ==> m.locations.contains(#[trigger] m.accepting[i])
    &&& forall|i: int| 0 <= i < m.pending.len() ==> pending_ok(m.locations, #[trigger] m.pending[i])
    &&& forall|i: int, j: int|
        0 <= i < m.pending.len() && 0 <= j < m.pending.len() ==> !pending_clash(
            #[trigger] m.pending[i],
            #[trigger] m.pending[j],
        )
}

/// The automaton `build` returns: the builder's locations, accepting set and
/// initial formula, one bucket per key of the pending transitions holding
/// exactly their distinct edges in guard order.
pub open spec fn built_from(a: ArtaModel, m: BuilderModel) -> bool {
    &&& a.locations == m.locations
    &&& a.accepting == m.accepting
    &&& a.init == m.init
    &&& forall|i: int|
        0 <= i < m.pending.len() ==> super::has_bucket(a.buckets, #[trigger] m.pending[i].0, m.pending[i].1)
    &&& forall|b: int, e: EdgeModel|
        0 <= b < a.buckets.len() ==> (#[trigger] a.buckets[b].2.contains(e) <==> exists|i: int|
            0 <= i < m.pending.len() && #[trigger] m.pending[i].0 == a.buckets[b].0 && m.pending[i].1
                == a.buckets[b].1 && (m.pending[i].2, m.pending[i].3) == e)
    &&& buckets_seen(a.buckets, m.pending, m.pending.len() as int)
}

/// Location name `n` is referenced by the initial formula, the accepting
/// set, or a transition.
pub open spec fn referenced(m: BuilderModel, n: Seq<char>) -> bool {
    occurs(m.init, n) || m.accepting.contains(n) || exists|i: int|
        0 <= i < m.pending.len() && #[trigger] references(m.pending[i], n)
}

/// Transition `p` starts at or targets location name `n`.
pub open spec fn references(p: PendingModel, n: Seq<char>) -> bool {
    p.0 == n || occurs(p.3, n)
}

/// Transitions `p` and `q` clash, `p` at location `n` on symbol `a`, with
/// guards `g1` and `g2`.
pub open spec fn clash_at(p: PendingModel, q: PendingModel, n: Seq<char>, a: Seq<char>, g1: IntervalModel, g2: IntervalModel) -> bool {
    &&& pending_clash(p, q)
    &&& p.0 == n
    &&& p.1 == a
    &&& p.2 == g1
    &&& q.2 == g2
}

/// What an error of `build` reports is a genuine violation.
pub open spec fn build_error_ok<A: Symbol>(e: ArtaError<A>, m: BuilderModel) -> bool {
    match e {
        ArtaError::UnknownLocation { loc } => !m.locations.contains(loc@) && referenced(m, loc@),
        ArtaError::InvalidInterval { context, source } => exists|i: int|
            0 <= i < m.pending.len() && !(#[trigger] m.pending[i].2.wf() && m.pending[i].2.has_witness()),
        ArtaError::NonDeterministic { loc, symbol, guard1, guard2, witness } => {
            &&& guard1@.has(witness@ as int)
            &&& guard2@.has(witness@ as int)
            &&& witness@ <= max_finite()
            &&& exists|i: int, j: int|
                0 <= i < m.pending.len() && 0 <= j < m.pending.len() && #[trigger] clash_at(
                    m.pending[i],
                    m.pending[j],
                    loc@,
                    symbol.key(),
                    guard1@,
                    guard2@,
                )
        },
    }
}

/// The full contract of `build` on builder content `m`.
pub open spec fn build_result<A: Symbol>(r: Result<Arta<A>, ArtaError<A>>, m: BuilderModel) -> bool {
    &&& r is Ok <==> build_ok(m)
    &&& r is Ok ==> built_from(r->Ok_0@, m)
    &&& r is Err ==> build_error_ok(r->Err_0, m)
    &&& (!(forall|n: Seq<char>| #[trigger] occurs(m.init, n) ==> m.locations.contains(n))) ==> (r is Err
        && r->Err_0 is UnknownLocation && occurs(m.init, r->Err_0->UnknownLocation_loc@))
}

/// In an automaton built from builder content `m`, a pending transition
/// whose guard holds the finite delay `h` is the one taken at `h`.
pub proof fn lemma_built_target(a: ArtaModel, m: BuilderModel, i: int, h: u32)
    requires
        a.wf(),
        built_from(a, m),
        0 <= i < m.pending.len(),
        m.pending[i].2.has(h as int),
        !crate::time::delay::half_is_infinite(h),
    ensures
        a.target(m.pending[i].0, m.pending[i].1, h) == m.pending[i].3,
{
    let p = m.pending[i];
    assert(super::has_bucket(a.buckets, p.0, p.1));
    let b = choose|b: int| 0 <= b < a.buckets.len() && #[trigger] a.buckets[b].0 == p.0 && a.buckets[b].1 == p.1;
    let es = a.buckets[b].2;
    assert(es.contains((p.2, p.3)));
    let e = choose|e: int| 0 <= e < es.len() && es[e] == (p.2, p.3);
    super::lemma_bucket_edges_at(a.buckets, b);
    assert(super::bucket_ok(a.locations, a.buckets[b]));
    assert(super::edges_deterministic(es));
    assert(h as int <= max_finite());
    assert forall|k: int| 0 <= k < es.len() && k != e implies !(#[trigger] es[k]).0.has(h as int) by {
        assert(es[e].0.has(h as int));
    }
    super::lemma_first_enabled_unique(es, e, h as int);
}

/// Builder for [`Arta`].
///
/// Validation is deferred to [`ArtaBuilder::build`]. Until then the builder
/// may refer to undeclared locations, invalid intervals, or overlapping
/// guards. Exact duplicate transitions are dropped by `build`.
pub struct ArtaBuilder<A: Symbol> {
    locations: Vec<LocationId>,
    init: DagStateFormula,
    accepting: Vec<LocationId>,
    transitions: Vec<PendingTransition<A>>,
}

impl<A: Symbol> View for ArtaBuilder<A> {
    type V = BuilderModel;

    closed spec fn view(&self) -> BuilderModel {
        BuilderModel {
            locations: names_of(self.locations@),
            init: self.init@,
            accepting: names_of(self.accepting@),
            pending: pendings_model(self.transitions@),
        }
    }
}

impl<A: Symbol> ArtaBuilder<A> {
    #[verifier::type_invariant]
    spec fn inv(&self) -> bool {
        strictly_sorted(self@.locations) && strictly_sorted(self@.accepting)
    }

    /// A builder with initial formula `init` and no locations, accepting
    /// locations or transitions.
    pub fn new(init: DagStateFormula) -> (b: Self)
        ensures
            b@ == (BuilderModel {
                locations: Seq::empty(),
                init: init@,
                accepting: Seq::empty(),
                pending: Seq::empty(),
            }),
    {
        let locations: Vec<LocationId> = Vec::new();
        let accepting: Vec<LocationId> = Vec::new();
        let transitions: Vec<PendingTransition<A>> = Vec::new();
        assert(names_of(locations@) =~= Seq::<Seq<char>>::empty());
        assert(pendings_model(transitions@) =~= Seq::<PendingModel>::empty());
        ArtaBuilder { locations, init, accepting, transitions }
    }

    /// Add one location; adding a declared location changes nothing.
    pub fn add_location(&mut self, loc: LocationId) -> (r: &mut Self)
        ensures
            forall|n: Seq<char>| r@.locations.contains(n) <==> (old(self)@.locations.contains(n) || n == loc@),
            r@.init == old(self)@.init,
            r@.accepting == old(self)@.accepting,
            r@.pending == old(self)@.pending,
            *final(self) == *final(r),
    {
        proof {
            use_type_invariant(&*self);
        }
        let ghost name = loc@;
        let mut locations: Vec<LocationId> = Vec::new();
        proof {
            assert(names_of(locations@) =~= Seq::<Seq<char>>::empty());
        }
        std::mem::swap(&mut locations, &mut self.locations);
        let ghost before = names_of(locations@);
        insert_sorted_location(&mut locations, loc);
        let ghost nl = names_of(locations@);
        proof {
            assert forall|n: Seq<char>| nl.contains(n) <==> (before.contains(n) || n == name) by {
                lemma_names_contains(locations@, n);
                lemma_names_contains(old(self).locations@, n);
            }
        }
        self.locations = locations;
        assert forall|n: Seq<char>| self@.locations.contains(n) <==> (old(self)@.locations.contains(n) || n == name) by {
            assert(nl.contains(n) <==> (before.contains(n) || n == name));
        }
        self
    }

    /// Add several locations; already declared ones change nothing.
    pub fn add_locations(&mut self, locations: Vec<LocationId>) -> (r: &mut Self)
        ensures
            forall|n: Seq<char>|
                #![trigger r@.locations.contains(n)]
                r@.locations.contains(n) <==> (old(self)@.locations.contains(n) || names_of(locations@).contains(n)),
            r@.init == old(self)@.init,
            r@.accepting == old(self)@.accepting,
            r@.pending == old(self)@.pending,
            *final(self) == *final(r),
    {
        proof {
            use_type_invariant(&*self);
        }
        let mut current: Vec<LocationId> = Vec::new();
        proof {
            assert(names_of(current@) =~= Seq::<Seq<char>>::empty());
        }
        std::mem::swap(&mut current, &mut self.locations);
        let ghost before = names_of(current@);
        let merged = add_all_names(current, &locations);
        let ghost after = names_of(merged@);
        self.locations = merged;
        assert forall|n: Seq<char>|
            #![trigger self@.locations.contains(n)]
            self@.locations.contains(n) <==> (old(self)@.locations.contains(n) || names_of(locations@).contains(n)) by {
            assert(after.contains(n) <==> (before.contains(n) || names_of(locations@).contains(n)));
        }
        self
    }

    /// Mark one location as accepting; it need not be declared yet, `build`
    /// checks that.
    pub fn add_accepting(&mut self, loc: LocationId) -> (r: &mut Self)
        ensures
            forall|n: Seq<char>| r@.accepting.contains(n) <==> (old(self)@.accepting.contains(n) || n == loc@),
            r@.init == old(self)@.init,
            r@.locations == old(self)@.locations,
            r@.pending == old(self)@.pending,
            *final(self) == *final(r),
    {
        proof {
            use_type_invariant(&*self);
        }
        let ghost name = loc@;
        let mut current: Vec<LocationId> = Vec::new();
        proof {
            assert(names_of(current@) =~= Seq::<Seq<char>>::empty());
        }
        std::mem::swap(&mut current, &mut self.accepting);
        let ghost before = names_of(current@);
        let updated = insert_name(current, loc);
        let ghost after = names_of(updated@);
        self.accepting = updated;
        assert forall|n: Seq<char>| self@.accepting.contains(n) <==> (old(self)@.accepting.contains(n) || n == name) by {
            assert(after.contains(n) <==> (before.contains(n) || n == name));
        }
        self
    }

    /// Add one guarded transition; it is validated by `build`.
    pub fn add_transition(&mut self, loc: LocationId, symbol: A, guard: Interval, target: DagStateFormula) -> (r:
        &mut Self)
        ensures
            r@.pending == old(self)@.pending.push((loc@, symbol.key(), guard@, target@)),
            r@.init == old(self)@.init,
            r@.locations == old(self)@.locations,
            r@.accepting == old(self)@.accepting,
            *final(self) == *final(r),
    {
        proof {
            use_type_invariant(&*self);
        }
        let ghost added: PendingModel = (loc@, symbol.key(), guard@, target@);
        let mut current: Vec<PendingTransition<A>> = Vec::new();
        std::mem::swap(&mut current, &mut self.transitions);
        let ghost before = current@;
        current.push(PendingTransition { loc, symbol, guard, target });
        proof {
            assert(pendings_model(current@) =~= pendings_model(before).push(added));
        }
        self.transitions = current;
        self
    }

    /// Validate and assemble the automaton: every referenced location must be
    /// declared, every guard valid, and the transitions of each
    /// `(location, symbol)` bucket deterministic. Buckets are stored in
    /// guard order.
    pub fn build(self) -> (r: Result<Arta<A>, ArtaError<A>>)
        ensures
            build_result(r, self@),
    {
        proof {
            use_type_invariant(&self);
        }
        let ArtaBuilder { locations, init, accepting, transitions } = self;
        build_parts(locations, init, accepting, transitions)
    }
}

/// `v` with the names of `more` added, kept sorted and duplicate-free.
fn add_all_names(v: Vec<LocationId>, more: &Vec<LocationId>) -> (r: Vec<LocationId>)
    requires
        strictly_sorted(names_of(v@)),
    ensures
        strictly_sorted(names_of(r@)),
        forall|n: Seq<char>|
            #![trigger names_of(r@).contains(n)]
            names_of(r@).contains(n) <==> (names_of(v@).contains(n) || names_of(more@).contains(n)),
{
    let ghost start = names_of(v@);
    let mut acc = v;
    let mut i: usize = 0;
    while i < more.len()
        invariant
            i <= more@.len(),
            strictly_sorted(names_of(acc@)),
            forall|n: Seq<char>|
                #![trigger names_of(acc@).contains(n)]
                names_of(acc@).contains(n) <==> (start.contains(n) || names_of(more@).take(i as int).contains(n)),
        decreases more@.len() - i,
    {
        let ghost prev = names_of(acc@);
        let ghost ii = i as int;
        let ghost x = more@[ii]@;
        acc = insert_name(acc, more[i].copy_id());
        i = i + 1;
        proof {
            let t = names_of(more@).take(i as int);
            let t0 = names_of(more@).take(ii);
            assert(t =~= t0.push(x));
            assert forall|n: Seq<char>|
                #![trigger names_of(acc@).contains(n)]
                names_of(acc@).contains(n) <==> (start.contains(n) || t.contains(n)) by {
                assert(prev.contains(n) <==> (start.contains(n) || t0.contains(n)));
                if t.contains(n) && n != x {
                    let k = choose|k: int| 0 <= k < t.len() && t[k] == n;
                    assert(t0[k] == n);
                }
                if t0.contains(n) {
                    let k = choose|k: int| 0 <= k < t0.len() && t0[k] == n;
                    assert(t[k] == n);
                }
                if n == x {
                    assert(t[ii] == n);
                }
            }
        }
    }
    proof {
        assert(names_of(more@).take(i as int) =~= names_of(more@));
    }
    acc
}


/// `v` with `loc` added, kept sorted and duplicate-free.
fn insert_name(v: Vec<LocationId>, loc: LocationId) -> (r: Vec<LocationId>)
    requires
        strictly_sorted(names_of(v@)),
    ensures
        strictly_sorted(names_of(r@)),
        forall|n: Seq<char>|
            #![trigger names_of(r@).contains(n)]
            names_of(r@).contains(n) <==> (names_of(v@).contains(n) || n == loc@),
{
    let ghost name = loc@;
    let ghost before = names_of(v@);
    let ghost old_v = v@;
    let mut w = v;
    insert_sorted_location(&mut w, loc);
    proof {
        assert forall|n: Seq<char>|
            #![trigger names_of(w@).contains(n)]
            names_of(w@).contains(n) <==> (before.contains(n) || n == name) by {
            lemma_names_contains(w@, n);
            lemma_names_contains(old_v, n);
        }
    }
    w
}

/// The first location occurring in `f` that is not among `locs`.
fn first_undeclared_var(locs: &Vec<LocationId>, f: &DagStateFormula) -> (r: Option<LocationId>)
    ensures
        r is None <==> forall|n: Seq<char>| #[trigger] occurs(f@, n) ==> names_of(locs@).contains(n),
        r is Some ==> occurs(f@, r->Some_0@) && !names_of(locs@).contains(r->Some_0@),
{
    let vars = f.vars();
    let mut i: usize = 0;
    while i < vars.len()
        invariant
            i <= vars@.len(),
            forall|n: Seq<char>| has_name(vars@, n) <==> occurs(f@, n),
            forall|j: int| 0 <= j < i ==> names_of(locs@).contains(#[trigger] vars@[j]@),
        decreases vars@.len() - i,
    {
        let found = contains_location(locs.as_slice(), &vars[i]);
        proof {
            lemma_names_contains(locs@, vars@[i as int]@);
        }
        if !found {
            proof {
                assert(has_name(vars@, vars@[i as int]@));
            }
            return Some(vars[i].copy_id());
        }
        i = i + 1;
    }
    proof {
        assert forall|n: Seq<char>| #[trigger] occurs(f@, n) implies names_of(locs@).contains(n) by {
            assert(has_name(vars@, n));
            let j = choose|j: int| 0 <= j < vars@.len() && #[trigger] vars@[j]@ == n;
        }
    }
    None
}

/// The first location of `names` that is not among `locs`.
fn first_undeclared(locs: &Vec<LocationId>, names: &Vec<LocationId>) -> (r: Option<LocationId>)
    ensures
        r is None <==> forall|i: int| 0 <= i < names@.len() ==> names_of(locs@).contains(#[trigger] names_of(names@)[i]),
        r is Some ==> names_of(names@).contains(r->Some_0@) && !names_of(locs@).contains(r->Some_0@),
{
    let mut i: usize = 0;
    while i < names.len()
        invariant
            i <= names@.len(),
            forall|j: int| 0 <= j < i ==> names_of(locs@).contains(#[trigger] names_of(names@)[j]),
        decreases names@.len() - i,
    {
        let found = contains_location(locs.as_slice(), &names[i]);
        proof {
            lemma_names_contains(locs@, names@[i as int]@);
            assert(names_of(names@)[i as int] == names@[i as int]@);
        }
        if !found {
            return Some(names[i].copy_id());
        }
        i = i + 1;
    }
    None
}

/// `"transition #<idx> from <loc>"` followed by `suffix`.
fn transition_context(idx: usize, loc: &LocationId, suffix: &str) -> (r: String)
    ensures
        r@ == "transition #"@ + crate::text::decimal(idx as nat) + " from "@ + loc@ + suffix@,
{
    let mut s = String::from_str("transition #");
    let digits = decimal_string(idx as u64);
    push_str(&mut s, digits.as_str());
    push_str(&mut s, " from ");
    push_str(&mut s, loc.name());
    push_str(&mut s, suffix);
    s
}

/// An exact copy of a guarded transition.
fn copy_edge(e: &GuardedTransition) -> (r: GuardedTransition)
    ensures
        edge_model(r) == edge_model(*e),
{
    GuardedTransition { guard: e.guard, target: e.target.duplicate() }
}

/// The first earlier transition with the same location, symbol and guard as
/// transition `idx`.
fn first_same_guard<A: Symbol>(pending: &Vec<PendingTransition<A>>, idx: usize) -> (r: Option<usize>)
    requires
        idx < pending@.len(),
    ensures
        r is None ==> forall|j: int|
            0 <= j < idx ==> !same_slot(#[trigger] pendings_model(pending@)[j], pendings_model(pending@)[idx as int]),
        r is Some ==> r->Some_0 < idx && same_slot(
            pendings_model(pending@)[r->Some_0 as int],
            pendings_model(pending@)[idx as int],
        ),
{
    let ghost pm = pendings_model(pending@);
    let t = &pending[idx];
    let mut j: usize = 0;
    while j < idx
        invariant
            pm == pendings_model(pending@),
            idx < pending@.len(),
            *t == pending@[idx as int],
            j <= idx,
            forall|k: int| 0 <= k < j ==> !same_slot(#[trigger] pm[k], pm[idx as int]),
        decreases idx - j,
    {
        let p = &pending[j];
        proof {
            lemma_interval_view_injective(p.guard, t.guard);
        }
        if p.loc.same(&t.loc) && p.symbol.same_symbol(&t.symbol) && p.guard == t.guard {
            return Some(j);
        }
        j = j + 1;
    }
    None
}

/// Same location, symbol and guard.
pub open spec fn same_slot(p: PendingModel, q: PendingModel) -> bool {
    p.0 == q.0 && p.1 == q.1 && p.2 == q.2
}


/// `true` iff `es` holds an edge with guard `g` and target `t`.
fn has_edge(es: &Vec<GuardedTransition>, g: &Interval, t: &DagStateFormula) -> (r: bool)
    ensures
        r == edges_model(es@).contains((g@, t@)),
{
    let mut k: usize = 0;
    while k < es.len()
        invariant
            k <= es@.len(),
            forall|j: int| 0 <= j < k ==> #[trigger] edges_model(es@)[j] != (g@, t@),
        decreases es@.len() - k,
    {
        proof {
            lemma_interval_view_injective(es@[k as int].guard, *g);
            assert(edges_model(es@)[k as int] == (es@[k as int].guard@, es@[k as int].target@));
        }
        if es[k].guard == *g && es[k].target.same(t) {
            proof {
                assert(edges_model(es@)[k as int] == (g@, t@));
            }
            return true;
        }
        k = k + 1;
    }
    false
}

/// No edge occurs twice.
pub open spec fn edges_distinct(es: Seq<EdgeModel>) -> bool {
    forall|i: int, j: int| 0 <= i < es.len() && 0 <= j < es.len() && i != j ==> #[trigger] es[i] != #[trigger] es[j]
}

/// The distinct edges of the transitions from `start` on that share its
/// location and symbol.
fn collect_edges<A: Symbol>(pending: &Vec<PendingTransition<A>>, start: usize) -> (r: Vec<GuardedTransition>)
    requires
        start < pending@.len(),
    ensures
        edges_distinct(edges_model(r@)),
        forall|e: EdgeModel|
            #[trigger] edges_model(r@).contains(e) <==> exists|j: int|
                start <= j < pending@.len() && #[trigger] pendings_model(pending@)[j].0 == pendings_model(
                    pending@,
                )[start as int].0 && pendings_model(pending@)[j].1 == pendings_model(pending@)[start as int].1
                    && (pendings_model(pending@)[j].2, pendings_model(pending@)[j].3) == e,
{
    let ghost pm = pendings_model(pending@);
    let first = &pending[start];
    let mut r: Vec<GuardedTransition> = Vec::new();
    let mut j: usize = start;
    proof {
        assert(edges_model(r@) =~= Seq::<EdgeModel>::empty());
    }
    while j < pending.len()
        invariant
            pm == pendings_model(pending@),
            start < pending@.len(),
            *first == pending@[start as int],
            start <= j <= pending@.len(),
            edges_distinct(edges_model(r@)),
            forall|e: EdgeModel|
                #[trigger] edges_model(r@).contains(e) <==> exists|k: int|
                    start <= k < j && #[trigger] pm[k].0 == pm[start as int].0 && pm[k].1 == pm[start as int].1 && (
                    pm[k].2, pm[k].3) == e,
        decreases pending@.len() - j,
    {
        let p = &pending[j];
        let ghost jj = j as int;
        let ghost prev = edges_model(r@);
        let ghost pe: EdgeModel = (p.guard@, p.target@);
        if p.loc.same(&first.loc) && p.symbol.same_symbol(&first.symbol) && !has_edge(&r, &p.guard, &p.target) {
            r.push(GuardedTransition { guard: p.guard, target: p.target.duplicate() });
            proof {
                assert(edges_model(r@) =~= prev.push(pe));
            }
        }
        j = j + 1;
        proof {
            assert(pm[jj] == (p.loc@, p.symbol.key(), p.guard@, p.target@));
            assert forall|e: EdgeModel|
                #[trigger] edges_model(r@).contains(e) <==> exists|k: int|
                    start <= k < j && #[trigger] pm[k].0 == pm[start as int].0 && pm[k].1 == pm[start as int].1 && (
                    pm[k].2, pm[k].3) == e by {
                if edges_model(r@).contains(e) {
                    let x = choose|x: int| 0 <= x < edges_model(r@).len() && edges_model(r@)[x] == e;
                    if x < prev.len() {
                        assert(prev[x] == e);
                        assert(prev.contains(e));
                    } else {
                        assert(e == pe);
                        assert(pm[jj].0 == pm[start as int].0);
                    }
                }
                if exists|k: int|
                    start <= k < j && #[trigger] pm[k].0 == pm[start as int].0 && pm[k].1 == pm[start as int].1 && (
                    pm[k].2, pm[k].3) == e {
                    let k = choose|k: int|
                        start <= k < j && #[trigger] pm[k].0 == pm[start as int].0 && pm[k].1 == pm[start as int].1
                            && (pm[k].2, pm[k].3) == e;
                    if k < jj {
                        assert(prev.contains(e));
                        let x = choose|x: int| 0 <= x < prev.len() && prev[x] == e;
                        assert(edges_model(r@)[x] == e);
                    } else if prev.contains(e) {
                        let x = choose|x: int| 0 <= x < prev.len() && prev[x] == e;
                        assert(edges_model(r@)[x] == e);
                    } else {
                        assert(edges_model(r@)[prev.len() as int] == e);
                    }
                }
            }
        }
    }
    r
}

/// One bucket per location and symbol of `pending`, each with the distinct
/// edges of its transitions in order of appearance.
fn group_pending<A: Symbol>(pending: &Vec<PendingTransition<A>>) -> (r: Vec<((LocationId, A), Vec<GuardedTransition>)>)
    ensures
        grouping_of(buckets_model(r@), pendings_model(pending@)),
{
    let ghost pm = pendings_model(pending@);
    let mut out: Vec<((LocationId, A), Vec<GuardedTransition>)> = Vec::new();
    let mut i: usize = 0;
    proof {
        assert(buckets_model(out@) =~= Seq::<super::BucketModel>::empty());
    }
    while i < pending.len()
        invariant
            pm == pendings_model(pending@),
            i <= pending@.len(),
            grouping_keys_distinct(buckets_model(out@)),
            seen_have_buckets(buckets_model(out@), pm, i as int),
            buckets_seen(buckets_model(out@), pm, i as int),
            grouping_edges(buckets_model(out@), pm),
        decreases pending@.len() - i,
    {
        let p = &pending[i];
        let ghost bm = buckets_model(out@);
        let ghost ii = i as int;
        assert(pm[ii] == (p.loc@, p.symbol.key(), p.guard@, p.target@));
        let mut exists_already = false;
        let mut b: usize = 0;
        while b < out.len()
            invariant
                bm == buckets_model(out@),
                b <= bm.len(),
                *p == pending@[ii],
                !exists_already ==> forall|c: int| 0 <= c < b ==> !(#[trigger] bm[c].0 == p.loc@ && bm[c].1 == p.symbol.key()),
                exists_already ==> super::has_bucket(bm, p.loc@, p.symbol.key()),
            decreases bm.len() - b,
        {
            if !exists_already && out[b].0.0.same(&p.loc) && out[b].0.1.same_symbol(&p.symbol) {
                exists_already = true;
                proof {
                    assert(bm[b as int].0 == p.loc@ && bm[b as int].1 == p.symbol.key());
                }
            }
            b = b + 1;
        }
        if exists_already {
            proof {
                lemma_seen_extend(bm, pm, ii);
                lemma_have_extend(bm, pm, ii);
            }
        }
        if !exists_already {
            let edges = collect_edges(pending, i);
            let key = (p.loc.copy_id(), p.symbol.copy_symbol());
            out.push((key, edges));
            proof {
                let nb = buckets_model(out@);
                assert(nb =~= bm.push((p.loc@, p.symbol.key(), edges_model(edges@))));
                assert forall|c: int, d: int| 0 <= c < d < nb.len() implies !(#[trigger] nb[c].0 == #[trigger] nb[d].0
                    && nb[c].1 == nb[d].1) by {
                    if d == nb.len() - 1 {
                        assert(nb[c] == bm[c]);
                    } else {
                        assert(nb[c] == bm[c]);
                        assert(nb[d] == bm[d]);
                    }
                }
                lemma_seen_push(bm, pm, ii, nb[nb.len() - 1]);
                lemma_have_push(bm, pm, ii, nb[nb.len() - 1]);
                assert forall|c: int, e: EdgeModel| 0 <= c < nb.len() implies (#[trigger] nb[c].2.contains(e) <==> exists|j: int|
                    0 <= j < pm.len() && #[trigger] pm[j].0 == nb[c].0 && pm[j].1 == nb[c].1 && (pm[j].2, pm[j].3) == e) by {
                    if c < bm.len() {
                        assert(nb[c] == bm[c]);
                    } else {
                        assert(nb[c].2 == edges_model(edges@));
                        if exists|j: int| 0 <= j < pm.len() && #[trigger] pm[j].0 == nb[c].0 && pm[j].1 == nb[c].1 && (pm[j].2, pm[j].3) == e {
                            let j = choose|j: int| 0 <= j < pm.len() && #[trigger] pm[j].0 == nb[c].0 && pm[j].1 == nb[c].1 && (pm[j].2, pm[j].3) == e;
                            if j < ii {
                                assert(super::has_bucket(bm, pm[j].0, pm[j].1));
                                let d = choose|d: int| 0 <= d < bm.len() && #[trigger] bm[d].0 == pm[j].0 && bm[d].1 == pm[j].1;
                                assert(!(bm[d].0 == p.loc@ && bm[d].1 == p.symbol.key()));
                            }
                        }
                    }
                }
                assert forall|c: int| 0 <= c < nb.len() implies edges_distinct(#[trigger] nb[c].2) by {
                    if c < bm.len() {
                        assert(nb[c] == bm[c]);
                    }
                }
            }
        }
        i = i + 1;
    }
    out
}

/// Every bucket's key is that of one of the first `i` transitions.
pub open spec fn buckets_seen(bs: Seq<super::BucketModel>, pm: Seq<PendingModel>, i: int) -> bool {
    forall|b: int| 0 <= b < bs.len() ==> #[trigger] key_seen(bs, pm, i, b)
}

/// The key of bucket `b` is that of one of the first `i` transitions.
pub open spec fn key_seen(bs: Seq<super::BucketModel>, pm: Seq<PendingModel>, i: int, b: int) -> bool {
    exists|j: int| #![trigger pm[j]] 0 <= j < i && pm[j].0 == bs[b].0 && pm[j].1 == bs[b].1
}

proof fn lemma_seen_extend(bs: Seq<super::BucketModel>, pm: Seq<PendingModel>, i: int)
    requires
        buckets_seen(bs, pm, i),
    ensures
        buckets_seen(bs, pm, i + 1),
{
    assert forall|b: int| 0 <= b < bs.len() implies #[trigger] key_seen(bs, pm, i + 1, b) by {
        assert(key_seen(bs, pm, i, b));
        let j = choose|j: int| #![trigger pm[j]] 0 <= j < i && pm[j].0 == bs[b].0 && pm[j].1 == bs[b].1;
        assert(pm[j] == pm[j]);
    }
}

proof fn lemma_seen_push(bs: Seq<super::BucketModel>, pm: Seq<PendingModel>, i: int, nb: super::BucketModel)
    requires
        buckets_seen(bs, pm, i),
        0 <= i < pm.len(),
        nb.0 == pm[i].0,
        nb.1 == pm[i].1,
    ensures
        buckets_seen(bs.push(nb), pm, i + 1),
{
    let cs = bs.push(nb);
    assert forall|b: int| 0 <= b < cs.len() implies #[trigger] key_seen(cs, pm, i + 1, b) by {
        if b < bs.len() {
            assert(cs[b] == bs[b]);
            assert(key_seen(bs, pm, i, b));
            let j = choose|j: int| #![trigger pm[j]] 0 <= j < i && pm[j].0 == bs[b].0 && pm[j].1 == bs[b].1;
            assert(pm[j] == pm[j]);
        } else {
            assert(pm[i] == pm[i]);
        }
    }
}

proof fn lemma_have_extend(bs: Seq<super::BucketModel>, pm: Seq<PendingModel>, i: int)
    requires
        seen_have_buckets(bs, pm, i),
        0 <= i < pm.len(),
        super::has_bucket(bs, pm[i].0, pm[i].1),
    ensures
        seen_have_buckets(bs, pm, i + 1),
{
}

proof fn lemma_have_push(bs: Seq<super::BucketModel>, pm: Seq<PendingModel>, i: int, nb: super::BucketModel)
    requires
        seen_have_buckets(bs, pm, i),
        0 <= i < pm.len(),
        nb.0 == pm[i].0,
        nb.1 == pm[i].1,
    ensures
        seen_have_buckets(bs.push(nb), pm, i + 1),
{
    let cs = bs.push(nb);
    assert forall|j: int| 0 <= j < i + 1 implies super::has_bucket(cs, #[trigger] pm[j].0, pm[j].1) by {
        if j < i {
            let c = choose|c: int| 0 <= c < bs.len() && #[trigger] bs[c].0 == pm[j].0 && bs[c].1 == pm[j].1;
            assert(cs[c] == bs[c]);
        } else {
            assert(cs[bs.len() as int].0 == pm[j].0);
        }
    }
}

/// Each of the first `i` transitions has a bucket.
pub open spec fn seen_have_buckets(bs: Seq<super::BucketModel>, pm: Seq<PendingModel>, i: int) -> bool {
    forall|j: int| 0 <= j < i ==> super::has_bucket(bs, #[trigger] pm[j].0, pm[j].1)
}

/// Bucket keys are pairwise distinct.
pub open spec fn grouping_keys_distinct(bs: Seq<super::BucketModel>) -> bool {
    forall|c: int, d: int| 0 <= c < d < bs.len() ==> !(#[trigger] bs[c].0 == #[trigger] bs[d].0 && bs[c].1 == bs[d].1)
}

/// Every bucket holds exactly the distinct edges of the transitions with its key.
pub open spec fn grouping_edges(bs: Seq<super::BucketModel>, pm: Seq<PendingModel>) -> bool {
    &&& forall|c: int, e: EdgeModel|
        0 <= c < bs.len() ==> (#[trigger] bs[c].2.contains(e) <==> exists|j: int|
            0 <= j < pm.len() && #[trigger] pm[j].0 == bs[c].0 && pm[j].1 == bs[c].1 && (pm[j].2, pm[j].3) == e)
    &&& forall|c: int| 0 <= c < bs.len() ==> edges_distinct(#[trigger] bs[c].2)
}

/// `bs` groups the transitions `pm` by location and symbol.
pub open spec fn grouping_of(bs: Seq<super::BucketModel>, pm: Seq<PendingModel>) -> bool {
    &&& grouping_keys_distinct(bs)
    &&& forall|j: int| 0 <= j < pm.len() ==> super::has_bucket(bs, #[trigger] pm[j].0, pm[j].1)
    &&& buckets_seen(bs, pm, pm.len() as int)
    &&& grouping_edges(bs, pm)
}


/// The edges of `v` in nondecreasing guard order.
pub(crate) fn sort_edges(v: &Vec<GuardedTransition>) -> (r: Vec<GuardedTransition>)
    ensures
        super::edges_sorted(edges_model(r@)),
        forall|e: EdgeModel| #[trigger] edges_model(r@).contains(e) <==> edges_model(v@).contains(e),
        edges_distinct(edges_model(v@)) ==> edges_distinct(edges_model(r@)),
{
    let ghost vm = edges_model(v@);
    let mut r: Vec<GuardedTransition> = Vec::new();
    let mut i: usize = 0;
    proof {
        assert(edges_model(r@) =~= Seq::<EdgeModel>::empty());
    }
    while i < v.len()
        invariant
            vm == edges_model(v@),
            i <= v@.len(),
            super::edges_sorted(edges_model(r@)),
            forall|e: EdgeModel| #[trigger] edges_model(r@).contains(e) <==> vm.take(i as int).contains(e),
            edges_distinct(vm) ==> edges_distinct(edges_model(r@)),
        decreases v@.len() - i,
    {
        let x = copy_edge(&v[i]);
        let xk = x.guard.sort_key();
        let ghost xm = edge_model(x);
        let ghost rm = edges_model(r@);
        let mut pos: usize = 0;
        while pos < r.len() && sort_key_le(r[pos].guard.sort_key(), xk)
            invariant
                rm == edges_model(r@),
                pos <= r@.len(),
                xm == edge_model(x),
                xk.0 == x.guard@.lo(),
                xk.1 == super::guard_hi_key(x.guard@),
                forall|j: int| 0 <= j < pos ==> guard_key_le(#[trigger] rm[j].0, xm.0),
            decreases r@.len() - pos,
        {
            proof {
                assert(rm[pos as int] == edge_model(r@[pos as int]));
            }
            pos = pos + 1;
        }
        let ghost ii = i as int;
        r.insert(pos, x);
        i = i + 1;
        proof {
            let nm = edges_model(r@);
            assert(vm[ii] == xm);
            assert(nm =~= rm.insert(pos as int, xm));
            if pos < rm.len() {
                assert(rm[pos as int] == edge_model(r@[pos as int + 1]));
                assert(!guard_key_le(rm[pos as int].0, xm.0));
            }
            assert forall|a: int, b: int| 0 <= a < b < nm.len() implies guard_key_le(#[trigger] nm[a].0, #[trigger] nm[b].0) by {
                if a < pos && b < pos {
                    assert(nm[a] == rm[a] && nm[b] == rm[b]);
                } else if a < pos && b == pos {
                    assert(nm[a] == rm[a]);
                } else if a < pos {
                    assert(nm[a] == rm[a] && nm[b] == rm[b - 1]);
                } else if a == pos {
                    assert(nm[b] == rm[b - 1]);
                    assert(guard_key_le(rm[pos as int].0, rm[b - 1].0) || b - 1 == pos);
                } else {
                    assert(nm[a] == rm[a - 1] && nm[b] == rm[b - 1]);
                }
            }
            assert(vm.take(i as int) =~= vm.take(ii).push(xm));
            assert forall|e: EdgeModel| #[trigger] nm.contains(e) <==> vm.take(i as int).contains(e) by {
                if nm.contains(e) {
                    let k = choose|k: int| 0 <= k < nm.len() && nm[k] == e;
                    if k < pos {
                        assert(rm[k] == e);
                        assert(rm.contains(e));
                    } else if k > pos {
                        assert(rm[k - 1] == e);
                        assert(rm.contains(e));
                    }
                    if rm.contains(e) {
                        assert(vm.take(ii).contains(e));
                        let q = choose|q: int| 0 <= q < vm.take(ii).len() && vm.take(ii)[q] == e;
                        assert(vm.take(i as int)[q] == e);
                    } else {
                        assert(vm.take(i as int)[ii] == e);
                    }
                }
                if vm.take(i as int).contains(e) {
                    let q = choose|q: int| 0 <= q < vm.take(i as int).len() && vm.take(i as int)[q] == e;
                    if q < ii {
                        assert(vm.take(ii)[q] == e);
                        assert(vm.take(ii).contains(e));
                        assert(rm.contains(e));
                        let k = choose|k: int| 0 <= k < rm.len() && rm[k] == e;
                        if k < pos {
                            assert(nm[k] == e);
                        } else {
                            assert(nm[k + 1] == e);
                        }
                    } else {
                        assert(nm[pos as int] == e);
                    }
                }
            }
            if edges_distinct(vm) {
                assert(!vm.take(ii).contains(xm)) by {
                    if vm.take(ii).contains(xm) {
                        let q = choose|q: int| 0 <= q < vm.take(ii).len() && vm.take(ii)[q] == xm;
                        assert(vm[q] == vm[ii]);
                    }
                }
                assert(!rm.contains(xm));
                assert forall|a: int, b: int| 0 <= a < nm.len() && 0 <= b < nm.len() && a != b implies #[trigger] nm[a] != #[trigger] nm[b] by {
                    if a == pos {
                        let ob = if b < pos { b } else { b - 1 };
                        assert(nm[b] == rm[ob]);
                    } else if b == pos {
                        let oa = if a < pos { a } else { a - 1 };
                        assert(nm[a] == rm[oa]);
                    } else {
                        let oa = if a < pos { a } else { a - 1 };
                        let ob = if b < pos { b } else { b - 1 };
                        assert(nm[a] == rm[oa] && nm[b] == rm[ob]);
                    }
                }
            }
        }
    }
    proof {
        assert(vm.take(i as int) =~= vm);
    }
    r
}

/// Lexicographic order of guard sort keys.
fn sort_key_le(a: (u64, u64), b: (u64, u64)) -> (r: bool)
    ensures
        r == (a.0 < b.0 || (a.0 == b.0 && a.1 <= b.1)),
{
    a.0 < b.0 || (a.0 == b.0 && a.1 <= b.1)
}

/// The first adjacent pair of edges whose guards share a representable
/// delay, with the least such delay.
fn first_adjacent_overlap(es: &Vec<GuardedTransition>) -> (r: Option<(usize, DelayRep)>)
    ensures
        r is None ==> forall|k: int, h: int|
            0 <= k && k + 1 < es@.len() && 0 <= h <= max_finite() && #[trigger] es@[k].guard@.has(h)
                ==> !es@[k + 1].guard@.has(h),
        r is Some ==> r->Some_0.0 + 1 < es@.len() && r->Some_0.1@ <= max_finite() && es@[r->Some_0.0 as int].guard@.has(
            r->Some_0.1@ as int,
        ) && es@[r->Some_0.0 + 1].guard@.has(r->Some_0.1@ as int),
{
    let mut k: usize = 0;
    while k < es.len() && k + 1 < es.len()
        invariant
            forall|j: int, h: int|
                0 <= j < k && j + 1 < es@.len() && 0 <= h <= max_finite() && #[trigger] es@[j].guard@.has(h)
                    ==> !es@[j + 1].guard@.has(h),
        decreases es@.len() - k,
    {
        match es[k].guard.intersection(&es[k + 1].guard) {
            Some(ov) => {
                proof {
                    let h = choose|h: int| 0 <= h <= max_finite() && #[trigger] es@[k as int].guard@.has(h)
                        && es@[k + 1].guard@.has(h);
                    assert(ov@.has(h));
                }
                match ov.pick_witness() {
                    Some(w) => {
                        return Some((k, w));
                    },
                    None => {},
                }
            },
            None => {},
        }
        k = k + 1;
    }
    None
}

/// Sorted well-formed guards of which no adjacent pair shares a
/// representable delay share none at all.
proof fn lemma_sorted_adjacent_disjoint(es: Seq<EdgeModel>)
    requires
        forall|k: int| 0 <= k < es.len() ==> (#[trigger] es[k]).0.wf(),
        super::edges_sorted(es),
        forall|k: int, h: int|
            0 <= k && k + 1 < es.len() && 0 <= h <= max_finite() && #[trigger] es[k].0.has(h) ==> !es[k + 1].0.has(h),
    ensures
        forall|i: int, j: int, h: int|
            0 <= i < es.len() && 0 <= j < es.len() && i != j && 0 <= h <= max_finite() && #[trigger] es[i].0.has(h)
                ==> !#[trigger] es[j].0.has(h),
{
    assert forall|i: int, j: int, h: int|
        0 <= i < es.len() && 0 <= j < es.len() && i != j && 0 <= h <= max_finite() && #[trigger] es[i].0.has(h) implies !#[trigger] es[j].0.has(h) by {
        let (a, b) = if i < j { (i, j) } else { (j, i) };
        if es[a].0.has(h) && es[b].0.has(h) {
            let g = es[a].0;
            let n = es[a + 1].0;
            assert(es[a] == es[a]);
            assert(es[a + 1] == es[a + 1]);
            assert(guard_key_le(g, n));
            if b > a + 1 {
                assert(guard_key_le(n, es[b].0));
            }
            let h2 = n.lo();
            assert(n.has(h2));
            assert(g.has(h2));
        }
    }
}


/// An error of `build` shows that the builder content is not acceptable.
proof fn lemma_error_not_ok<A: Symbol>(e: ArtaError<A>, m: BuilderModel)
    requires
        build_error_ok(e, m),
    ensures
        !build_ok(m),
{
    match e {
        ArtaError::UnknownLocation { loc } => {
            if m.accepting.contains(loc@) {
                let i = choose|i: int| 0 <= i < m.accepting.len() && m.accepting[i] == loc@;
                assert(!m.locations.contains(m.accepting[i]));
            } else if !occurs(m.init, loc@) {
                let i = choose|i: int| 0 <= i < m.pending.len() && #[trigger] references(m.pending[i], loc@);
                assert(!pending_ok(m.locations, m.pending[i]));
            }
        },
        ArtaError::InvalidInterval { context, source } => {
            let i = choose|i: int| 0 <= i < m.pending.len() && !(#[trigger] m.pending[i].2.wf() && m.pending[i].2.has_witness());
            assert(!pending_ok(m.locations, m.pending[i]));
        },
        ArtaError::NonDeterministic { loc, symbol, guard1, guard2, witness } => {
            let (i, j) = choose|i: int, j: int|
                0 <= i < m.pending.len() && 0 <= j < m.pending.len() && #[trigger] clash_at(
                    m.pending[i],
                    m.pending[j],
                    loc@,
                    symbol.key(),
                    guard1@,
                    guard2@,
                );
            assert(pending_clash(m.pending[i], m.pending[j]));
        },
    }
}

/// No two of the first `n` transitions share location, symbol and guard
/// but differ in target.
pub open spec fn slots_consistent(pm: Seq<PendingModel>, n: int) -> bool {
    forall|j: int, k: int|
        0 <= j < n && 0 <= k < n && same_slot(#[trigger] pm[j], #[trigger] pm[k]) ==> pm[j].3 == pm[k].3
}

/// Validate the parts of a builder and assemble the automaton.
fn build_parts<A: Symbol>(
    locations: Vec<LocationId>,
    init: DagStateFormula,
    accepting: Vec<LocationId>,
    pending: Vec<PendingTransition<A>>,
) -> (r: Result<Arta<A>, ArtaError<A>>)
    requires
        strictly_sorted(names_of(locations@)),
        strictly_sorted(names_of(accepting@)),
    ensures
        build_result(
            r,
            BuilderModel {
                locations: names_of(locations@),
                init: init@,
                accepting: names_of(accepting@),
                pending: pendings_model(pending@),
            },
        ),
{
    let ghost m = BuilderModel {
        locations: names_of(locations@),
        init: init@,
        accepting: names_of(accepting@),
        pending: pendings_model(pending@),
    };
    let ghost pm = m.pending;
    let ghost locs = m.locations;
    match first_undeclared_var(&locations, &init) {
        Some(l) => {
            let e = ArtaError::UnknownLocation { loc: l };
            proof {
                assert(build_error_ok(e, m));
                lemma_error_not_ok(e, m);
            }
            return Err(e);
        },
        None => {},
    }
    match first_undeclared(&locations, &accepting) {
        Some(l) => {
            let ghost ln = l@;
            let e = ArtaError::UnknownLocation { loc: l };
            proof {
                assert(m.accepting.contains(ln));
                assert(referenced(m, ln));
                assert(build_error_ok(e, m));
                lemma_error_not_ok(e, m);
            }
            return Err(e);
        },
        None => {},
    }
    let mut idx: usize = 0;
    while idx < pending.len()
        invariant
            pm == pendings_model(pending@),
            locs == names_of(locations@),
            m.pending == pm,
            m.locations == locs,
            m == (BuilderModel {
                locations: names_of(locations@),
                init: init@,
                accepting: names_of(accepting@),
                pending: pendings_model(pending@),
            }),
            forall|n: Seq<char>| #[trigger] occurs(m.init, n) ==> m.locations.contains(n),
            forall|i: int| 0 <= i < m.accepting.len() ==> m.locations.contains(#[trigger] m.accepting[i]),
            strictly_sorted(m.locations),
            strictly_sorted(m.accepting),
            idx <= pending@.len(),
            forall|j: int| 0 <= j < idx ==> pending_ok(locs, #[trigger] pm[j]),
            slots_consistent(pm, idx as int),
        decreases pending@.len() - idx,
    {
        let t = &pending[idx];
        let ghost ii = idx as int;
        assert(pm[ii] == (t.loc@, t.symbol.key(), t.guard@, t.target@));
        match t.guard.validate() {
            Err(source) => {
                let e = ArtaError::InvalidInterval { context: transition_context(idx, &t.loc, ""), source };
                proof {
                    assert(0 <= ii < m.pending.len());
                    assert(!(m.pending[ii].2.wf() && m.pending[ii].2.has_witness()));
                    assert(e is InvalidInterval);
                    assert(build_error_ok(e, m));
                    lemma_error_not_ok(e, m);
                }
                return Err(e);
            },
            Ok(_) => {},
        }
        let declared = contains_location(locations.as_slice(), &t.loc);
        proof {
            lemma_names_contains(locations@, t.loc@);
        }
        if !declared {
            let e = ArtaError::UnknownLocation { loc: t.loc.copy_id() };
            proof {
                assert(references(pm[ii], t.loc@));
                assert(referenced(m, t.loc@));
                assert(build_error_ok(e, m));
                lemma_error_not_ok(e, m);
            }
            return Err(e);
        }
        match first_undeclared_var(&locations, &t.target) {
            Some(l) => {
                let ghost ln = l@;
                let e = ArtaError::UnknownLocation { loc: l };
                proof {
                    assert(references(pm[ii], ln));
                    assert(referenced(m, ln));
                    assert(build_error_ok(e, m));
                    lemma_error_not_ok(e, m);
                }
                return Err(e);
            },
            None => {},
        }
        match first_same_guard(&pending, idx) {
            Some(j) => {
                let ghost jj = j as int;
                assert(pm[jj] == (pending@[jj].loc@, pending@[jj].symbol.key(), pending@[jj].guard@, pending@[jj].target@));
                if !pending[j].target.same(&t.target) {
                    match t.guard.pick_witness() {
                        Some(w) => {
                            let e = ArtaError::NonDeterministic {
                                loc: t.loc.copy_id(),
                                symbol: t.symbol.copy_symbol(),
                                guard1: pending[j].guard,
                                guard2: t.guard,
                                witness: w,
                            };
                            proof {
                                assert(pending_clash(pm[jj], pm[ii]));
                                assert(clash_at(pm[jj], pm[ii], t.loc@, t.symbol.key(), pm[jj].2, pm[ii].2));
                                assert(0 <= jj < m.pending.len() && 0 <= ii < m.pending.len());
                                assert(clash_at(m.pending[jj], m.pending[ii], e->NonDeterministic_loc@, e->NonDeterministic_symbol.key(), e->NonDeterministic_guard1@, e->NonDeterministic_guard2@));
                                assert(e->NonDeterministic_guard2@.has(e->NonDeterministic_witness@ as int));
                                assert(e->NonDeterministic_guard1@.has(e->NonDeterministic_witness@ as int));
                                assert(e->NonDeterministic_witness@ <= max_finite());
                                assert(build_error_ok(e, m));
                                lemma_error_not_ok(e, m);
                            }
                            return Err(e);
                        },
                        None => {
                            let e = ArtaError::InvalidInterval {
                                context: transition_context(idx, &t.loc, " has no representable delay"),
                                source: IntervalError::Empty,
                            };
                            return Err(e);
                        },
                    }
                }
                proof {
                    assert forall|a: int, b: int|
                        0 <= a < ii + 1 && 0 <= b < ii + 1 && same_slot(#[trigger] pm[a], #[trigger] pm[b]) implies pm[a].3 == pm[b].3 by {
                        if a == ii && b < ii {
                            assert(same_slot(pm[jj], pm[b]));
                        } else if b == ii && a < ii {
                            assert(same_slot(pm[a], pm[jj]));
                        }
                    }
                }
            },
            None => {
                proof {
                    assert forall|a: int, b: int|
                        0 <= a < ii + 1 && 0 <= b < ii + 1 && same_slot(#[trigger] pm[a], #[trigger] pm[b]) implies pm[a].3 == pm[b].3 by {
                        if a == ii && b < ii {
                            assert(!same_slot(pm[b], pm[ii]));
                        } else if b == ii && a < ii {
                            assert(!same_slot(pm[a], pm[ii]));
                        }
                    }
                }
            },
        }
        proof {
            assert(pending_ok(locs, pm[ii]));
        }
        idx = idx + 1;
    }
    let grouped = group_pending(&pending);
    let ghost gm = buckets_model(grouped@);
    let mut buckets: Vec<((LocationId, A), Vec<GuardedTransition>)> = Vec::new();
    let mut b: usize = 0;
    while b < grouped.len()
        invariant
            pm == pendings_model(pending@),
            locs == names_of(locations@),
            m.pending == pm,
            m.locations == locs,
            m == (BuilderModel {
                locations: names_of(locations@),
                init: init@,
                accepting: names_of(accepting@),
                pending: pendings_model(pending@),
            }),
            forall|n: Seq<char>| #[trigger] occurs(m.init, n) ==> m.locations.contains(n),
            forall|i: int| 0 <= i < m.accepting.len() ==> m.locations.contains(#[trigger] m.accepting[i]),
            strictly_sorted(m.locations),
            strictly_sorted(m.accepting),
            gm == buckets_model(grouped@),
            grouping_of(gm, pm),
            forall|j: int| 0 <= j < pm.len() ==> pending_ok(locs, #[trigger] pm[j]),
            slots_consistent(pm, pm.len() as int),
            b <= gm.len(),
            buckets_model(buckets@).len() == b,
            forall|c: int| 0 <= c < b ==> #[trigger] bucket_matches(buckets_model(buckets@)[c], gm[c]),
        decreases gm.len() - b,
    {
        let ghost bb = b as int;
        let sorted = sort_edges(&grouped[b].1);
        let ghost sm = edges_model(sorted@);
        assert(gm[bb].2 == edges_model(grouped@[bb].1@));
        let overlap = first_adjacent_overlap(&sorted);
        match overlap {
            Some((k, w)) => {
                let n: usize = sorted.len();
                assert(k + 1 < n);
                let e = ArtaError::NonDeterministic {
                    loc: grouped[b].0.0.copy_id(),
                    symbol: grouped[b].0.1.copy_symbol(),
                    guard1: sorted[k].guard,
                    guard2: sorted[k + 1].guard,
                    witness: w,
                };
                proof {
                    let k1 = k as int;
                    let k2 = k + 1;
                    assert(sm[k1] == edge_model(sorted@[k1]));
                    assert(sm[k2] == edge_model(sorted@[k2]));
                    assert(sm.contains(sm[k1]));
                    assert(sm.contains(sm[k2]));
                    assert(gm[bb].2.contains(sm[k1]));
                    assert(gm[bb].2.contains(sm[k2]));
                    let i1 = choose|j: int|
                        0 <= j < pm.len() && #[trigger] pm[j].0 == gm[bb].0 && pm[j].1 == gm[bb].1 && (pm[j].2, pm[j].3) == sm[k1];
                    let i2 = choose|j: int|
                        0 <= j < pm.len() && #[trigger] pm[j].0 == gm[bb].0 && pm[j].1 == gm[bb].1 && (pm[j].2, pm[j].3) == sm[k2];
                    assert(edges_distinct(gm[bb].2));
                    assert(sm[k1] != sm[k2]);
                    assert(pm[i1].2.has(w@ as int) && pm[i2].2.has(w@ as int));
                    assert(pending_clash(pm[i1], pm[i2]));
                    assert(pm[i1].2 == sorted@[k1].guard@);
                    assert(pm[i2].2 == sorted@[k2].guard@);
                    assert(pm[i1].0 == grouped@[bb].0.0@);
                    assert(pm[i1].1 == grouped@[bb].0.1.key());
                    assert(w@ <= max_finite());
                    assert(clash_at(pm[i1], pm[i2], grouped@[bb].0.0@, grouped@[bb].0.1.key(), sorted@[k1].guard@, sorted@[k2].guard@));
                    assert(clash_at(m.pending[i1], m.pending[i2], e->NonDeterministic_loc@, e->NonDeterministic_symbol.key(), e->NonDeterministic_guard1@, e->NonDeterministic_guard2@));
                    assert(build_error_ok(e, m));
                    lemma_error_not_ok(e, m);
                }
                return Err(e);
            },
            None => {},
        }
        let key = (grouped[b].0.0.copy_id(), grouped[b].0.1.copy_symbol());
        let ghost prev = buckets_model(buckets@);
        buckets.push((key, sorted));
        proof {
            let nb = buckets_model(buckets@);
            assert(nb =~= prev.push((gm[bb].0, gm[bb].1, sm)));
            assert(edges_distinct(gm[bb].2));
            assert forall|k: int| 0 <= k < sm.len() implies (#[trigger] sm[k]).0.wf() by {
                assert(sm.contains(sm[k]));
                assert(gm[bb].2.contains(sm[k]));
                let j = choose|j: int|
                    0 <= j < pm.len() && #[trigger] pm[j].0 == gm[bb].0 && pm[j].1 == gm[bb].1 && (pm[j].2, pm[j].3) == sm[k];
                assert(pending_ok(locs, pm[j]));
            }
            lemma_sorted_adjacent_disjoint(sm);
            assert(bucket_matches(nb[bb], gm[bb]));
            assert forall|c: int| 0 <= c < bb + 1 implies #[trigger] bucket_matches(nb[c], gm[c]) by {
                if c < bb {
                    assert(nb[c] == prev[c]);
                }
            }
        }
        b = b + 1;
    }
    let ghost am = ArtaModel {
        locations: names_of(locations@),
        accepting: names_of(accepting@),
        init: init@,
        buckets: buckets_model(buckets@),
    };
    proof {
        lemma_assembled_ok(am, m, gm);
    }
    Ok(Arta::from_parts(locations, accepting, init, buckets))
}

/// Bucket `x` holds, in guard order, the same key and edges as grouped
/// bucket `g`, no two of its guards sharing a representable delay.
pub open spec fn bucket_matches(x: super::BucketModel, g: super::BucketModel) -> bool {
    &&& x.0 == g.0
    &&& x.1 == g.1
    &&& forall|e: EdgeModel| #[trigger] x.2.contains(e) <==> g.2.contains(e)
    &&& edges_distinct(x.2)
    &&& super::edges_sorted(x.2)
    &&& forall|i: int, j: int, h: int|
        0 <= i < x.2.len() && 0 <= j < x.2.len() && i != j && 0 <= h <= max_finite() && #[trigger] x.2[i].0.has(h)
            ==> !#[trigger] x.2[j].0.has(h)
}

/// Buckets matching a grouping of valid, consistent transitions form a
/// well-formed automaton built from the builder content.
proof fn lemma_assembled_ok(am: ArtaModel, m: BuilderModel, gm: Seq<super::BucketModel>)
    requires
        am.locations == m.locations,
        am.accepting == m.accepting,
        am.init == m.init,
        strictly_sorted(m.locations),
        strictly_sorted(m.accepting),
        forall|n: Seq<char>| #[trigger] occurs(m.init, n) ==> m.locations.contains(n),
        forall|i: int| 0 <= i < m.accepting.len() ==> m.locations.contains(#[trigger] m.accepting[i]),
        grouping_of(gm, m.pending),
        forall|j: int| 0 <= j < m.pending.len() ==> pending_ok(m.locations, #[trigger] m.pending[j]),
        slots_consistent(m.pending, m.pending.len() as int),
        am.buckets.len() == gm.len(),
        forall|c: int| 0 <= c < gm.len() ==> #[trigger] bucket_matches(am.buckets[c], gm[c]),
    ensures
        am.wf(),
        built_from(am, m),
        build_ok(m),
{
    let pm = m.pending;
    let bs = am.buckets;
    let locs = m.locations;
    super::lemma_occurs_supported(m.init, locs);
    assert forall|c: int, e: EdgeModel| 0 <= c < bs.len() implies (#[trigger] bs[c].2.contains(e) <==> exists|i: int|
        0 <= i < pm.len() && #[trigger] pm[i].0 == bs[c].0 && pm[i].1 == bs[c].1 && (pm[i].2, pm[i].3) == e) by {
        assert(bucket_matches(bs[c], gm[c]));
        assert(bs[c].2.contains(e) == gm[c].2.contains(e));
    }
    assert forall|c: int, d: int| 0 <= c < d < bs.len() implies !(#[trigger] bs[c].0 == #[trigger] bs[d].0 && bs[c].1 == bs[d].1) by {
        assert(bucket_matches(bs[c], gm[c]));
        assert(bucket_matches(bs[d], gm[d]));
    }
    assert forall|c: int| 0 <= c < bs.len() implies super::bucket_ok(locs, #[trigger] bs[c]) by {
        assert(bucket_matches(bs[c], gm[c]));
        assert(key_seen(gm, pm, pm.len() as int, c));
        let j = choose|j: int| #![trigger pm[j]] 0 <= j < pm.len() && pm[j].0 == gm[c].0 && pm[j].1 == gm[c].1;
        assert(pending_ok(locs, pm[j]));
        let es = bs[c].2;
        assert forall|k: int| 0 <= k < es.len() implies super::edge_ok(locs, #[trigger] es[k]) by {
            assert(es.contains(es[k]));
            let i = choose|i: int| 0 <= i < pm.len() && #[trigger] pm[i].0 == bs[c].0 && pm[i].1 == bs[c].1 && (pm[i].2, pm[i].3) == es[k];
            assert(pending_ok(locs, pm[i]));
            super::lemma_occurs_supported(es[k].1, locs);
        }
        assert forall|a: int, b: int| 0 <= a < es.len() && 0 <= b < es.len() && a != b implies #[trigger] es[a].0 != #[trigger] es[b].0 by {
            assert(es.contains(es[a]));
            assert(es.contains(es[b]));
            let i = choose|i: int| 0 <= i < pm.len() && #[trigger] pm[i].0 == bs[c].0 && pm[i].1 == bs[c].1 && (pm[i].2, pm[i].3) == es[a];
            let i2 = choose|i: int| 0 <= i < pm.len() && #[trigger] pm[i].0 == bs[c].0 && pm[i].1 == bs[c].1 && (pm[i].2, pm[i].3) == es[b];
            if es[a].0 == es[b].0 {
                assert(same_slot(pm[i], pm[i2]));
                assert(pm[i].3 == pm[i2].3);
                assert(es[a] == es[b]);
            }
        }
    }
    assert forall|j: int| 0 <= j < pm.len() implies super::has_bucket(bs, #[trigger] pm[j].0, pm[j].1) by {
        assert(super::has_bucket(gm, pm[j].0, pm[j].1));
        let c = choose|c: int| 0 <= c < gm.len() && #[trigger] gm[c].0 == pm[j].0 && gm[c].1 == pm[j].1;
        assert(bucket_matches(bs[c], gm[c]));
    }
    assert forall|c: int| 0 <= c < bs.len() implies #[trigger] key_seen(bs, pm, pm.len() as int, c) by {
        assert(bucket_matches(bs[c], gm[c]));
        assert(key_seen(gm, pm, pm.len() as int, c));
        let j = choose|j: int| #![trigger pm[j]] 0 <= j < pm.len() && pm[j].0 == gm[c].0 && pm[j].1 == gm[c].1;
        assert(pm[j] == pm[j]);
    }
    assert forall|i: int, j: int| 0 <= i < pm.len() && 0 <= j < pm.len() implies !pending_clash(#[trigger] pm[i], #[trigger] pm[j]) by {
        if pending_clash(pm[i], pm[j]) {
            if pm[i].2 == pm[j].2 {
                assert(same_slot(pm[i], pm[j]));
            } else {
                let h = choose|h: int| 0 <= h <= max_finite() && #[trigger] pm[i].2.has(h) && pm[j].2.has(h);
                assert(super::has_bucket(bs, pm[i].0, pm[i].1));
                let c = choose|c: int| 0 <= c < bs.len() && #[trigger] bs[c].0 == pm[i].0 && bs[c].1 == pm[i].1;
                let ei: EdgeModel = (pm[i].2, pm[i].3);
                let ej: EdgeModel = (pm[j].2, pm[j].3);
                assert(bs[c].2.contains(ei));
                assert(bs[c].2.contains(ej));
                let a = choose|a: int| 0 <= a < bs[c].2.len() && bs[c].2[a] == ei;
                let b = choose|b: int| 0 <= b < bs[c].2.len() && bs[c].2[b] == ej;
                assert(bucket_matches(bs[c], gm[c]));
                assert(bs[c].2[a].0.has(h));
            }
        }
    }
}


/// The transitions of the buckets `ts`, bucket by bucket, each in order.
pub open spec fn flatten_buckets<A: Symbol>(ts: Seq<((LocationId, A), Vec<GuardedTransition>)>) -> Seq<PendingModel>
    decreases ts.len(),
{
    if ts.len() == 0 {
        Seq::empty()
    } else {
        flatten_buckets(ts.drop_last()) + bucket_pendings(ts.last())
    }
}

/// The transitions of one bucket, in order.
pub open spec fn bucket_pendings<A: Symbol>(b: ((LocationId, A), Vec<GuardedTransition>)) -> Seq<PendingModel> {
    Seq::new(b.1@.len(), |k: int| (b.0.0@, b.0.1.key(), b.1@[k].guard@, b.1@[k].target@))
}

/// A builder content with these declared locations, initial formula,
/// accepting locations and transition buckets.
pub open spec fn parts_model<A: Symbol>(
    m: BuilderModel,
    locations: Seq<LocationId>,
    init: Formula,
    accepting: Seq<LocationId>,
    transitions: Seq<((LocationId, A), Vec<GuardedTransition>)>,
) -> bool {
    &&& strictly_sorted(m.locations)
    &&& forall|n: Seq<char>| #[trigger] m.locations.contains(n) <==> names_of(locations).contains(n)
    &&& strictly_sorted(m.accepting)
    &&& forall|n: Seq<char>| #[trigger] m.accepting.contains(n) <==> names_of(accepting).contains(n)
    &&& m.init == init
    &&& m.pending == flatten_buckets(transitions)
}

/// The transitions of `ts` as pending transitions.
fn flatten_exec<A: Symbol>(ts: &Vec<((LocationId, A), Vec<GuardedTransition>)>) -> (r: Vec<PendingTransition<A>>)
    ensures
        pendings_model(r@) == flatten_buckets(ts@),
{
    let mut out: Vec<PendingTransition<A>> = Vec::new();
    let mut i: usize = 0;
    proof {
        assert(pendings_model(out@) =~= Seq::<PendingModel>::empty());
        assert(ts@.take(0) =~= Seq::<((LocationId, A), Vec<GuardedTransition>)>::empty());
    }
    while i < ts.len()
        invariant
            i <= ts@.len(),
            pendings_model(out@) == flatten_buckets(ts@.take(i as int)),
        decreases ts@.len() - i,
    {
        let ghost base = pendings_model(out@);
        let b = &ts[i];
        let mut k: usize = 0;
        proof {
            assert(bucket_pendings(*b).take(0) =~= Seq::<PendingModel>::empty());
            assert(base + bucket_pendings(*b).take(0) =~= base);
        }
        while k < b.1.len()
            invariant
                *b == ts@[i as int],
                k <= b.1@.len(),
                pendings_model(out@) == base + bucket_pendings(*b).take(k as int),
            decreases b.1@.len() - k,
        {
            let ghost prev = pendings_model(out@);
            out.push(PendingTransition {
                loc: b.0.0.copy_id(),
                symbol: b.0.1.copy_symbol(),
                guard: b.1[k].guard,
                target: b.1[k].target.duplicate(),
            });
            proof {
                assert(bucket_pendings(*b).take(k + 1) =~= bucket_pendings(*b).take(k as int).push(
                    bucket_pendings(*b)[k as int],
                ));
                assert(pendings_model(out@) =~= prev.push(bucket_pendings(*b)[k as int]));
            }
            k = k + 1;
        }
        proof {
            assert(bucket_pendings(*b).take(k as int) =~= bucket_pendings(*b));
            assert(ts@.take(i + 1).drop_last() =~= ts@.take(i as int));
            assert(ts@.take(i + 1).last() == ts@[i as int]);
        }
        i = i + 1;
    }
    proof {
        assert(ts@.take(i as int) =~= ts@);
    }
    out
}

impl<A: Symbol> Arta<A> {
    /// Construct and validate an automaton, as [`ArtaBuilder::build`] does
    /// for a builder with these locations, initial formula, accepting
    /// locations and transitions (bucket by bucket, each in order).
    pub fn new(
        locations: Vec<LocationId>,
        init: DagStateFormula,
        accepting: Vec<LocationId>,
        transitions: Vec<((LocationId, A), Vec<GuardedTransition>)>,
    ) -> (r: Result<Arta<A>, ArtaError<A>>)
        ensures
            exists|m: BuilderModel|
                parts_model(m, locations@, init@, accepting@, transitions@) && #[trigger] build_result(r, m),
    {
        let ghost init_view = init@;
        let e: Vec<LocationId> = Vec::new();
        proof {
            assert(names_of(e@) =~= Seq::<Seq<char>>::empty());
        }
        let locs = add_all_names(e, &locations);
        let e2: Vec<LocationId> = Vec::new();
        proof {
            assert(names_of(e2@) =~= Seq::<Seq<char>>::empty());
        }
        let acc = add_all_names(e2, &accepting);
        let pending = flatten_exec(&transitions);
        let ghost m = BuilderModel {
            locations: names_of(locs@),
            init: init@,
            accepting: names_of(acc@),
            pending: pendings_model(pending@),
        };
        let r = build_parts(locs, init, acc, pending);
        proof {
            assert(parts_model(m, locations@, init_view, accepting@, transitions@));
            assert(build_result(r, m));
        }
        r
    }
}

} // verus!
