//! Alternating real-time automata: data, model and execution semantics.

pub mod builder;
pub mod execution;
pub mod simplify;

use vstd::prelude::*;

use crate::error::IntervalError;
use crate::location::{names_of, LocationId};
use crate::state_formula::formula::{lemma_sat_occurs, occurs, sat, DagStateFormula, Formula};
use crate::symbol::Symbol;
use crate::text::strictly_sorted;
use crate::time::delay::{half_is_infinite, DelayRep};
use crate::time::interval::{max_finite, Endpoint, Interval, IntervalModel};

pub use builder::ArtaBuilder;

verus! {

/// One guarded outgoing transition in a transition bucket.
#[derive(Debug, Clone, PartialEq, Eq, Hash)]
pub struct GuardedTransition {
    /// Guard interval.
    pub guard: Interval,
    /// Successor state formula.
    pub target: DagStateFormula,
}

/// The content of a guarded transition: its guard and its target.
pub type EdgeModel = (IntervalModel, Formula);

/// The content of a transition bucket: location name, symbol key, edges.
pub type BucketModel = (Seq<char>, Seq<char>, Seq<EdgeModel>);

/// The content of a guarded transition.
pub open spec fn edge_model(e: GuardedTransition) -> EdgeModel {
    (e.guard@, e.target@)
}

/// The contents of a list of guarded transitions.
pub open spec fn edges_model(s: Seq<GuardedTransition>) -> Seq<EdgeModel> {
    Seq::new(s.len(), |i: int| edge_model(s[i]))
}

/// The content of a transition bucket.
pub open spec fn bucket_model<A: Symbol>(b: ((LocationId, A), Vec<GuardedTransition>)) -> BucketModel {
    (b.0.0@, b.0.1.key(), edges_model(b.1@))
}

/// The contents of a list of transition buckets.
pub open spec fn buckets_model<A: Symbol>(s: Seq<((LocationId, A), Vec<GuardedTransition>)>) -> Seq<
    BucketModel,
> {
    Seq::new(s.len(), |i: int| bucket_model(s[i]))
}

/// The edges of the first bucket for location `n` and symbol `a`; none when
/// there is no such bucket.
pub open spec fn bucket_edges(bs: Seq<BucketModel>, n: Seq<char>, a: Seq<char>) -> Seq<EdgeModel>
    decreases bs.len(),
{
    if bs.len() == 0 {
        Seq::empty()
    } else if bs[0].0 == n && bs[0].1 == a {
        bs[0].2
    } else {
        bucket_edges(bs.drop_first(), n, a)
    }
}

/// `true` iff some bucket is keyed by location `n` and symbol `a`.
pub open spec fn has_bucket(bs: Seq<BucketModel>, n: Seq<char>, a: Seq<char>) -> bool {
    exists|i: int| 0 <= i < bs.len() && #[trigger] bs[i].0 == n && bs[i].1 == a
}

/// The target of the first edge whose guard holds `h` half units; `⊥` when
/// none does.
pub open spec fn first_enabled(es: Seq<EdgeModel>, h: int) -> Formula
    decreases es.len(),
{
    if es.len() == 0 {
        Formula::Bot
    } else if es[0].0.has(h) {
        es[0].1
    } else {
        first_enabled(es.drop_first(), h)
    }
}

/// Lexicographic order of guard sort keys: least half unit, then greatest.
pub open spec fn guard_key_le(a: IntervalModel, b: IntervalModel) -> bool {
    a.lo() < b.lo() || (a.lo() == b.lo() && guard_hi_key(a) <= guard_hi_key(b))
}

/// The second component of a guard's sort key.
pub open spec fn guard_hi_key(a: IntervalModel) -> int {
    match a.lower {
        Endpoint::Infinity => 0,
        Endpoint::Finite(_) => match a.hi() {
            Some(m) => m,
            None => 0xffff_ffff_ffff_ffff,
        },
    }
}

/// A valid edge: its guard is well formed and holds a representable delay,
/// and its target depends only on declared locations.
pub open spec fn edge_ok(locs: Seq<Seq<char>>, e: EdgeModel) -> bool {
    &&& e.0.wf()
    &&& e.0.has_witness()
    &&& supported(e.1, locs)
}

/// The names of `val` that are among `locs`.
pub open spec fn restrict(val: Set<Seq<char>>, locs: Seq<Seq<char>>) -> Set<Seq<char>> {
    Set::new(|n: Seq<char>| val.contains(n) && locs.contains(n))
}

/// The truth of `f` depends only on the locations `locs`.
pub open spec fn supported(f: Formula, locs: Seq<Seq<char>>) -> bool {
    forall|val: Set<Seq<char>>| sat(f, val) == #[trigger] sat(f, restrict(val, locs))
}

/// A formula mentioning only names of `locs` depends only on them.
pub proof fn lemma_occurs_supported(f: Formula, locs: Seq<Seq<char>>)
    requires
        forall|n: Seq<char>| #[trigger] occurs(f, n) ==> locs.contains(n),
    ensures
        supported(f, locs),
{
    assert forall|val: Set<Seq<char>>| sat(f, val) == #[trigger] sat(f, restrict(val, locs)) by {
        lemma_sat_occurs(f, val, restrict(val, locs));
    }
}

/// No delay enables two edges, and no two edges share a guard.
pub open spec fn edges_deterministic(es: Seq<EdgeModel>) -> bool {
    &&& forall|i: int, j: int, h: int|
        0 <= i < es.len() && 0 <= j < es.len() && i != j && 0 <= h <= max_finite() && #[trigger] es[i].0.has(
            h,
        ) ==> !#[trigger] es[j].0.has(h)
    &&& forall|i: int, j: int|
        0 <= i < es.len() && 0 <= j < es.len() && i != j ==> #[trigger] es[i].0 != #[trigger] es[j].0
}

/// The edges are in nondecreasing guard order.
pub open spec fn edges_sorted(es: Seq<EdgeModel>) -> bool {
    forall|i: int, j: int| 0 <= i < j < es.len() ==> guard_key_le(#[trigger] es[i].0, #[trigger] es[j].0)
}

/// A valid bucket over the declared locations `locs`.
pub open spec fn bucket_ok(locs: Seq<Seq<char>>, b: BucketModel) -> bool {
    &&& locs.contains(b.0)
    &&& forall|k: int| 0 <= k < b.2.len() ==> edge_ok(locs, #[trigger] b.2[k])
    &&& edges_sorted(b.2)
    &&& edges_deterministic(b.2)
}

/// The mathematical content of an automaton.
pub struct ArtaModel {
    /// Names of all locations, sorted.
    pub locations: Seq<Seq<char>>,
    /// Names of the accepting locations, sorted.
    pub accepting: Seq<Seq<char>>,
    /// Initial state formula.
    pub init: Formula,
    /// Transition buckets keyed by location name and symbol key.
    pub buckets: Seq<BucketModel>,
}

impl ArtaModel {
    /// The invariant of every automaton: sorted location lists, accepting
    /// and referenced locations declared, one bucket per key, every bucket
    /// valid and deterministic.
    pub open spec fn wf(self) -> bool {
        &&& strictly_sorted(self.locations)
        &&& strictly_sorted(self.accepting)
        &&& forall|i: int| 0 <= i < self.accepting.len() ==> self.locations.contains(#[trigger] self.accepting[i])
        &&& supported(self.init, self.locations)
        &&& forall|i: int, j: int|
            0 <= i < j < self.buckets.len() ==> !(#[trigger] self.buckets[i].0 == #[trigger] self.buckets[j].0
                && self.buckets[i].1 == self.buckets[j].1)
        &&& forall|i: int| 0 <= i < self.buckets.len() ==> bucket_ok(self.locations, #[trigger] self.buckets[i])
    }

    /// The formula reached from location `n` on symbol `a` after `h` half
    /// units: the target of the enabled transition, `⊥` when there is none.
    pub open spec fn target(self, n: Seq<char>, a: Seq<char>, h: u32) -> Formula {
        if half_is_infinite(h) {
            Formula::Bot
        } else {
            first_enabled(bucket_edges(self.buckets, n, a), h as int)
        }
    }

    /// The valuation before one step: a location holds iff its successor
    /// formula holds in `val`.
    pub open spec fn step_val(self, a: Seq<char>, h: u32, val: Set<Seq<char>>) -> Set<Seq<char>> {
        Set::new(|n: Seq<char>| sat_target(self, n, a, h, val))
    }

    /// The valuation before reading timed word `w` (symbol keys and half
    /// units) when `val` holds after it.
    pub open spec fn post(self, w: Seq<(Seq<char>, u32)>, val: Set<Seq<char>>) -> Set<Seq<char>>
        decreases w.len(),
    {
        if w.len() == 0 {
            val
        } else {
            self.step_val(w[0].0, w[0].1, self.post(w.drop_first(), val))
        }
    }

    /// The accepting locations as a set.
    pub open spec fn accepting_set(self) -> Set<Seq<char>> {
        Set::new(|n: Seq<char>| self.accepting.contains(n))
    }

    /// `true` iff the automaton accepts timed word `w`.
    pub open spec fn accepts(self, w: Seq<(Seq<char>, u32)>) -> bool {
        crate::state_formula::formula::sat(self.init, self.post(w, self.accepting_set()))
    }
}

/// `true` iff the successor of location `n` on `(a, h)` holds in `val`.
pub open spec fn sat_target(m: ArtaModel, n: Seq<char>, a: Seq<char>, h: u32, val: Set<Seq<char>>) -> bool {
    crate::state_formula::formula::sat(m.target(n, a, h), val)
}

/// Errors related to automaton construction or validation.
#[derive(Debug, Clone, PartialEq, Eq)]
#[non_exhaustive]
pub enum ArtaError<A> {
    /// Invalid interval used in a transition.
    InvalidInterval {
        /// Human-readable description of where the invalid interval appeared.
        context: String,
        /// Underlying interval validation failure.
        source: IntervalError,
    },
    /// Reference to an unknown location.
    UnknownLocation {
        /// Location identifier that was referenced but not declared.
        loc: LocationId,
    },
    /// Overlapping guards for the same `(location, symbol)` pair.
    NonDeterministic {
        /// Source location whose outgoing transitions overlap.
        loc: LocationId,
        /// Input symbol of the overlapping transition bucket.
        symbol: A,
        /// First overlapping guard interval.
        guard1: Interval,
        /// Second overlapping guard interval.
        guard2: Interval,
        /// Concrete delay that belongs to both guards.
        witness: DelayRep,
    },
}

/// An alternating real-time automaton.
///
/// The automaton uses partial-transition semantics: if no outgoing guard in
/// a `(location, symbol)` bucket contains the delay, the next formula is `⊥`.
/// Its view is an [`ArtaModel`], which is always well formed.
#[derive(Debug)]
pub struct Arta<A: Symbol> {
    locations: Vec<LocationId>,
    accepting: Vec<LocationId>,
    init: DagStateFormula,
    transitions: Vec<((LocationId, A), Vec<GuardedTransition>)>,
}

impl<A: Symbol> View for Arta<A> {
    type V = ArtaModel;

    closed spec fn view(&self) -> ArtaModel {
        ArtaModel {
            locations: names_of(self.locations@),
            accepting: names_of(self.accepting@),
            init: self.init@,
            buckets: buckets_model(self.transitions@),
        }
    }
}

impl<A: Symbol> Arta<A> {
    /// Every automaton is well formed.
    #[verifier::type_invariant]
    pub open spec fn inv(&self) -> bool {
        self@.wf()
    }

    /// Assemble an automaton from parts that already satisfy the invariant.
    pub(crate) fn from_parts(
        locations: Vec<LocationId>,
        accepting: Vec<LocationId>,
        init: DagStateFormula,
        transitions: Vec<((LocationId, A), Vec<GuardedTransition>)>,
    ) -> (r: Arta<A>)
        requires
            (ArtaModel {
                locations: names_of(locations@),
                accepting: names_of(accepting@),
                init: init@,
                buckets: buckets_model(transitions@),
            }).wf(),
        ensures
            r@ == (ArtaModel {
                locations: names_of(locations@),
                accepting: names_of(accepting@),
                init: init@,
                buckets: buckets_model(transitions@),
            }),
    {
        Arta { locations, accepting, init, transitions }
    }

    /// Borrow all locations, sorted by name.
    pub fn locations(&self) -> (r: &[LocationId])
        ensures
            names_of(r@) == self@.locations,
    {
        self.locations.as_slice()
    }

    /// Borrow the accepting locations, sorted by name.
    pub fn accepting(&self) -> (r: &[LocationId])
        ensures
            names_of(r@) == self@.accepting,
    {
        self.accepting.as_slice()
    }

    /// Borrow the initial state formula.
    pub fn init(&self) -> (r: &DagStateFormula)
        ensures
            r@ == self@.init,
    {
        &self.init
    }

    /// Borrow the transition relation: one bucket per `(location, symbol)`,
    /// each sorted by guard bounds.
    pub fn transitions(&self) -> (r: &[((LocationId, A), Vec<GuardedTransition>)])
        ensures
            buckets_model(r@) == self@.buckets,
    {
        self.transitions.as_slice()
    }

    /// The largest finite integer endpoint used in any guard (`0` without
    /// guards); `+∞` upper endpoints are ignored.
    pub fn max_guard_constant(&self) -> (r: u32)
        ensures
            forall|i: int, k: int|
                0 <= i < self@.buckets.len() && 0 <= k < self@.buckets[i].2.len() ==> guard_constants_le(
                    #[trigger] self@.buckets[i].2[k].0,
                    r,
                ),
            r == 0 || exists|i: int, k: int|
                0 <= i < self@.buckets.len() && 0 <= k < self@.buckets[i].2.len() && guard_attains(
                    #[trigger] self@.buckets[i].2[k].0,
                    r,
                ),
    {
        let mut max_constant: u32 = 0;
        let mut i: usize = 0;
        while i < self.transitions.len()
            invariant
                i <= self@.buckets.len(),
                self@.buckets == buckets_model(self.transitions@),
                forall|a: int, k: int|
                    0 <= a < i && 0 <= k < self@.buckets[a].2.len() ==> guard_constants_le(
                        #[trigger] self@.buckets[a].2[k].0,
                        max_constant,
                    ),
                max_constant == 0 || exists|a: int, k: int|
                    0 <= a < i && 0 <= k < self@.buckets[a].2.len() && guard_attains(
                        #[trigger] self@.buckets[a].2[k].0,
                        max_constant,
                    ),
            decreases self@.buckets.len() - i,
        {
            let edges = &self.transitions[i].1;
            let ghost es = self@.buckets[i as int].2;
            assert(es == edges_model(edges@));
            let mut k: usize = 0;
            while k < edges.len()
                invariant
                    i < self@.buckets.len(),
                    self@.buckets == buckets_model(self.transitions@),
                    es == self@.buckets[i as int].2,
                    es == edges_model(edges@),
                    k <= edges@.len(),
                    forall|a: int, j: int|
                        0 <= a < i && 0 <= j < self@.buckets[a].2.len() ==> guard_constants_le(
                            #[trigger] self@.buckets[a].2[j].0,
                            max_constant,
                        ),
                    forall|j: int| 0 <= j < k ==> guard_constants_le(#[trigger] es[j].0, max_constant),
                    max_constant == 0 || (exists|a: int, j: int|
                        0 <= a < i && 0 <= j < self@.buckets[a].2.len() && guard_attains(
                            #[trigger] self@.buckets[a].2[j].0,
                            max_constant,
                        )) || (exists|j: int| 0 <= j < k && guard_attains(#[trigger] es[j].0, max_constant)),
                decreases edges@.len() - k,
            {
                let g = edges[k].guard;
                let lb = g.lower_bound();
                let ghost before = max_constant;
                if lb > max_constant {
                    max_constant = lb;
                }
                match g.upper_bound() {
                    Some(upper) => {
                        if upper > max_constant {
                            max_constant = upper;
                        }
                    },
                    None => {},
                }
                proof {
                    assert(es[k as int].0 == g@);
                    if max_constant != before {
                        assert(guard_attains(es[k as int].0, max_constant));
                    }
                }
                k = k + 1;
            }
            proof {
                assert forall|a: int, j: int|
                    0 <= a < i + 1 && 0 <= j < self@.buckets[a].2.len() implies guard_constants_le(
                        #[trigger] self@.buckets[a].2[j].0,
                        max_constant,
                    ) by {
                    if a == i {
                        assert(self@.buckets[a].2[j] == es[j]);
                    }
                }
                if max_constant != 0 {
                    if exists|j: int| 0 <= j < k && guard_attains(#[trigger] es[j].0, max_constant) {
                        let j = choose|j: int| 0 <= j < k && guard_attains(#[trigger] es[j].0, max_constant);
                        assert(guard_attains(self@.buckets[i as int].2[j].0, max_constant));
                    }
                }
            }
            i = i + 1;
        }
        max_constant
    }

    /// The outgoing guarded transitions for `(loc, symbol)`, sorted by guard
    /// bounds, if that bucket exists.
    pub fn outgoing(&self, loc: &LocationId, symbol: &A) -> (r: Option<&[GuardedTransition]>)
        ensures
            r is Some <==> has_bucket(self@.buckets, loc@, symbol.key()),
            r is Some ==> edges_model(r->Some_0@) == bucket_edges(self@.buckets, loc@, symbol.key()),
    {
        match self.find_bucket(loc, symbol) {
            Some(i) => Some(self.transitions[i].1.as_slice()),
            None => None,
        }
    }

    /// The index of the bucket for `(loc, symbol)`.
    fn find_bucket(&self, loc: &LocationId, symbol: &A) -> (r: Option<usize>)
        ensures
            r is Some <==> has_bucket(self@.buckets, loc@, symbol.key()),
            r is Some ==> r->Some_0 < self.transitions@.len() && edges_model(self.transitions@[r->Some_0 as int].1@)
                == bucket_edges(self@.buckets, loc@, symbol.key()),
    {
        let ghost bs = self@.buckets;
        let mut i: usize = 0;
        assert(bs.skip(0) =~= bs);
        while i < self.transitions.len()
            invariant
                bs == self@.buckets,
                bs == buckets_model(self.transitions@),
                i <= bs.len(),
                bucket_edges(bs, loc@, symbol.key()) == bucket_edges(bs.skip(i as int), loc@, symbol.key()),
                forall|j: int| 0 <= j < i ==> !(#[trigger] bs[j].0 == loc@ && bs[j].1 == symbol.key()),
            decreases bs.len() - i,
        {
            let b = &self.transitions[i];
            proof {
                assert(bs.skip(i as int).drop_first() =~= bs.skip(i + 1));
                assert(bs.skip(i as int)[0] == bs[i as int]);
            }
            if b.0.0.same(loc) && b.0.1.same_symbol(symbol) {
                return Some(i);
            }
            i = i + 1;
        }
        None
    }
}

/// Both finite endpoints of guard `g` are at most `c`.
pub open spec fn guard_constants_le(g: IntervalModel, c: u32) -> bool {
    &&& (match g.lower {
        Endpoint::Finite(n) => n <= c,
        Endpoint::Infinity => true,
    })
    &&& (match g.upper {
        Endpoint::Finite(n) => n <= c,
        Endpoint::Infinity => true,
    })
}

/// A finite endpoint of guard `g` equals `c`.
pub open spec fn guard_attains(g: IntervalModel, c: u32) -> bool {
    g.lower == Endpoint::Finite(c) || g.upper == Endpoint::Finite(c)
}


/// An exact copy of a guarded transition.
pub fn copy_transition(e: &GuardedTransition) -> (r: GuardedTransition)
    ensures
        edge_model(r) == edge_model(*e),
{
    GuardedTransition { guard: e.guard, target: e.target.duplicate() }
}

/// Exact copies of guarded transitions.
pub fn copy_transitions(v: &Vec<GuardedTransition>) -> (r: Vec<GuardedTransition>)
    ensures
        edges_model(r@) == edges_model(v@),
{
    let mut r: Vec<GuardedTransition> = Vec::new();
    let mut i: usize = 0;
    while i < v.len()
        invariant
            i <= v@.len(),
            r@.len() == i,
            forall|j: int| 0 <= j < i ==> #[trigger] edge_model(r@[j]) == edge_model(v@[j]),
        decreases v@.len() - i,
    {
        r.push(copy_transition(&v[i]));
        i = i + 1;
    }
    assert(edges_model(r@) =~= edges_model(v@));
    r
}

/// Exact copies of location identifiers.
pub(crate) fn copy_location_list(v: &Vec<LocationId>) -> (r: Vec<LocationId>)
    ensures
        r@ == v@,
{
    let mut r: Vec<LocationId> = Vec::new();
    let mut i: usize = 0;
    while i < v.len()
        invariant
            i <= v@.len(),
            r@ == v@.take(i as int),
        decreases v@.len() - i,
    {
        r.push(v[i].copy_id());
        proof {
            assert(v@.take(i + 1) =~= v@.take(i as int).push(v@[i as int]));
        }
        i = i + 1;
    }
    assert(v@.take(i as int) =~= v@);
    r
}

impl<A: Symbol> Clone for Arta<A> {
    fn clone(&self) -> (r: Self)
        ensures
            r@ == self@,
    {
        proof {
            use_type_invariant(self);
        }
        let mut transitions: Vec<((LocationId, A), Vec<GuardedTransition>)> = Vec::new();
        let mut i: usize = 0;
        while i < self.transitions.len()
            invariant
                i <= self.transitions@.len(),
                transitions@.len() == i,
                forall|j: int| 0 <= j < i ==> #[trigger] bucket_model(transitions@[j]) == bucket_model(self.transitions@[j]),
            decreases self.transitions@.len() - i,
        {
            let b = &self.transitions[i];
            transitions.push(((b.0.0.copy_id(), b.0.1.copy_symbol()), copy_transitions(&b.1)));
            i = i + 1;
        }
        assert(buckets_model(transitions@) =~= buckets_model(self.transitions@));
        Arta {
            locations: copy_location_list(&self.locations),
            accepting: copy_location_list(&self.accepting),
            init: self.init.duplicate(),
            transitions,
        }
    }
}


/// With no other edge enabled at `h`, the first enabled edge is edge `a`.
pub proof fn lemma_first_enabled_unique(es: Seq<EdgeModel>, a: int, h: int)
    requires
        0 <= a < es.len(),
        es[a].0.has(h),
        forall|k: int| 0 <= k < es.len() && k != a ==> !(#[trigger] es[k]).0.has(h),
    ensures
        first_enabled(es, h) == es[a].1,
    decreases es.len(),
{
    if a > 0 {
        assert(!es[0].0.has(h));
        assert forall|k: int| 0 <= k < es.drop_first().len() && k != a - 1 implies !(#[trigger] es.drop_first()[k]).0.has(h) by {
            assert(es.drop_first()[k] == es[k + 1]);
        }
        lemma_first_enabled_unique(es.drop_first(), a - 1, h);
    }
}

/// With no edge enabled at `h`, there is no successor.
pub proof fn lemma_first_enabled_none(es: Seq<EdgeModel>, h: int)
    requires
        forall|k: int| 0 <= k < es.len() ==> !(#[trigger] es[k]).0.has(h),
    ensures
        first_enabled(es, h) == Formula::Bot,
    decreases es.len(),
{
    if es.len() > 0 {
        assert(!es[0].0.has(h));
        assert forall|k: int| 0 <= k < es.drop_first().len() implies !(#[trigger] es.drop_first()[k]).0.has(h) by {
            assert(es.drop_first()[k] == es[k + 1]);
        }
        lemma_first_enabled_none(es.drop_first(), h);
    }
}

/// With pairwise distinct keys, the edges of a bucket's key are its edges.
pub proof fn lemma_bucket_edges_at(bs: Seq<BucketModel>, i: int)
    requires
        0 <= i < bs.len(),
        forall|a: int, b: int| 0 <= a < b < bs.len() ==> !(#[trigger] bs[a].0 == #[trigger] bs[b].0 && bs[a].1 == bs[b].1),
    ensures
        bucket_edges(bs, bs[i].0, bs[i].1) == bs[i].2,
    decreases bs.len(),
{
    if i > 0 {
        assert(!(bs[0].0 == bs[i].0 && bs[0].1 == bs[i].1));
        let t = bs.drop_first();
        assert forall|a: int, b: int| 0 <= a < b < t.len() implies !(#[trigger] t[a].0 == #[trigger] t[b].0 && t[a].1 == t[b].1) by {
            assert(t[a] == bs[a + 1] && t[b] == bs[b + 1]);
        }
        assert(t[i - 1] == bs[i]);
        lemma_bucket_edges_at(t, i - 1);
    }
}

/// Without a bucket for `n` and `a` there are no edges for them.
pub proof fn lemma_no_bucket_no_edges(bs: Seq<BucketModel>, n: Seq<char>, a: Seq<char>)
    requires
        !has_bucket(bs, n, a),
    ensures
        bucket_edges(bs, n, a).len() == 0,
    decreases bs.len(),
{
    if bs.len() > 0 {
        assert(!(bs[0].0 == n && bs[0].1 == a));
        assert forall|i: int| 0 <= i < bs.drop_first().len() implies !(#[trigger] bs.drop_first()[i].0 == n
            && bs.drop_first()[i].1 == a) by {
            assert(bs.drop_first()[i] == bs[i + 1]);
        }
        lemma_no_bucket_no_edges(bs.drop_first(), n, a);
    }
}

} // verus!
