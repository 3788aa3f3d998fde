//! Positive Boolean formulas over basis variables, kept in a canonical
//! DNF-oriented shape: `⊤`, `⊥`, a conjunction of variables, or a
//! disjunction of conjunctions.

use vstd::prelude::*;

use crate::rowvec::{ones_of, RowVec, RowVecError};
use crate::text::{decimal, decimal_string, lemma_sorted_insert, lemma_sorted_unique, push_char, push_str, sorted_by, strict_order};

verus! {

broadcast use {vstd::std_specs::vec::axiom_vec_decreases_to_view, vstd::std_specs::vec::axiom_vec_index_decreases};

/// Variable identifier for basis states: `BasisVar(i)` is the `i`th basis row.
#[derive(Copy, Clone, Debug, PartialEq, Eq, Hash, PartialOrd, Ord, Structural)]
pub struct BasisVar(pub usize);

/// The mathematical content of a [`BasisFormula`]: a conjunction is the
/// sequence of its variable indices.
pub enum BasisModel {
    Top,
    Bot,
    And(Seq<usize>),
    Or(Seq<BasisModel>),
}

/// Positive Boolean formula over [`BasisVar`].
///
/// Built through [`BasisFormula::and`] and [`BasisFormula::or`] it is
/// canonical: conjunctions hold sorted distinct variables and disjunctions
/// hold sorted distinct conjunctions.
#[derive(Debug, PartialEq, Eq, Hash, PartialOrd, Ord)]
pub enum BasisFormula {
    /// Constant `⊤`.
    Top,
    /// Constant `⊥`.
    Bot,
    /// Conjunction term over basis variables.
    And(Vec<BasisVar>),
    /// Disjunction over terms.
    Or(Vec<BasisFormula>),
}

/// Exact copies of the formulas `ts`.
fn duplicate_all(ts: &Vec<BasisFormula>) -> (r: Vec<BasisFormula>)
    ensures
        basis_views(r@) == basis_views(ts@),
    decreases ts,
{
    let mut out: Vec<BasisFormula> = Vec::new();
    let mut i: usize = 0;
    while i < ts.len()
        invariant
            i <= ts@.len(),
            out@.len() == i,
            forall|k: int| 0 <= k < i ==> (#[trigger] out@[k])@ == ts@[k]@,
        decreases ts@.len() - i,
    {
        proof {
            assert(decreases_to!(ts => ts@[i as int]));
        }
        let t = ts[i].duplicate();
        out.push(t);
        i = i + 1;
    }
    assert(basis_views(out@) =~= basis_views(ts@));
    out
}

impl Clone for BasisFormula {
    fn clone(&self) -> (r: Self)
        ensures
            r@ == self@,
    {
        self.duplicate()
    }
}

/// The variable indices of `vs`.
pub open spec fn indices_of(vs: Seq<BasisVar>) -> Seq<usize> {
    Seq::new(vs.len(), |i: int| vs[i].0)
}

/// The view of a basis formula.
pub closed spec fn bview(f: BasisFormula) -> BasisModel
    decreases f,
{
    match f {
        BasisFormula::Top => BasisModel::Top,
        BasisFormula::Bot => BasisModel::Bot,
        BasisFormula::And(vs) => BasisModel::And(indices_of(vs@)),
        BasisFormula::Or(ts) => BasisModel::Or(bviews(ts@)),
    }
}

/// The views of a sequence of basis formulas.
pub closed spec fn bviews(s: Seq<BasisFormula>) -> Seq<BasisModel>
    decreases s,
{
    if s.len() == 0 {
        Seq::empty()
    } else {
        seq![bview(s[0])] + bviews(s.drop_first())
    }
}

impl View for BasisFormula {
    type V = BasisModel;

    closed spec fn view(&self) -> BasisModel {
        bview(*self)
    }
}

/// The views of the formulas of `s`, elementwise.
pub open spec fn basis_views(s: Seq<BasisFormula>) -> Seq<BasisModel> {
    Seq::new(s.len(), |i: int| s[i]@)
}

proof fn lemma_bviews(s: Seq<BasisFormula>)
    ensures
        bviews(s) == basis_views(s),
    decreases s.len(),
{
    if s.len() > 0 {
        lemma_bviews(s.drop_first());
        assert forall|i: int| 0 <= i < s.len() implies #[trigger] bviews(s)[i] == s[i]@ by {
            if i > 0 {
                assert(s.drop_first()[i - 1] == s[i]);
            }
        }
    }
    assert(bviews(s) =~= basis_views(s));
}

/// The view of a formula, one level deep.
pub proof fn lemma_bview_unfold(f: BasisFormula)
    ensures
        f@ == match f {
            BasisFormula::Top => BasisModel::Top,
            BasisFormula::Bot => BasisModel::Bot,
            BasisFormula::And(vs) => BasisModel::And(indices_of(vs@)),
            BasisFormula::Or(ts) => BasisModel::Or(basis_views(ts@)),
        },
{
    match f {
        BasisFormula::Or(ts) => lemma_bviews(ts@),
        _ => {},
    }
}

/// `true` iff `f` holds when exactly the basis variables in `val` are true.
pub open spec fn bsat(f: BasisModel, val: Set<usize>) -> bool
    decreases f,
{
    match f {
        BasisModel::Top => true,
        BasisModel::Bot => false,
        BasisModel::And(vs) => forall|i: int| 0 <= i < vs.len() ==> val.contains(#[trigger] vs[i]),
        BasisModel::Or(ts) => exists|i: int| 0 <= i < ts.len() && bsat(#[trigger] ts[i], val),
    }
}

/// A conjunction holds iff all its variables are true.
pub proof fn lemma_bsat_and(vs: Seq<usize>, val: Set<usize>)
    ensures
        bsat(BasisModel::And(vs), val) == (forall|i: int| 0 <= i < vs.len() ==> val.contains(#[trigger] vs[i])),
{
    let f = BasisModel::And(vs);
    if bsat(f, val) {
        assert forall|i: int| 0 <= i < vs.len() implies val.contains(#[trigger] vs[i]) by {
            assert(f->And_0[i] == vs[i]);
        }
    }
    if forall|i: int| 0 <= i < vs.len() ==> val.contains(#[trigger] vs[i]) {
        assert forall|i: int| 0 <= i < f->And_0.len() implies val.contains(#[trigger] f->And_0[i]) by {
            assert(f->And_0[i] == vs[i]);
        }
    }
}

/// A disjunction holds iff one of its terms holds.
pub proof fn lemma_bsat_or(ts: Seq<BasisModel>, val: Set<usize>)
    ensures
        bsat(BasisModel::Or(ts), val) == (exists|i: int| 0 <= i < ts.len() && bsat(#[trigger] ts[i], val)),
{
    let f = BasisModel::Or(ts);
    if bsat(f, val) {
        let i = choose|i: int| 0 <= i < f->Or_0.len() && bsat(#[trigger] f->Or_0[i], val);
        assert(bsat(ts[i], val));
    }
    if exists|i: int| 0 <= i < ts.len() && bsat(#[trigger] ts[i], val) {
        let i = choose|i: int| 0 <= i < ts.len() && bsat(#[trigger] ts[i], val);
        assert(bsat(f->Or_0[i], val));
    }
}

/// `true` iff every index of `t` is in `val`.
pub open spec fn all_in(t: Seq<usize>, val: Set<usize>) -> bool {
    forall|i: int| 0 <= i < t.len() ==> val.contains(#[trigger] t[i])
}

/// A formula holds iff it holds `⊤` somewhere along its disjunctions or one
/// of its conjunctions has all its variables true.
proof fn lemma_bsat_flat(m: BasisModel, val: Set<usize>)
    ensures
        bsat(m, val) == (has_top(m) || exists|t: Seq<usize>| #[trigger] has_term(m, t) && all_in(t, val)),
    decreases m,
{
    match m {
        BasisModel::Top => {},
        BasisModel::Bot => {},
        BasisModel::And(vs) => {
            lemma_bsat_and(vs, val);
            assert(has_term(m, vs));
        },
        BasisModel::Or(ts) => {
            lemma_bsat_or(ts, val);
            lemma_has_top_or(ts);
            assert forall|i: int| 0 <= i < ts.len() implies #[trigger] bsat(ts[i], val) == (has_top(ts[i])
                || exists|t: Seq<usize>| #[trigger] has_term(ts[i], t) && all_in(t, val)) by {
                lemma_bsat_flat(ts[i], val);
            }
            if bsat(m, val) && !has_top(m) {
                let i = choose|i: int| 0 <= i < ts.len() && bsat(#[trigger] ts[i], val);
                assert(!has_top(ts[i]));
                let t = choose|t: Seq<usize>| #[trigger] has_term(ts[i], t) && all_in(t, val);
                lemma_has_term_or(ts, t);
                assert(has_term(m, t));
            }
            if exists|t: Seq<usize>| #[trigger] has_term(m, t) && all_in(t, val) {
                let t = choose|t: Seq<usize>| #[trigger] has_term(m, t) && all_in(t, val);
                lemma_has_term_or(ts, t);
                let i = choose|i: int| 0 <= i < ts.len() && has_term(#[trigger] ts[i], t);
                assert(bsat(ts[i], val));
            }
            if has_top(m) {
                let i = choose|i: int| 0 <= i < ts.len() && has_top(#[trigger] ts[i]);
                assert(bsat(ts[i], val));
            }
        },
    }
}

/// A canonical conjunction holds iff all its indices are true.
pub proof fn lemma_canonical_and_sat(vs: Seq<usize>, val: Set<usize>)
    requires
        and_well_defined(vs),
    ensures
        bsat(canonical_and(vs), val) == all_in(vs, val),
{
    if vs.len() > 0 {
        let l = sorted_indices(vs.to_set());
        lemma_bsat_and(l, val);
        if all_in(vs, val) {
            assert forall|i: int| 0 <= i < l.len() implies val.contains(#[trigger] l[i]) by {
                assert(l.to_set().contains(l[i]));
                let j = choose|j: int| 0 <= j < vs.len() && vs[j] == l[i];
                assert(val.contains(vs[j]));
            }
        }
        if bsat(canonical_and(vs), val) {
            assert forall|i: int| 0 <= i < vs.len() implies val.contains(#[trigger] vs[i]) by {
                assert(vs.to_set().contains(vs[i]));
                let j = choose|j: int| 0 <= j < l.len() && l[j] == vs[i];
                assert(val.contains(l[j]));
            }
        }
    }
}

/// A canonical disjunction holds iff one of its terms holds.
pub proof fn lemma_canonical_or_sat(ms: Seq<BasisModel>, val: Set<usize>)
    requires
        or_well_defined(ms),
    ensures
        bsat(canonical_or(ms), val) == exists|i: int| 0 <= i < ms.len() && bsat(#[trigger] ms[i], val),
{
    assert forall|i: int| 0 <= i < ms.len() implies #[trigger] bsat(ms[i], val) == (has_top(ms[i])
        || exists|t: Seq<usize>| #[trigger] has_term(ms[i], t) && all_in(t, val)) by {
        lemma_bsat_flat(ms[i], val);
    }
    if exists|i: int| 0 <= i < ms.len() && has_top(#[trigger] ms[i]) {
        let i = choose|i: int| 0 <= i < ms.len() && has_top(#[trigger] ms[i]);
        assert(bsat(ms[i], val));
    } else {
        let s = terms_of(ms);
        let l = sorted_terms(s);
        let rhs = exists|i: int| 0 <= i < ms.len() && bsat(#[trigger] ms[i], val);
        assert(rhs == exists|t: Seq<usize>| s.contains(t) && all_in(t, val)) by {
            if rhs {
                let i = choose|i: int| 0 <= i < ms.len() && bsat(#[trigger] ms[i], val);
                let t = choose|t: Seq<usize>| #[trigger] has_term(ms[i], t) && all_in(t, val);
                assert(s.contains(t));
            }
            if exists|t: Seq<usize>| s.contains(t) && all_in(t, val) {
                let t = choose|t: Seq<usize>| s.contains(t) && all_in(t, val);
                let i = choose|i: int| 0 <= i < ms.len() && has_term(#[trigger] ms[i], t);
                assert(bsat(ms[i], val));
            }
        }
        if l.len() == 0 {
            if exists|t: Seq<usize>| s.contains(t) && all_in(t, val) {
                let t = choose|t: Seq<usize>| s.contains(t) && all_in(t, val);
                assert(l.to_set().contains(t));
            }
        } else if l.len() == 1 {
            assert(l.to_set().contains(l[0]));
            if exists|t: Seq<usize>| s.contains(t) && all_in(t, val) {
                let t = choose|t: Seq<usize>| s.contains(t) && all_in(t, val);
                assert(l.to_set().contains(t));
                let j = choose|j: int| 0 <= j < l.len() && l[j] == t;
                assert(j == 0);
            }
            lemma_bsat_and(l[0], val);
        } else {
            let ts = Seq::new(l.len(), |i: int| BasisModel::And(l[i]));
            lemma_bsat_or(ts, val);
            assert forall|j: int| 0 <= j < ts.len() implies #[trigger] bsat(ts[j], val) == all_in(l[j], val) by {
                lemma_bsat_and(l[j], val);
            }
            if exists|t: Seq<usize>| s.contains(t) && all_in(t, val) {
                let t = choose|t: Seq<usize>| s.contains(t) && all_in(t, val);
                assert(l.to_set().contains(t));
                let j = choose|j: int| 0 <= j < l.len() && l[j] == t;
                assert(bsat(ts[j], val));
            }
            if bsat(canonical_or(ms), val) {
                let j = choose|j: int| 0 <= j < ts.len() && bsat(#[trigger] ts[j], val);
                assert(l.to_set().contains(l[j]));
                assert(s.contains(l[j]) && all_in(l[j], val));
            }
        }
    }
}

/// In a sorted sequence without `x`, the position before which everything
/// is smaller than `x` and at which the element is greater.
proof fn lemma_insert_position(s: Seq<Seq<usize>>, x: Seq<usize>) -> (p: int)
    requires
        sorted_by(s, index_seq_lt_fn()),
        !s.contains(x),
    ensures
        0 <= p <= s.len(),
        forall|j: int| 0 <= j < p ==> index_seq_lt(#[trigger] s[j], x),
        p < s.len() ==> index_seq_lt(x, s[p]),
    decreases s.len(),
{
    if s.len() == 0 {
        0
    } else if index_seq_lt(s[s.len() - 1], x) {
        let p = s.len() as int;
        assert forall|j: int| 0 <= j < p implies index_seq_lt(#[trigger] s[j], x) by {
            if j < p - 1 {
                assert(index_seq_lt_fn()(s[j], s[p - 1]));
                lemma_index_seq_lt_transitive(s[j], s[p - 1], x);
            }
        }
        p
    } else {
        let t = s.drop_last();
        assert(sorted_by(t, index_seq_lt_fn())) by {
            assert forall|a: int, b: int| 0 <= a < b < t.len() implies index_seq_lt_fn()(t[a], t[b]) by {
                assert(t[a] == s[a] && t[b] == s[b]);
            }
        }
        assert(!t.contains(x)) by {
            if t.contains(x) {
                let j = choose|j: int| 0 <= j < t.len() && t[j] == x;
                assert(s[j] == x);
            }
        }
        let p = lemma_insert_position(t, x);
        assert(s[s.len() - 1] != x);
        lemma_index_seq_lt_total(x, s[s.len() - 1]);
        assert forall|j: int| 0 <= j < p implies index_seq_lt(#[trigger] s[j], x) by {
            assert(s[j] == t[j]);
        }
        if p < t.len() {
            assert(s[p] == t[p]);
        }
        p
    }
}

/// Every finite list of index sequences has a strictly sorted list with the
/// same elements, so `sorted_terms` of its set is that list.
pub proof fn lemma_sorted_terms_exist(l: Seq<Seq<usize>>)
    ensures
        sorted_by(sorted_terms(l.to_set()), index_seq_lt_fn()),
        sorted_terms(l.to_set()).to_set() == l.to_set(),
    decreases l.len(),
{
    lemma_index_orders_strict();
    if l.len() == 0 {
        let e = Seq::<Seq<usize>>::empty();
        assert(e.to_set() =~= l.to_set());
        assert(sorted_by(e, index_seq_lt_fn()));
    } else {
        let t = l.drop_last();
        let x = l[l.len() - 1];
        lemma_sorted_terms_exist(t);
        let s = sorted_terms(t.to_set());
        assert(l =~= t.push(x));
        t.lemma_push_to_set_commute(x);
        if s.contains(x) {
            assert(s.to_set().contains(x));
            assert(s.to_set().insert(x) =~= s.to_set());
            assert(sorted_by(s, index_seq_lt_fn()) && s.to_set() == l.to_set());
        } else {
            let p = lemma_insert_position(s, x);
            assert forall|j: int| 0 <= j < p implies index_seq_lt_fn()(#[trigger] s[j], x) by {
                assert(index_seq_lt(s[j], x));
            }
            lemma_sorted_insert(s, p, x, index_seq_lt_fn());
            let w = s.insert(p, x);
            assert(sorted_by(w, index_seq_lt_fn()) && w.to_set() == l.to_set());
        }
    }
}

/// A strictly increasing list of indices is its own sorted list.
pub proof fn lemma_increasing_and_well_defined(vs: Seq<usize>)
    requires
        forall|j: int, k: int| 0 <= j < k < vs.len() ==> vs[j] < vs[k],
    ensures
        and_well_defined(vs),
        vs.len() > 0 ==> canonical_and(vs) == BasisModel::And(vs),
{
    lemma_index_orders_strict();
    assert(sorted_by(vs, index_lt_fn()));
    let l = sorted_indices(vs.to_set());
    assert(sorted_by(l, index_lt_fn()) && l.to_set() == vs.to_set());
    lemma_sorted_unique(l, vs, index_lt_fn());
}

/// Lexicographic strict order on index sequences; a proper prefix comes
/// first.
pub open spec fn index_seq_lt(a: Seq<usize>, b: Seq<usize>) -> bool
    decreases a.len(),
{
    if a.len() == 0 {
        b.len() > 0
    } else if b.len() == 0 {
        false
    } else if a[0] != b[0] {
        a[0] < b[0]
    } else {
        index_seq_lt(a.drop_first(), b.drop_first())
    }
}

/// `index_seq_lt` as a first-class order.
pub open spec fn index_seq_lt_fn() -> spec_fn(Seq<usize>, Seq<usize>) -> bool {
    |a: Seq<usize>, b: Seq<usize>| index_seq_lt(a, b)
}

/// `<` on indices as a first-class order.
pub open spec fn index_lt_fn() -> spec_fn(usize, usize) -> bool {
    |a: usize, b: usize| a < b
}

proof fn lemma_index_seq_lt_irreflexive(a: Seq<usize>)
    ensures
        !index_seq_lt(a, a),
    decreases a.len(),
{
    if a.len() > 0 {
        lemma_index_seq_lt_irreflexive(a.drop_first());
    }
}

proof fn lemma_index_seq_lt_transitive(a: Seq<usize>, b: Seq<usize>, c: Seq<usize>)
    requires
        index_seq_lt(a, b),
        index_seq_lt(b, c),
    ensures
        index_seq_lt(a, c),
    decreases a.len(),
{
    if a.len() > 0 && b.len() > 0 && c.len() > 0 {
        if a[0] == b[0] && b[0] == c[0] {
            lemma_index_seq_lt_transitive(a.drop_first(), b.drop_first(), c.drop_first());
        }
    }
}

proof fn lemma_index_seq_lt_total(a: Seq<usize>, b: Seq<usize>)
    requires
        a != b,
    ensures
        index_seq_lt(a, b) || index_seq_lt(b, a),
    decreases a.len(),
{
    if a.len() > 0 && b.len() > 0 && a[0] == b[0] {
        if a.drop_first() == b.drop_first() {
            assert(a =~= seq![a[0]] + a.drop_first());
            assert(b =~= seq![b[0]] + b.drop_first());
        }
        lemma_index_seq_lt_total(a.drop_first(), b.drop_first());
    } else if a.len() == 0 && b.len() == 0 {
        assert(a =~= b);
    }
}

/// Both orders are strict orders.
pub proof fn lemma_index_orders_strict()
    ensures
        strict_order(index_seq_lt_fn()),
        strict_order(index_lt_fn()),
{
    assert forall|x: Seq<usize>| !#[trigger] index_seq_lt_fn()(x, x) by {
        lemma_index_seq_lt_irreflexive(x);
    }
    assert forall|x: Seq<usize>, y: Seq<usize>, z: Seq<usize>|
        #[trigger] index_seq_lt_fn()(x, y) && #[trigger] index_seq_lt_fn()(y, z) implies index_seq_lt_fn()(x, z) by {
        lemma_index_seq_lt_transitive(x, y, z);
    }
}

/// The strictly increasing list of the indices in the finite set `s`.
pub open spec fn sorted_indices(s: Set<usize>) -> Seq<usize> {
    choose|l: Seq<usize>| sorted_by(l, index_lt_fn()) && l.to_set() == s
}

/// The strictly sorted list of the index sequences in the finite set `s`.
pub open spec fn sorted_terms(s: Set<Seq<usize>>) -> Seq<Seq<usize>> {
    choose|l: Seq<Seq<usize>>| sorted_by(l, index_seq_lt_fn()) && l.to_set() == s
}

/// The canonical conjunction of the indices `vs`: `⊤` when there are none.
pub open spec fn canonical_and(vs: Seq<usize>) -> BasisModel {
    if vs.len() == 0 {
        BasisModel::Top
    } else {
        BasisModel::And(sorted_indices(vs.to_set()))
    }
}

/// The sorted list that `canonical_and(vs)` uses exists: it is strictly
/// increasing and holds exactly the indices of `vs`.
pub open spec fn and_well_defined(vs: Seq<usize>) -> bool {
    sorted_by(sorted_indices(vs.to_set()), index_lt_fn()) && sorted_indices(vs.to_set()).to_set() == vs.to_set()
}

/// Where `canonical_or(ms)` uses a sorted list, it exists: it is strictly
/// sorted and holds exactly the conjunctions of `ms`.
pub open spec fn or_well_defined(ms: Seq<BasisModel>) -> bool {
    (exists|i: int| 0 <= i < ms.len() && has_top(#[trigger] ms[i])) || (sorted_by(
        sorted_terms(terms_of(ms)),
        index_seq_lt_fn(),
    ) && sorted_terms(terms_of(ms)).to_set() == terms_of(ms))
}

/// `true` iff `f` holds `⊤` at its top or inside nested disjunctions.
pub open spec fn has_top(f: BasisModel) -> bool
    decreases f,
{
    match f {
        BasisModel::Top => true,
        BasisModel::Or(ts) => exists|i: int| 0 <= i < ts.len() && has_top(#[trigger] ts[i]),
        _ => false,
    }
}

/// `true` iff the conjunction `t` is `f` or sits inside nested disjunctions of `f`.
pub open spec fn has_term(f: BasisModel, key: Seq<usize>) -> bool
    decreases f,
{
    match f {
        BasisModel::Top => false,
        BasisModel::Bot => false,
        BasisModel::And(vs) => vs == key,
        BasisModel::Or(cs) => exists|i: int| 0 <= i < cs.len() && has_term(#[trigger] cs[i], key),
    }
}

proof fn lemma_has_term_or(ms: Seq<BasisModel>, t: Seq<usize>)
    ensures
        has_term(BasisModel::Or(ms), t) == (exists|i: int| 0 <= i < ms.len() && has_term(#[trigger] ms[i], t)),
{
    let f = BasisModel::Or(ms);
    if has_term(f, t) {
        let i = choose|i: int| 0 <= i < f->Or_0.len() && has_term(#[trigger] f->Or_0[i], t);
        assert(has_term(ms[i], t));
    }
    if exists|i: int| 0 <= i < ms.len() && has_term(#[trigger] ms[i], t) {
        let i = choose|i: int| 0 <= i < ms.len() && has_term(#[trigger] ms[i], t);
        assert(has_term(f->Or_0[i], t));
    }
}

proof fn lemma_has_top_or(ms: Seq<BasisModel>)
    ensures
        has_top(BasisModel::Or(ms)) == (exists|i: int| 0 <= i < ms.len() && has_top(#[trigger] ms[i])),
{
    let f = BasisModel::Or(ms);
    if has_top(f) {
        let i = choose|i: int| 0 <= i < f->Or_0.len() && has_top(#[trigger] f->Or_0[i]);
        assert(has_top(ms[i]));
    }
    if exists|i: int| 0 <= i < ms.len() && has_top(#[trigger] ms[i]) {
        let i = choose|i: int| 0 <= i < ms.len() && has_top(#[trigger] ms[i]);
        assert(has_top(f->Or_0[i]));
    }
}

/// The conjunctions found in `ms` after flattening nested disjunctions.
pub open spec fn terms_of(ms: Seq<BasisModel>) -> Set<Seq<usize>> {
    Set::new(|t: Seq<usize>| exists|i: int| 0 <= i < ms.len() && has_term(#[trigger] ms[i], t))
}

/// The canonical disjunction of `ms`: nested disjunctions are flattened,
/// `⊥` is dropped, any `⊤` absorbs, and the remaining conjunctions are
/// sorted and deduplicated; none gives `⊥` and one stands for itself.
pub open spec fn canonical_or(ms: Seq<BasisModel>) -> BasisModel {
    if exists|i: int| 0 <= i < ms.len() && has_top(#[trigger] ms[i]) {
        BasisModel::Top
    } else {
        let l = sorted_terms(terms_of(ms));
        if l.len() == 0 {
            BasisModel::Bot
        } else if l.len() == 1 {
            BasisModel::And(l[0])
        } else {
            BasisModel::Or(Seq::new(l.len(), |i: int| BasisModel::And(l[i])))
        }
    }
}

/// A copy of the variables `vs`.
fn copy_vars(vs: &Vec<BasisVar>) -> (r: Vec<BasisVar>)
    ensures
        r@ == vs@,
{
    let mut r: Vec<BasisVar> = Vec::new();
    let mut i: usize = 0;
    while i < vs.len()
        invariant
            i <= vs@.len(),
            r@ == vs@.take(i as int),
        decreases vs@.len() - i,
    {
        r.push(vs[i]);
        i = i + 1;
        assert(r@ =~= vs@.take(i as int));
    }
    assert(vs@.take(i as int) =~= vs@);
    r
}


/// The index sequences of a list of conjunction bodies.
pub open spec fn term_keys(l: Seq<Vec<BasisVar>>) -> Seq<Seq<usize>> {
    Seq::new(l.len(), |i: int| indices_of(l[i]@))
}

/// `true` iff `a` comes before `b` lexicographically by index.
fn vars_lt(a: &Vec<BasisVar>, b: &Vec<BasisVar>) -> (r: bool)
    ensures
        r == index_seq_lt(indices_of(a@), indices_of(b@)),
{
    let ghost sa = indices_of(a@);
    let ghost sb = indices_of(b@);
    let mut i: usize = 0;
    assert(sa.skip(0) =~= sa && sb.skip(0) =~= sb);
    while i < a.len() && i < b.len()
        invariant
            i <= a@.len(),
            i <= b@.len(),
            sa == indices_of(a@),
            sb == indices_of(b@),
            index_seq_lt(sa, sb) == index_seq_lt(sa.skip(i as int), sb.skip(i as int)),
        decreases a@.len() - i,
    {
        assert(sa.skip(i as int)[0] == a@[i as int].0);
        assert(sb.skip(i as int)[0] == b@[i as int].0);
        if a[i].0 != b[i].0 {
            return a[i].0 < b[i].0;
        }
        assert(sa.skip(i as int).drop_first() =~= sa.skip(i + 1));
        assert(sb.skip(i as int).drop_first() =~= sb.skip(i + 1));
        i = i + 1;
    }
    i == a.len() && i < b.len()
}

/// `true` iff `a` and `b` hold the same indices in the same order.
fn vars_eq(a: &Vec<BasisVar>, b: &Vec<BasisVar>) -> (r: bool)
    ensures
        r == (indices_of(a@) == indices_of(b@)),
{
    if a.len() != b.len() {
        assert(indices_of(a@).len() != indices_of(b@).len());
        return false;
    }
    let mut i: usize = 0;
    while i < a.len()
        invariant
            a@.len() == b@.len(),
            i <= a@.len(),
            forall|k: int| 0 <= k < i ==> a@[k].0 == b@[k].0,
        decreases a@.len() - i,
    {
        if a[i].0 != b[i].0 {
            assert(indices_of(a@)[i as int] != indices_of(b@)[i as int]);
            return false;
        }
        i = i + 1;
    }
    assert(indices_of(a@) =~= indices_of(b@));
    true
}

/// Insert the conjunction body `vs` into the sorted list `list`, unless an
/// equal one is there.
fn insert_term(list: &mut Vec<Vec<BasisVar>>, vs: &Vec<BasisVar>)
    requires
        strict_order(index_seq_lt_fn()),
        sorted_by(term_keys(old(list)@), index_seq_lt_fn()),
    ensures
        sorted_by(term_keys(final(list)@), index_seq_lt_fn()),
        term_keys(final(list)@).to_set() == term_keys(old(list)@).to_set().insert(indices_of(vs@)),
{
    let ghost key = indices_of(vs@);
    let ghost before = term_keys(list@);
    let mut p: usize = 0;
    while p < list.len() && vars_lt(&list[p], vs)
        invariant
            p <= list@.len(),
            before == term_keys(list@),
            key == indices_of(vs@),
            forall|j: int| 0 <= j < p ==> index_seq_lt_fn()(#[trigger] before[j], key),
        decreases list@.len() - p,
    {
        assert(before[p as int] == indices_of(list@[p as int]@));
        p = p + 1;
    }
    if p < list.len() && vars_eq(&list[p], vs) {
        proof {
            assert(before[p as int] == key);
            assert(before.to_set().contains(key));
            assert(before.to_set().insert(key) =~= before.to_set());
        }
    } else {
        proof {
            if p < list@.len() {
                assert(before[p as int] == indices_of(list@[p as int]@));
                lemma_index_seq_lt_total(key, before[p as int]);
            }
            lemma_sorted_insert(before, p as int, key, index_seq_lt_fn());
        }
        let c = copy_vars(vs);
        list.insert(p, c);
        proof {
            assert(term_keys(list@) =~= before.insert(p as int, key));
        }
    }
}

/// The conjunctions found in `f` after flattening nested disjunctions.
pub open spec fn terms_in(f: BasisModel) -> Set<Seq<usize>> {
    Set::new(|t: Seq<usize>| has_term(f, t))
}

/// Add the conjunctions of `f` to the sorted list `list`; `true` (and the
/// list left in an unspecified sorted state) when `f` holds `⊤`.
fn collect_terms(f: &BasisFormula, list: &mut Vec<Vec<BasisVar>>) -> (top: bool)
    requires
        strict_order(index_seq_lt_fn()),
        sorted_by(term_keys(old(list)@), index_seq_lt_fn()),
    ensures
        sorted_by(term_keys(final(list)@), index_seq_lt_fn()),
        top == has_top(f@),
        !top ==> term_keys(final(list)@).to_set() == term_keys(old(list)@).to_set().union(terms_in(f@)),
    decreases f,
{
    proof {
        lemma_bview_unfold(*f);
    }
    match f {
        BasisFormula::Top => {
            assert(f@ == BasisModel::Top);
            true
        },
        BasisFormula::Bot => {
            assert(terms_in(f@) =~= Set::empty());
            assert(term_keys(list@).to_set().union(terms_in(f@)) =~= term_keys(list@).to_set());
            false
        },
        BasisFormula::And(vs) => {
            insert_term(list, vs);
            assert(terms_in(f@) =~= set![indices_of(vs@)]);
            assert(term_keys(old(list)@).to_set().insert(indices_of(vs@)) =~= term_keys(old(list)@).to_set().union(terms_in(f@)));
            false
        },
        BasisFormula::Or(ts) => {
            let top = collect_all(ts, list);
            proof {
                let ms = basis_views(ts@);
                assert(f@ == BasisModel::Or(ms));
                lemma_has_top_or(ms);
                if top {
                    let i = choose|i: int| 0 <= i < ts@.len() && has_top(#[trigger] ts@[i]@);
                    assert(has_top(ms[i]));
                } else {
                    assert forall|i: int| 0 <= i < ms.len() implies !has_top(#[trigger] ms[i]) by {
                        assert(ms[i] == ts@[i]@);
                    }
                    assert forall|t: Seq<usize>| #[trigger] terms_in(f@).contains(t) == terms_of(ms).contains(t) by {
                        lemma_has_term_or(ms, t);
                        assert(terms_in(f@).contains(t) == has_term(f@, t));
                        assert(has_term(f@, t) == (exists|i: int| 0 <= i < ms.len() && has_term(#[trigger] ms[i], t)));
                        assert(terms_of(ms).contains(t) == (exists|i: int| 0 <= i < ms.len() && has_term(#[trigger] ms[i], t)));
                    }
                    assert(terms_in(f@) =~= terms_of(ms));
                }
            }
            top
        },
    }
}

/// Add the conjunctions of every formula of `ts` to the sorted list `list`;
/// `true` when one of them holds `⊤`.
fn collect_all(ts: &Vec<BasisFormula>, list: &mut Vec<Vec<BasisVar>>) -> (top: bool)
    requires
        strict_order(index_seq_lt_fn()),
        sorted_by(term_keys(old(list)@), index_seq_lt_fn()),
    ensures
        sorted_by(term_keys(final(list)@), index_seq_lt_fn()),
        top == exists|i: int| 0 <= i < ts@.len() && has_top(#[trigger] ts@[i]@),
        !top ==> term_keys(final(list)@).to_set() == term_keys(old(list)@).to_set().union(
            terms_of(basis_views(ts@)),
        ),
    decreases ts,
{
    let ghost start = term_keys(list@).to_set();
    let ghost ms = basis_views(ts@);
    let mut i: usize = 0;
    assert(terms_of(ms.take(0)) =~= Set::empty());
    assert(start.union(terms_of(ms.take(0))) =~= start);
    while i < ts.len()
        invariant
            i <= ts@.len(),
            ms == basis_views(ts@),
            strict_order(index_seq_lt_fn()),
            sorted_by(term_keys(list@), index_seq_lt_fn()),
            forall|k: int| 0 <= k < i ==> !has_top(#[trigger] ts@[k]@),
            term_keys(list@).to_set() == start.union(terms_of(ms.take(i as int))),
        decreases ts@.len() - i,
    {
        proof {
            assert(decreases_to!(ts => ts@[i as int]));
        }
        let ghost prev = term_keys(list@).to_set();
        let top = collect_terms(&ts[i], list);
        if top {
            return true;
        }
        proof {
            assert(ms[i as int] == ts@[i as int]@);
            assert(terms_of(ms.take(i + 1)) =~= terms_of(ms.take(i as int)).union(terms_in(ts@[i as int]@))) by {
                assert forall|t: Seq<usize>| terms_of(ms.take(i + 1)).contains(t) implies terms_of(
                    ms.take(i as int),
                ).union(terms_in(ts@[i as int]@)).contains(t) by {
                    let k = choose|k: int| 0 <= k < i + 1 && has_term(#[trigger] ms.take(i + 1)[k], t);
                    if k < i {
                        assert(ms.take(i as int)[k] == ms.take(i + 1)[k]);
                    }
                }
                assert forall|t: Seq<usize>| terms_of(ms.take(i as int)).union(terms_in(ts@[i as int]@)).contains(t)
                    implies terms_of(ms.take(i + 1)).contains(t) by {
                    if terms_of(ms.take(i as int)).contains(t) {
                        let k = choose|k: int| 0 <= k < i && has_term(#[trigger] ms.take(i as int)[k], t);
                        assert(ms.take(i + 1)[k] == ms.take(i as int)[k]);
                    } else {
                        assert(ms.take(i + 1)[i as int] == ts@[i as int]@);
                    }
                }
            }
            assert(start.union(terms_of(ms.take(i + 1))) =~= prev.union(terms_in(ts@[i as int]@)));
        }
        i = i + 1;
    }
    proof {
        assert(ms.take(i as int) =~= ms);
    }
    false
}

/// The text of a basis formula: `⊤`, `⊥`, `(v0 & v1)` for a conjunction and
/// `(t1 | t2)` for a disjunction.
pub open spec fn basis_text(f: BasisModel) -> Seq<char>
    decreases f, 1int,
{
    match f {
        BasisModel::Top => seq!['⊤'],
        BasisModel::Bot => seq!['⊥'],
        BasisModel::And(vs) => seq!['('] + vars_text(vs) + seq![')'],
        BasisModel::Or(ts) => seq!['('] + terms_text(ts) + seq![')'],
    }
}

/// `v{i}` for each index, separated by ` & `.
pub open spec fn vars_text(vs: Seq<usize>) -> Seq<char>
    decreases vs.len(),
{
    if vs.len() == 0 {
        Seq::empty()
    } else if vs.len() == 1 {
        seq!['v'] + decimal(vs[0] as nat)
    } else {
        vars_text(vs.drop_last()) + seq![' ', '&', ' ', 'v'] + decimal(vs[vs.len() - 1] as nat)
    }
}

/// The texts of `ts` separated by ` | `.
pub open spec fn terms_text(ts: Seq<BasisModel>) -> Seq<char>
    decreases ts, 0int,
{
    if ts.len() == 0 {
        Seq::empty()
    } else if ts.len() == 1 {
        basis_text(ts[0])
    } else {
        terms_text(ts.drop_last()) + seq![' ', '|', ' '] + basis_text(ts[ts.len() - 1])
    }
}

/// The text of the variables `vs`.
fn vars_to_string(vs: &Vec<BasisVar>) -> (r: String)
    ensures
        r@ == vars_text(indices_of(vs@)),
{
    let ghost ks = indices_of(vs@);
    let mut out = String::new();
    let mut i: usize = 0;
    assert(out@ =~= vars_text(ks.take(0)));
    while i < vs.len()
        invariant
            i <= vs@.len(),
            ks == indices_of(vs@),
            out@ == vars_text(ks.take(i as int)),
        decreases vs@.len() - i,
    {
        if i > 0 {
            push_char(&mut out, ' ');
            push_char(&mut out, '&');
            push_char(&mut out, ' ');
        }
        push_char(&mut out, 'v');
        let d = decimal_string(vs[i].0 as u64);
        push_str(&mut out, d.as_str());
        let ghost ii = i as int;
        i = i + 1;
        proof {
            let v = ks.take(i as int);
            assert(v.drop_last() =~= ks.take(ii));
            assert(v[v.len() - 1] == vs@[ii].0);
            if ii == 0 {
                assert(out@ =~= vars_text(v));
            } else {
                assert(out@ =~= vars_text(v.drop_last()) + seq![' ', '&', ' ', 'v'] + decimal(v[v.len() - 1] as nat));
            }
        }
    }
    assert(ks.take(i as int) =~= ks);
    out
}

/// The texts of the formulas `ts` separated by ` | `.
fn terms_to_string(ts: &Vec<BasisFormula>) -> (r: String)
    ensures
        r@ == terms_text(basis_views(ts@)),
    decreases ts,
{
    let ghost ms = basis_views(ts@);
    let mut out = String::new();
    let mut i: usize = 0;
    assert(out@ =~= terms_text(ms.take(0)));
    while i < ts.len()
        invariant
            i <= ts@.len(),
            ms == basis_views(ts@),
            out@ == terms_text(ms.take(i as int)),
        decreases ts@.len() - i,
    {
        proof {
            assert(decreases_to!(ts => ts@[i as int]));
        }
        if i > 0 {
            push_char(&mut out, ' ');
            push_char(&mut out, '|');
            push_char(&mut out, ' ');
        }
        let t = ts[i].to_string();
        push_str(&mut out, t.as_str());
        let ghost ii = i as int;
        i = i + 1;
        proof {
            let v = ms.take(i as int);
            assert(v.drop_last() =~= ms.take(ii));
            assert(v[v.len() - 1] == ts@[ii]@);
            if ii == 0 {
                assert(out@ =~= basis_text(v[0]));
            } else {
                assert(out@ =~= terms_text(v.drop_last()) + seq![' ', '|', ' '] + basis_text(v[v.len() - 1]));
            }
        }
    }
    assert(ms.take(i as int) =~= ms);
    out
}

/// `true` iff the formulas of `a` and `b` have equal views, pairwise.
fn same_all(a: &Vec<BasisFormula>, b: &Vec<BasisFormula>) -> (r: bool)
    ensures
        r == (basis_views(a@) == basis_views(b@)),
    decreases a,
{
    if a.len() != b.len() {
        assert(basis_views(a@).len() != basis_views(b@).len());
        return false;
    }
    let mut i: usize = 0;
    while i < a.len()
        invariant
            a@.len() == b@.len(),
            i <= a@.len(),
            forall|k: int| 0 <= k < i ==> (#[trigger] a@[k])@ == b@[k]@,
        decreases a@.len() - i,
    {
        proof {
            assert(decreases_to!(a => a@[i as int]));
        }
        if !a[i].same(&b[i]) {
            assert(basis_views(a@)[i as int] != basis_views(b@)[i as int]);
            return false;
        }
        i = i + 1;
    }
    assert(basis_views(a@) =~= basis_views(b@));
    true
}

impl BasisFormula {
    /// An exact copy of this formula.
    pub fn duplicate(&self) -> (r: BasisFormula)
        ensures
            r@ == self@,
        decreases self,
    {
        proof {
            lemma_bview_unfold(*self);
        }
        let r = match self {
            BasisFormula::Top => BasisFormula::Top,
            BasisFormula::Bot => BasisFormula::Bot,
            BasisFormula::And(vs) => BasisFormula::And(copy_vars(vs)),
            BasisFormula::Or(ts) => BasisFormula::Or(duplicate_all(ts)),
        };
        proof {
            lemma_bview_unfold(r);
        }
        r
    }

    /// `true` iff both formulas have the same view.
    pub fn same(&self, other: &BasisFormula) -> (b: bool)
        ensures
            b == (self@ == other@),
        decreases self,
    {
        proof {
            lemma_bview_unfold(*self);
            lemma_bview_unfold(*other);
        }
        match (self, other) {
            (BasisFormula::Top, BasisFormula::Top) => true,
            (BasisFormula::Bot, BasisFormula::Bot) => true,
            (BasisFormula::And(a), BasisFormula::And(b)) => vars_eq(a, b),
            (BasisFormula::Or(a), BasisFormula::Or(b)) => same_all(a, b),
            _ => false,
        }
    }

    /// The text of this formula (what `Display` shows).
    pub fn to_string(&self) -> (r: String)
        ensures
            r@ == basis_text(self@),
        decreases self,
    {
        proof {
            lemma_bview_unfold(*self);
        }
        let mut out = String::new();
        match self {
            BasisFormula::Top => {
                push_char(&mut out, '⊤');
            },
            BasisFormula::Bot => {
                push_char(&mut out, '⊥');
            },
            BasisFormula::And(vs) => {
                push_char(&mut out, '(');
                let t = vars_to_string(vs);
                push_str(&mut out, t.as_str());
                push_char(&mut out, ')');
            },
            BasisFormula::Or(ts) => {
                push_char(&mut out, '(');
                let t = terms_to_string(ts);
                push_str(&mut out, t.as_str());
                push_char(&mut out, ')');
            },
        }
        assert(out@ =~= basis_text(self@));
        out
    }

    /// Construct `⊤`.
    pub fn top() -> (f: BasisFormula)
        ensures
            f@ == BasisModel::Top,
    {
        proof {
            lemma_bview_unfold(BasisFormula::Top);
        }
        BasisFormula::Top
    }

    /// Construct `⊥`.
    pub fn bot() -> (f: BasisFormula)
        ensures
            f@ == BasisModel::Bot,
    {
        proof {
            lemma_bview_unfold(BasisFormula::Bot);
        }
        BasisFormula::Bot
    }

    /// The conjunction of the single variable `v`.
    pub fn var(v: BasisVar) -> (f: BasisFormula)
        ensures
            f@ == BasisModel::And(seq![v.0]),
    {
        let mut vs: Vec<BasisVar> = Vec::new();
        vs.push(v);
        let f = BasisFormula::And(vs);
        proof {
            lemma_bview_unfold(f);
            assert(indices_of(vs@) =~= seq![v.0]);
        }
        f
    }

    /// The canonical disjunction of `terms`: nested disjunctions are
    /// flattened, `⊥` is dropped, any `⊤` absorbs, conjunctions are sorted
    /// and deduplicated; none gives `⊥` and one stands for itself.
    pub fn or(terms: Vec<BasisFormula>) -> (f: BasisFormula)
        ensures
            f@ == canonical_or(basis_views(terms@)),
            or_well_defined(basis_views(terms@)),
    {
        let ghost ms = basis_views(terms@);
        let mut list: Vec<Vec<BasisVar>> = Vec::new();
        proof {
            lemma_index_orders_strict();
        }
        let top = collect_all(&terms, &mut list);
        if top {
            proof {
                let i = choose|i: int| 0 <= i < terms@.len() && has_top(#[trigger] terms@[i]@);
                assert(has_top(ms[i]));
            }
            proof {
                lemma_bview_unfold(BasisFormula::Top);
            }
            return BasisFormula::Top;
        }
        let ghost keys = term_keys(list@);
        proof {
            assert forall|i: int| 0 <= i < ms.len() implies !has_top(#[trigger] ms[i]) by {
                assert(ms[i] == terms@[i]@);
            }
            assert(term_keys(Seq::<Vec<BasisVar>>::empty()).to_set() =~= Set::empty());
            assert(keys.to_set() =~= terms_of(ms));
            let l = sorted_terms(terms_of(ms));
            assert(sorted_by(keys, index_seq_lt_fn()) && keys.to_set() == terms_of(ms));
            assert(sorted_by(l, index_seq_lt_fn()) && l.to_set() == terms_of(ms));
            lemma_sorted_unique(l, keys, index_seq_lt_fn());
        }
        if list.len() == 0 {
            proof {
                lemma_bview_unfold(BasisFormula::Bot);
            }
            BasisFormula::Bot
        } else if list.len() == 1 {
            let f = BasisFormula::And(copy_vars(&list[0]));
            proof {
                lemma_bview_unfold(f);
            }
            f
        } else {
            let mut out: Vec<BasisFormula> = Vec::new();
            let mut i: usize = 0;
            while i < list.len()
                invariant
                    i <= list@.len(),
                    keys == term_keys(list@),
                    out@.len() == i,
                    forall|k: int| 0 <= k < i ==> (#[trigger] out@[k])@ == BasisModel::And(keys[k]),
                decreases list@.len() - i,
            {
                let t = BasisFormula::And(copy_vars(&list[i]));
                proof {
                    lemma_bview_unfold(t);
                }
                out.push(t);
                i = i + 1;
            }
            let f = BasisFormula::Or(out);
            proof {
                lemma_bview_unfold(f);
                assert(basis_views(out@) =~= Seq::new(keys.len(), |k: int| BasisModel::And(keys[k])));
            }
            f
        }
    }

    /// The canonical conjunction of `vars`: sorted, without duplicates, and
    /// `⊤` when empty.
    pub fn and(vars: Vec<BasisVar>) -> (f: BasisFormula)
        ensures
            f@ == canonical_and(indices_of(vars@)),
            and_well_defined(indices_of(vars@)),
    {
        let ghost input = indices_of(vars@);
        let mut out: Vec<BasisVar> = Vec::new();
        let mut i: usize = 0;
        proof {
            lemma_index_orders_strict();
            assert(indices_of(out@).to_set() =~= input.take(0).to_set());
        }
        while i < vars.len()
            invariant
                input == indices_of(vars@),
                i <= vars@.len(),
                strict_order(index_lt_fn()),
                sorted_by(indices_of(out@), index_lt_fn()),
                indices_of(out@).to_set() == input.take(i as int).to_set(),
            decreases vars@.len() - i,
        {
            let v = vars[i];
            let mut p: usize = 0;
            while p < out.len() && out[p].0 < v.0
                invariant
                    p <= out@.len(),
                    forall|j: int| 0 <= j < p ==> out@[j].0 < v.0,
                decreases out@.len() - p,
            {
                p = p + 1;
            }
            let ghost before = indices_of(out@);
            if p < out.len() && out[p].0 == v.0 {
                proof {
                    assert(before[p as int] == v.0);
                    assert(input.take(i + 1) =~= input.take(i as int).push(v.0));
                    assert(before.to_set().contains(v.0));
                    input.take(i as int).lemma_push_to_set_commute(v.0);
                }
            } else {
                proof {
                    lemma_sorted_insert(before, p as int, v.0, index_lt_fn());
                }
                out.insert(p, v);
                proof {
                    assert(indices_of(out@) =~= before.insert(p as int, v.0));
                    assert(input.take(i + 1) =~= input.take(i as int).push(v.0));
                    input.take(i as int).lemma_push_to_set_commute(v.0);
                }
            }
            i = i + 1;
        }
        proof {
            assert(input.take(i as int) =~= input);
        }
        if out.len() == 0 {
            proof {
                if input.len() > 0 {
                    assert(input.to_set().contains(input[0]));
                }
            }
            BasisFormula::Top
        } else {
            let f = BasisFormula::And(out);
            proof {
                lemma_bview_unfold(f);
                let l = sorted_indices(input.to_set());
                assert(sorted_by(l, index_lt_fn()) && l.to_set() == input.to_set());
                lemma_sorted_unique(l, indices_of(out@), index_lt_fn());
                assert(input.len() > 0) by {
                    assert(indices_of(out@)[0] == out@[0].0);
                    assert(indices_of(out@).to_set().contains(indices_of(out@)[0]));
                    if input.len() == 0 {
                        assert(input.to_set() =~= Set::empty());
                    }
                }
            }
            f
        }
    }
}

} // verus!

verus! {

/// Errors produced by decomposition operations.
#[derive(Debug, Clone, PartialEq, Eq, Structural)]
#[non_exhaustive]
pub enum DecompositionError {
    /// Basis rows are required to define the column count.
    EmptyBasis,
    /// A row's length differs from the basis column count.
    LengthMismatch {
        /// Expected common row width.
        expected: usize,
        /// Encountered row width.
        found: usize,
    },
    /// A column index is outside the suffix-experiment bounds.
    IndexOutOfBounds {
        /// Requested suffix column index.
        index: usize,
        /// Total number of suffix columns.
        len: usize,
    },
}

/// The views of a sequence of rows.
pub open spec fn row_views(rows: Seq<RowVec>) -> Seq<Seq<bool>> {
    Seq::new(rows.len(), |k: int| rows[k]@)
}

/// Column `e` of the basis: for each basis row, whether it is `⊤` there.
pub open spec fn column_of(rows: Seq<Seq<bool>>, e: int) -> Seq<bool> {
    Seq::new(rows.len(), |k: int| rows[k][e])
}

/// The column meet `M(e)`: the pointwise conjunction of the basis rows that
/// are `⊤` at column `e`; all `⊤` when there are none.
pub open spec fn column_meet(rows: Seq<Seq<bool>>, n: nat, e: int) -> Seq<bool> {
    Seq::new(n, |c: int| forall|k: int| 0 <= k < rows.len() && #[trigger] rows[k][e] ==> rows[k][c])
}

/// The basis variables of `M(e)`: the rows that are `⊤` at column `e`, in order.
pub open spec fn column_vars(rows: Seq<Seq<bool>>, e: int) -> Seq<usize> {
    ones_of(column_of(rows, e))
}

/// The closure `b(r)`: the pointwise disjunction of the column meets of the
/// columns where `r` is `⊤`.
pub open spec fn closure_of(rows: Seq<Seq<bool>>, n: nat, r: Seq<bool>) -> Seq<bool> {
    Seq::new(n, |c: int| exists|e: int| 0 <= e < n && r[e] && #[trigger] column_meet(rows, n, e)[c])
}

/// Basis variable `i` occurs in `f`.
pub open spec fn bmentions(f: BasisModel, i: usize) -> bool
    decreases f,
{
    match f {
        BasisModel::And(vs) => vs.contains(i),
        BasisModel::Or(ts) => exists|k: int| 0 <= k < ts.len() && bmentions(#[trigger] ts[k], i),
        _ => false,
    }
}

/// The decomposition formula of `r`: the canonical disjunction of the
/// canonical conjunctions of the column meets of the columns where `r` is `⊤`.
pub open spec fn decomposition_of(rows: Seq<Seq<bool>>, r: Seq<bool>) -> BasisModel {
    canonical_or(
        Seq::new(ones_of(r).len(), |j: int| canonical_and(column_vars(rows, ones_of(r)[j] as int))),
    )
}

/// The basis variables true in column `c`: the rows that are `⊤` there.
pub open spec fn column_valuation(rows: Seq<Seq<bool>>, c: int) -> Set<usize> {
    Set::new(|k: usize| k < rows.len() && rows[k as int][c])
}

/// `true` iff every row of `rows` has length `n`.
pub open spec fn rows_have_len(rows: Seq<Seq<bool>>, n: nat) -> bool {
    forall|k: int| 0 <= k < rows.len() ==> (#[trigger] rows[k]).len() == n
}

/// `true` iff row `k` is the first row after the first whose length differs
/// from the first row's.
pub open spec fn first_length_mismatch(rows: Seq<Seq<bool>>, k: int) -> bool {
    &&& 1 <= k < rows.len()
    &&& rows[k].len() != rows[0].len()
    &&& forall|j: int| 1 <= j < k ==> (#[trigger] rows[j]).len() == rows[0].len()
}

/// A row among `rows` is its own closure.
pub proof fn lemma_closure_of_member(rows: Seq<Seq<bool>>, n: nat, k: int)
    requires
        0 <= k < rows.len(),
        rows[k].len() == n,
    ensures
        closure_of(rows, n, rows[k]) == rows[k],
{
    let r = rows[k];
    lemma_closure_extensive(rows, n, r);
    assert forall|c: int| 0 <= c < n implies closure_of(rows, n, r)[c] == r[c] by {
        if closure_of(rows, n, r)[c] {
            let e = choose|e: int| 0 <= e < n && r[e] && #[trigger] column_meet(rows, n, e)[c];
            assert(rows[k][e] ==> rows[k][c]);
        }
    }
    assert(closure_of(rows, n, r) =~= r);
}

/// The closure contains the row it is taken of.
pub proof fn lemma_closure_extensive(rows: Seq<Seq<bool>>, n: nat, r: Seq<bool>)
    requires
        r.len() == n,
    ensures
        forall|c: int| 0 <= c < n && r[c] ==> closure_of(rows, n, r)[c],
{
    assert forall|c: int| 0 <= c < n && r[c] implies closure_of(rows, n, r)[c] by {
        assert(column_meet(rows, n, c)[c]);
    }
}

/// Taking the closure twice gives the closure.
pub proof fn lemma_closure_idempotent(rows: Seq<Seq<bool>>, n: nat, r: Seq<bool>)
    requires
        r.len() == n,
    ensures
        closure_of(rows, n, closure_of(rows, n, r)) == closure_of(rows, n, r),
{
    let cl = closure_of(rows, n, r);
    lemma_closure_extensive(rows, n, cl);
    assert forall|c: int| 0 <= c < n implies closure_of(rows, n, cl)[c] == cl[c] by {
        if closure_of(rows, n, cl)[c] {
            let e1 = choose|e1: int| 0 <= e1 < n && cl[e1] && #[trigger] column_meet(rows, n, e1)[c];
            let e0 = choose|e0: int| 0 <= e0 < n && r[e0] && #[trigger] column_meet(rows, n, e0)[e1];
            assert forall|k: int| 0 <= k < rows.len() && #[trigger] rows[k][e0] implies rows[k][c] by {
                assert(column_meet(rows, n, e0)[e1]);
                assert(rows[k][e1]);
                assert(column_meet(rows, n, e1)[c]);
            }
            assert(column_meet(rows, n, e0)[c]);
        }
    }
    assert(closure_of(rows, n, cl) =~= cl);
}

/// Evaluating the decomposition formula with the basis variables of column
/// `c` gives the closure's value at `c`.
pub proof fn lemma_decomposition_matches_closure(rows: Seq<Seq<bool>>, n: nat, r: Seq<bool>, c: int)
    requires
        rows_have_len(rows, n),
        r.len() == n,
        n <= usize::MAX,
        rows.len() <= usize::MAX,
        0 <= c < n,
    ensures
        bsat(decomposition_of(rows, r), column_valuation(rows, c)) == closure_of(rows, n, r)[c],
{
    let es = ones_of(r);
    let val = column_valuation(rows, c);
    crate::rowvec::lemma_ones_of(r);
    let ms = Seq::new(es.len(), |j: int| canonical_and(column_vars(rows, es[j] as int)));
    assert forall|j: int| 0 <= j < ms.len() implies #[trigger] bsat(ms[j], val) == column_meet(
        rows,
        n,
        es[j] as int,
    )[c] by {
        let e = es[j] as int;
        let col = column_of(rows, e);
        crate::rowvec::lemma_ones_of(col);
        let vs = column_vars(rows, e);
        lemma_increasing_and_well_defined(vs);
        lemma_canonical_and_sat(vs, val);
        if all_in(vs, val) {
            assert forall|k: int| 0 <= k < rows.len() && #[trigger] rows[k][e] implies rows[k][c] by {
                assert(col[k]);
                assert(vs.contains(k as usize));
                let i = choose|i: int| 0 <= i < vs.len() && vs[i] == k as usize;
                assert(val.contains(vs[i]));
            }
        }
        if column_meet(rows, n, e)[c] {
            assert forall|i: int| 0 <= i < vs.len() implies val.contains(#[trigger] vs[i]) by {
                let k = vs[i] as int;
                assert(col[k]);
                assert(rows[k][e]);
            }
        }
    }
    if exists|j: int| 0 <= j < ms.len() && has_top(#[trigger] ms[j]) {
    } else {
        let l = Seq::new(ms.len(), |j: int| column_vars(rows, es[j] as int));
        assert forall|j: int| 0 <= j < ms.len() implies #[trigger] ms[j] == BasisModel::And(l[j]) by {
            crate::rowvec::lemma_ones_of(column_of(rows, es[j] as int));
            lemma_increasing_and_well_defined(l[j]);
            if l[j].len() == 0 {
                assert(has_top(ms[j]));
            }
        }
        assert(terms_of(ms) =~= l.to_set()) by {
            assert forall|t: Seq<usize>| terms_of(ms).contains(t) == l.to_set().contains(t) by {
                if terms_of(ms).contains(t) {
                    let j = choose|j: int| 0 <= j < ms.len() && has_term(#[trigger] ms[j], t);
                    assert(l[j] == t);
                }
                if l.to_set().contains(t) {
                    let j = choose|j: int| 0 <= j < l.len() && l[j] == t;
                    assert(has_term(ms[j], t));
                }
            }
        }
        lemma_sorted_terms_exist(l);
    }
    lemma_canonical_or_sat(ms, val);
    if closure_of(rows, n, r)[c] {
        let e = choose|e: int| 0 <= e < n && r[e] && #[trigger] column_meet(rows, n, e)[c];
        let j = choose|j: int| 0 <= j < es.len() && es[j] == e as usize;
        assert(bsat(ms[j], val));
    }
    if bsat(decomposition_of(rows, r), val) {
        let j = choose|j: int| 0 <= j < ms.len() && bsat(#[trigger] ms[j], val);
        assert(column_meet(rows, n, es[j] as int)[c]);
    }
}

} // verus!

verus! {

/// Precomputed decomposition helper for fixed basis rows.
///
/// For each suffix column it keeps the column meet as a row and as the list
/// of its basis variables; closures and formulas computed for a row are
/// remembered.
#[derive(Debug)]
pub struct BasisDecomposer {
    column_count: usize,
    basis_rows: Vec<RowVec>,
    column_meet_rows: Vec<RowVec>,
    column_meet_vars: Vec<Vec<BasisVar>>,
    closure_cache: Vec<(RowVec, RowVec)>,
    formula_cache: Vec<(RowVec, BasisFormula)>,
}

impl BasisDecomposer {
    /// The basis rows' views.
    pub closed spec fn rows(&self) -> Seq<Seq<bool>> {
        row_views(self.basis_rows@)
    }

    /// The number of suffix columns.
    pub closed spec fn columns(&self) -> nat {
        self.column_count as nat
    }

    /// The decomposer's invariant: a non-empty basis of rows of the column
    /// count, the column meets it was built with, and caches that agree with
    /// the closure and decomposition of their rows.
    pub closed spec fn wf(&self) -> bool {
        let rows = self.rows();
        let n = self.columns();
        &&& rows.len() >= 1
        &&& rows.len() <= usize::MAX
        &&& rows_have_len(rows, n)
        &&& self.column_meet_rows@.len() == n
        &&& self.column_meet_vars@.len() == n
        &&& forall|e: int| 0 <= e < n ==> (#[trigger] self.column_meet_rows@[e])@ == column_meet(rows, n, e)
        &&& forall|e: int| 0 <= e < n ==> indices_of((#[trigger] self.column_meet_vars@[e])@) == column_vars(rows, e)
        &&& forall|i: int|
            0 <= i < self.closure_cache@.len() ==> (#[trigger] self.closure_cache@[i]).0@.len() == n
                && self.closure_cache@[i].1@ == closure_of(rows, n, self.closure_cache@[i].0@)
        &&& forall|i: int|
            0 <= i < self.formula_cache@.len() ==> (#[trigger] self.formula_cache@[i]).0@.len() == n
                && self.formula_cache@[i].1@ == decomposition_of(rows, self.formula_cache@[i].0@)
    }

    /// The error for a row operation on rows of different lengths.
    fn map_rowvec_error(err: RowVecError) -> (r: DecompositionError)
        ensures
            r == (match err {
                RowVecError::IndexOutOfBounds { index, len } => DecompositionError::IndexOutOfBounds { index, len },
                RowVecError::LengthMismatch { left, right } => DecompositionError::LengthMismatch {
                    expected: left,
                    found: right,
                },
            }),
    {
        match err {
            RowVecError::IndexOutOfBounds { index, len } => DecompositionError::IndexOutOfBounds { index, len },
            RowVecError::LengthMismatch { left, right } => DecompositionError::LengthMismatch {
                expected: left,
                found: right,
            },
        }
    }

    /// The column meet of column `e` as a row, with its basis variables.
    fn meet_of_column(basis_rows: &Vec<RowVec>, n: usize, e: usize) -> (r: (RowVec, Vec<BasisVar>))
        requires
            rows_have_len(row_views(basis_rows@), n as nat),
            e < n,
        ensures
            r.0@ == column_meet(row_views(basis_rows@), n as nat, e as int),
            indices_of(r.1@) == column_vars(row_views(basis_rows@), e as int),
    {
        let ghost rows = row_views(basis_rows@);
        let ghost col = column_of(rows, e as int);
        let mut vars: Vec<BasisVar> = Vec::new();
        let mut has_term = false;
        let mut meet = RowVec::top(n);
        let mut k: usize = 0;
        while k < basis_rows.len()
            invariant
                rows == row_views(basis_rows@),
                col == column_of(rows, e as int),
                rows_have_len(rows, n as nat),
                e < n,
                k <= basis_rows@.len(),
                has_term == exists|j: int| 0 <= j < k && #[trigger] rows[j][e as int],
                has_term ==> meet@ == Seq::new(
                    n as nat,
                    |c: int| forall|j: int| 0 <= j < k && #[trigger] rows[j][e as int] ==> rows[j][c],
                ),
                !has_term ==> meet@ == Seq::new(n as nat, |c: int| true),
                indices_of(vars@) == ones_of(col.take(k as int)),
            decreases basis_rows@.len() - k,
        {
            assert(rows[k as int] == basis_rows@[k as int]@);
            assert(rows[k as int].len() == n);
            let ghost prev_vars = vars@;
            let bit = basis_rows[k].get(e);
            assert(col.take(k + 1).drop_last() =~= col.take(k as int));
            assert(col.take(k + 1)[k as int] == rows[k as int][e as int]);
            if bit == Some(true) {
                vars.push(BasisVar(k));
                assert(indices_of(vars@) =~= indices_of(prev_vars).push(k));
                if !has_term {
                    meet = basis_rows[k].duplicate();
                    has_term = true;
                    assert(meet@ =~= Seq::new(
                        n as nat,
                        |c: int| forall|j: int| 0 <= j < k + 1 && #[trigger] rows[j][e as int] ==> rows[j][c],
                    ));
                } else {
                    let ghost before = meet@;
                    match meet.and(&basis_rows[k]) {
                        Ok(m) => {
                            meet = m;
                        },
                        Err(_) => {
                            assert(false);
                        },
                    }
                    assert(meet@ =~= Seq::new(
                        n as nat,
                        |c: int| forall|j: int| 0 <= j < k + 1 && #[trigger] rows[j][e as int] ==> rows[j][c],
                    ));
                }
            } else {
                assert(indices_of(vars@) =~= ones_of(col.take(k + 1)));
                if has_term {
                    assert(meet@ =~= Seq::new(
                        n as nat,
                        |c: int| forall|j: int| 0 <= j < k + 1 && #[trigger] rows[j][e as int] ==> rows[j][c],
                    ));
                }
            }
            k = k + 1;
        }
        assert(col.take(k as int) =~= col);
        assert(meet@ =~= column_meet(rows, n as nat, e as int));
        (meet, vars)
    }

    /// Build a decomposer from basis rows in fixed order: an error for an
    /// empty basis, or for the first row whose length differs from the first
    /// row's.
    pub fn new(basis_rows: Vec<RowVec>) -> (r: Result<BasisDecomposer, DecompositionError>)
        ensures
            basis_rows@.len() == 0 ==> r == Err::<BasisDecomposer, DecompositionError>(DecompositionError::EmptyBasis),
            basis_rows@.len() > 0 && rows_have_len(row_views(basis_rows@), basis_rows@[0]@.len()) ==> (r matches Ok(
                d,
            ) && d.wf() && d.rows() == row_views(basis_rows@) && d.columns() == basis_rows@[0]@.len()),
            basis_rows@.len() > 0 && !rows_have_len(row_views(basis_rows@), basis_rows@[0]@.len()) ==> (exists|k: int|
                #[trigger] first_length_mismatch(row_views(basis_rows@), k) && r == Err::<
                    BasisDecomposer,
                    DecompositionError,
                >(
                    DecompositionError::LengthMismatch {
                        expected: basis_rows@[0]@.len() as usize,
                        found: basis_rows@[k]@.len() as usize,
                    },
                )),
    {
        if basis_rows.len() == 0 {
            return Err(DecompositionError::EmptyBasis);
        }
        let column_count = basis_rows[0].len();
        let ghost rows = row_views(basis_rows@);
        let mut k: usize = 1;
        while k < basis_rows.len()
            invariant
                1 <= k <= basis_rows@.len(),
                rows == row_views(basis_rows@),
                column_count == basis_rows@[0]@.len(),
                forall|j: int| 0 <= j < k ==> (#[trigger] basis_rows@[j])@.len() == column_count,
            decreases basis_rows@.len() - k,
        {
            let found = basis_rows[k].len();
            if found != column_count {
                proof {
                    assert(!rows_have_len(rows, column_count as nat)) by {
                        assert(rows[k as int].len() != column_count);
                    }
                    assert forall|j: int| 1 <= j < k implies (#[trigger] rows[j]).len() == rows[0].len() by {
                        assert(rows[j] == basis_rows@[j]@);
                    }
                    assert(first_length_mismatch(rows, k as int));
                }
                return Err(DecompositionError::LengthMismatch { expected: column_count, found });
            }
            k = k + 1;
        }
        assert(rows_have_len(rows, column_count as nat)) by {
            assert forall|j: int| 0 <= j < rows.len() implies (#[trigger] rows[j]).len() == column_count by {
                assert(rows[j] == basis_rows@[j]@);
            }
        }
        let mut column_meet_rows: Vec<RowVec> = Vec::new();
        let mut column_meet_vars: Vec<Vec<BasisVar>> = Vec::new();
        let mut e: usize = 0;
        while e < column_count
            invariant
                e <= column_count,
                rows == row_views(basis_rows@),
                rows_have_len(rows, column_count as nat),
                column_meet_rows@.len() == e,
                column_meet_vars@.len() == e,
                forall|i: int| 0 <= i < e ==> (#[trigger] column_meet_rows@[i])@ == column_meet(rows, column_count as nat, i),
                forall|i: int| 0 <= i < e ==> indices_of((#[trigger] column_meet_vars@[i])@) == column_vars(rows, i),
            decreases column_count - e,
        {
            let (meet, vars) = Self::meet_of_column(&basis_rows, column_count, e);
            column_meet_rows.push(meet);
            column_meet_vars.push(vars);
            e = e + 1;
        }
        let d = BasisDecomposer {
            column_count,
            basis_rows,
            column_meet_rows,
            column_meet_vars,
            closure_cache: Vec::new(),
            formula_cache: Vec::new(),
        };
        Ok(d)
    }

    /// The number of suffix-experiment columns.
    pub fn column_count(&self) -> (n: usize)
        ensures
            n == self.columns(),
    {
        self.column_count
    }

    /// The basis rows, in fixed order.
    pub fn basis_rows(&self) -> (r: &[RowVec])
        ensures
            row_views(r@) == self.rows(),
    {
        self.basis_rows.as_slice()
    }

    /// The column meet row `M(e)`; an error when `suffix_idx` is out of bounds.
    pub fn try_column_meet_row(&self, suffix_idx: usize) -> (r: Result<&RowVec, DecompositionError>)
        requires
            self.wf(),
        ensures
            suffix_idx < self.columns() ==> (r matches Ok(row) && row@ == column_meet(
                self.rows(),
                self.columns(),
                suffix_idx as int,
            )),
            suffix_idx >= self.columns() ==> r == Err::<&RowVec, DecompositionError>(
                DecompositionError::IndexOutOfBounds { index: suffix_idx, len: self.columns() as usize },
            ),
    {
        if suffix_idx < self.column_meet_rows.len() {
            Ok(&self.column_meet_rows[suffix_idx])
        } else {
            Err(DecompositionError::IndexOutOfBounds { index: suffix_idx, len: self.column_count })
        }
    }

    /// The column meet formula: the conjunction of the basis variables whose
    /// rows are `⊤` in column `suffix_idx`; an error when out of bounds.
    pub fn try_column_meet_formula(&self, suffix_idx: usize) -> (r: Result<BasisFormula, DecompositionError>)
        requires
            self.wf(),
        ensures
            suffix_idx < self.columns() ==> (r matches Ok(f) && f@ == canonical_and(
                column_vars(self.rows(), suffix_idx as int),
            )),
            suffix_idx >= self.columns() ==> r == Err::<BasisFormula, DecompositionError>(
                DecompositionError::IndexOutOfBounds { index: suffix_idx, len: self.columns() as usize },
            ),
    {
        if suffix_idx < self.column_meet_vars.len() {
            let vars = copy_vars(&self.column_meet_vars[suffix_idx]);
            Ok(BasisFormula::and(vars))
        } else {
            Err(DecompositionError::IndexOutOfBounds { index: suffix_idx, len: self.column_count })
        }
    }

    /// The closure `b(r)`: the pointwise `∨` of the column meets of the
    /// columns where `r` is `⊤`; an error when `r` has the wrong length.
    pub fn closure_row(&mut self, r: &RowVec) -> (res: Result<RowVec, DecompositionError>)
        requires
            old(self).wf(),
        ensures
            final(self).wf(),
            final(self).rows() == old(self).rows(),
            final(self).columns() == old(self).columns(),
            r@.len() == old(self).columns() ==> (res matches Ok(c) && c@ == closure_of(
                old(self).rows(),
                old(self).columns(),
                r@,
            )),
            r@.len() != old(self).columns() ==> res == Err::<RowVec, DecompositionError>(
                DecompositionError::LengthMismatch {
                    expected: old(self).columns() as usize,
                    found: r@.len() as usize,
                },
            ),
    {
        let found = r.len();
        if found != self.column_count {
            return Err(DecompositionError::LengthMismatch { expected: self.column_count, found });
        }
        let ghost rows = self.rows();
        let ghost n = self.columns();
        let mut i: usize = 0;
        while i < self.closure_cache.len()
            invariant
                self.wf(),
                rows == self.rows(),
                n == self.columns(),
                i <= self.closure_cache@.len(),
            decreases self.closure_cache@.len() - i,
        {
            if self.closure_cache[i].0.same(r) {
                return Ok(self.closure_cache[i].1.duplicate());
            }
            i = i + 1;
        }
        let ones = r.ones();
        proof {
            crate::rowvec::lemma_ones_of(r@);
        }
        let mut closure = RowVec::new(self.column_count);
        let mut k: usize = 0;
        while k < ones.len()
            invariant
                self.wf(),
                rows == self.rows(),
                n == self.columns(),
                r@.len() == n,
                ones@ == ones_of(r@),
                k <= ones@.len(),
                forall|j: int| 0 <= j < ones@.len() ==> (#[trigger] ones@[j]) < r@.len() && r@[ones@[j] as int],
                forall|x: int| 0 <= x < r@.len() && r@[x] ==> ones@.contains(x as usize),
                closure@ == Seq::new(
                    n,
                    |c: int| exists|j: int| 0 <= j < k && #[trigger] column_meet(rows, n, ones@[j] as int)[c],
                ),
            decreases ones@.len() - k,
        {
            let meet = match self.try_column_meet_row(ones[k]) {
                Ok(m) => m,
                Err(e) => {
                    return Err(e);
                },
            };
            let ghost before = closure@;
            let ghost kk = k as int;
            match closure.or(meet) {
                Ok(c) => {
                    closure = c;
                },
                Err(e) => {
                    return Err(Self::map_rowvec_error(e));
                },
            }
            k = k + 1;
            proof {
                assert forall|c: int| 0 <= c < n implies closure@[c] == (exists|j: int|
                    0 <= j < k && #[trigger] column_meet(rows, n, ones@[j] as int)[c]) by {
                    if closure@[c] && !before[c] {
                        assert(column_meet(rows, n, ones@[kk] as int)[c]);
                    }
                    if exists|j: int| 0 <= j < k && #[trigger] column_meet(rows, n, ones@[j] as int)[c] {
                        let j = choose|j: int| 0 <= j < k && #[trigger] column_meet(rows, n, ones@[j] as int)[c];
                        if j < kk {
                            assert(before[c]);
                        }
                    }
                }
                assert(closure@ =~= Seq::new(
                    n,
                    |c: int| exists|j: int| 0 <= j < k && #[trigger] column_meet(rows, n, ones@[j] as int)[c],
                ));
            }
        }
        proof {
            assert(closure@ =~= closure_of(rows, n, r@)) by {
                assert forall|c: int| 0 <= c < n implies closure@[c] == closure_of(rows, n, r@)[c] by {
                    if closure@[c] {
                        let j = choose|j: int| 0 <= j < k && #[trigger] column_meet(rows, n, ones@[j] as int)[c];
                        let e = ones@[j] as int;
                        assert(0 <= e < n && r@[e] && column_meet(rows, n, e)[c]);
                    }
                    if closure_of(rows, n, r@)[c] {
                        let e = choose|e: int| 0 <= e < n && r@[e] && #[trigger] column_meet(rows, n, e)[c];
                        let j = choose|j: int| 0 <= j < ones@.len() && ones@[j] == e as usize;
                        assert(column_meet(rows, n, ones@[j] as int)[c]);
                    }
                }
            }
        }
        let key = r.duplicate();
        let value = closure.duplicate();
        self.closure_cache.push((key, value));
        Ok(closure)
    }

    /// Basis variable `i` occurs in `f`.
pub open spec fn bmentions(f: BasisModel, i: usize) -> bool
    decreases f,
{
    match f {
        BasisModel::And(vs) => vs.contains(i),
        BasisModel::Or(ts) => exists|k: int| 0 <= k < ts.len() && bmentions(#[trigger] ts[k], i),
        _ => false,
    }
}

/// The decomposition formula of `r`: the canonical disjunction of the
    /// column meet formulas of the columns where `r` is `⊤`; an error when
    /// `r` has the wrong length.
    pub fn decompose_formula(&mut self, r: &RowVec) -> (res: Result<BasisFormula, DecompositionError>)
        requires
            old(self).wf(),
        ensures
            final(self).wf(),
            final(self).rows() == old(self).rows(),
            final(self).columns() == old(self).columns(),
            r@.len() == old(self).columns() ==> (res matches Ok(f) && f@ == decomposition_of(old(self).rows(), r@)),
            r@.len() != old(self).columns() ==> res == Err::<BasisFormula, DecompositionError>(
                DecompositionError::LengthMismatch {
                    expected: old(self).columns() as usize,
                    found: r@.len() as usize,
                },
            ),
    {
        let found = r.len();
        if found != self.column_count {
            return Err(DecompositionError::LengthMismatch { expected: self.column_count, found });
        }
        let ghost rows = self.rows();
        let mut i: usize = 0;
        while i < self.formula_cache.len()
            invariant
                self.wf(),
                rows == self.rows(),
                i <= self.formula_cache@.len(),
            decreases self.formula_cache@.len() - i,
        {
            if self.formula_cache[i].0.same(r) {
                return Ok(self.formula_cache[i].1.duplicate());
            }
            i = i + 1;
        }
        let ones = r.ones();
        proof {
            crate::rowvec::lemma_ones_of(r@);
        }
        let ghost es = ones_of(r@);
        let mut terms: Vec<BasisFormula> = Vec::new();
        let mut k: usize = 0;
        while k < ones.len()
            invariant
                self.wf(),
                rows == self.rows(),
                r@.len() == self.columns(),
                ones@ == es,
                es == ones_of(r@),
                k <= ones@.len(),
                forall|j: int| 0 <= j < ones@.len() ==> (#[trigger] ones@[j]) < r@.len(),
                terms@.len() == k,
                forall|j: int| 0 <= j < k ==> (#[trigger] terms@[j])@ == canonical_and(column_vars(rows, es[j] as int)),
            decreases ones@.len() - k,
        {
            match self.try_column_meet_formula(ones[k]) {
                Ok(f) => {
                    terms.push(f);
                },
                Err(e) => {
                    return Err(e);
                },
            }
            k = k + 1;
        }
        proof {
            assert(basis_views(terms@) =~= Seq::new(
                es.len(),
                |j: int| canonical_and(column_vars(rows, es[j] as int)),
            ));
        }
        let formula = BasisFormula::or(terms);
        let key = r.duplicate();
        let value = formula.duplicate();
        self.formula_cache.push((key, value));
        Ok(formula)
    }

    /// `true` iff `r` is representable, i.e. its closure is `r` itself; an
    /// error when `r` has the wrong length.
    pub fn representable(&mut self, r: &RowVec) -> (res: Result<bool, DecompositionError>)
        requires
            old(self).wf(),
        ensures
            final(self).wf(),
            final(self).rows() == old(self).rows(),
            final(self).columns() == old(self).columns(),
            r@.len() == old(self).columns() ==> res == Ok::<bool, DecompositionError>(
                closure_of(old(self).rows(), old(self).columns(), r@) == r@,
            ),
            r@.len() != old(self).columns() ==> res == Err::<bool, DecompositionError>(
                DecompositionError::LengthMismatch {
                    expected: old(self).columns() as usize,
                    found: r@.len() as usize,
                },
            ),
    {
        match self.closure_row(r) {
            Ok(c) => Ok(c.same(r)),
            Err(e) => Err(e),
        }
    }
}


/// Every basis variable of a decomposition indexes one of the basis rows.
pub proof fn lemma_decomposition_vars(rows: Seq<Seq<bool>>, r: Seq<bool>, i: usize)
    requires
        rows.len() <= usize::MAX,
        bmentions(decomposition_of(rows, r), i),
    ensures
        i < rows.len(),
{
    let es = ones_of(r);
    let ms = Seq::new(es.len(), |j: int| canonical_and(column_vars(rows, es[j] as int)));
    if exists|j: int| 0 <= j < ms.len() && has_top(#[trigger] ms[j]) {
        assert(decomposition_of(rows, r) == BasisModel::Top);
    } else {
        let l = Seq::new(ms.len(), |j: int| column_vars(rows, es[j] as int));
        assert forall|j: int| 0 <= j < ms.len() implies #[trigger] ms[j] == BasisModel::And(l[j]) by {
            crate::rowvec::lemma_ones_of(column_of(rows, es[j] as int));
            lemma_increasing_and_well_defined(l[j]);
            if l[j].len() == 0 {
                assert(has_top(ms[j]));
            }
        }
        assert(terms_of(ms) =~= l.to_set()) by {
            assert forall|t: Seq<usize>| terms_of(ms).contains(t) == l.to_set().contains(t) by {
                if terms_of(ms).contains(t) {
                    let j = choose|j: int| 0 <= j < ms.len() && has_term(#[trigger] ms[j], t);
                    assert(l[j] == t);
                }
                if l.to_set().contains(t) {
                    let j = choose|j: int| 0 <= j < l.len() && l[j] == t;
                    assert(has_term(ms[j], t));
                }
            }
        }
        lemma_sorted_terms_exist(l);
        let s = sorted_terms(terms_of(ms));
        assert(s.to_set() == l.to_set());
        let x: int = if s.len() == 1 {
            0
        } else {
            let f = decomposition_of(rows, r);
            let k = choose|k: int| 0 <= k < f->Or_0.len() && bmentions(#[trigger] f->Or_0[k], i);
            k
        };
        assert(0 <= x < s.len());
        assert(s[x].contains(i));
        assert(l.to_set().contains(s[x]));
        let j = choose|j: int| 0 <= j < l.len() && l[j] == s[x];
        let col = column_of(rows, es[j] as int);
        crate::rowvec::lemma_ones_of(col);
        let y = choose|y: int| 0 <= y < l[j].len() && l[j][y] == i;
        assert(ones_of(col)[y] < col.len());
    }
}

} // verus!
