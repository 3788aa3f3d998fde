//! Normalized positive Boolean formulas over location names.

use vstd::prelude::*;

use crate::location::{has_name, insert_sorted_location, names_of, contains_location, LocationId};
use crate::state_formula::minimal_model::{
    canonical_key, clause_holds, clauses_view, key_holds, MinimalModelKey,
};
use crate::location::lemma_names_contains;
use crate::text::{lemma_sorted_list_of, push_char, push_str, sorted_list, strictly_sorted};

verus! {

broadcast use vstd::std_specs::vec::axiom_vec_decreases_to_view;

/// The mathematical content of a state formula.
pub enum Formula {
    Top,
    Bot,
    Var(Seq<char>),
    And(Seq<Formula>),
    Or(Seq<Formula>),
}

/// `true` iff `f` holds when exactly the locations named in `val` are true.
pub open spec fn sat(f: Formula, val: Set<Seq<char>>) -> bool
    decreases f,
{
    match f {
        Formula::Top => true,
        Formula::Bot => false,
        Formula::Var(n) => val.contains(n),
        Formula::And(cs) => forall|i: int| 0 <= i < cs.len() ==> sat(#[trigger] cs[i], val),
        Formula::Or(cs) => exists|i: int| 0 <= i < cs.len() && sat(#[trigger] cs[i], val),
    }
}

#[derive(Debug, PartialEq, Eq, Hash)]
enum Node {
    Top,
    Bot,
    Var(LocationId),
    And(Vec<DagStateFormula>),
    Or(Vec<DagStateFormula>),
}

/// A normalized positive Boolean formula over locations.
///
/// Its view is a [`Formula`].
#[derive(Debug, PartialEq, Eq, Hash)]
pub struct DagStateFormula {
    node: Node,
}

/// The view of a formula.
pub closed spec fn fview(f: DagStateFormula) -> Formula
    decreases f,
{
    match f.node {
        Node::Top => Formula::Top,
        Node::Bot => Formula::Bot,
        Node::Var(l) => Formula::Var(l@),
        Node::And(v) => Formula::And(fviews(v@)),
        Node::Or(v) => Formula::Or(fviews(v@)),
    }
}

/// The views of a sequence of formulas.
pub closed spec fn fviews(s: Seq<DagStateFormula>) -> Seq<Formula>
    decreases s,
{
    if s.len() == 0 {
        Seq::empty()
    } else {
        seq![fview(s[0])] + fviews(s.drop_first())
    }
}

impl View for DagStateFormula {
    type V = Formula;

    closed spec fn view(&self) -> Formula {
        fview(*self)
    }
}

/// `fviews` maps elementwise.
pub proof fn lemma_fviews(s: Seq<DagStateFormula>)
    ensures
        fviews(s).len() == s.len(),
        forall|i: int| 0 <= i < s.len() ==> #[trigger] fviews(s)[i] == s[i]@,
    decreases s.len(),
{
    reveal(fviews);
    if s.len() > 0 {
        lemma_fviews(s.drop_first());
        assert forall|i: int| 0 <= i < s.len() implies #[trigger] fviews(s)[i] == s[i]@ by {
            if i > 0 {
                assert(s.drop_first()[i - 1] == s[i]);
            }
        }
    }
}

/// The views of a vector of formulas.
pub open spec fn views_of(v: Seq<DagStateFormula>) -> Seq<Formula> {
    Seq::new(v.len(), |i: int| v[i]@)
}

proof fn lemma_fviews_eq(s: Seq<DagStateFormula>)
    ensures
        fviews(s) == views_of(s),
{
    lemma_fviews(s);
    assert(fviews(s) =~= views_of(s));
}

proof fn lemma_view_unfold(f: DagStateFormula)
    ensures
        f@ == match f.node {
            Node::Top => Formula::Top,
            Node::Bot => Formula::Bot,
            Node::Var(l) => Formula::Var(l@),
            Node::And(v) => Formula::And(views_of(v@)),
            Node::Or(v) => Formula::Or(views_of(v@)),
        },
{
    reveal(fview);
    match f.node {
        Node::And(v) => lemma_fviews_eq(v@),
        Node::Or(v) => lemma_fviews_eq(v@),
        _ => {},
    }
}

impl Clone for DagStateFormula {
    fn clone(&self) -> (r: Self)
        ensures
            r@ == self@,
    {
        self.duplicate()
    }
}

impl DagStateFormula {
    fn from_node(node: Node) -> (f: DagStateFormula)
        ensures
            f.node == node,
    {
        DagStateFormula { node }
    }

    /// An exact copy of this formula.
    pub fn duplicate(&self) -> (r: DagStateFormula)
        ensures
            r@ == self@,
        decreases self,
    {
        proof {
            lemma_view_unfold(*self);
        }
        let r = match &self.node {
            Node::Top => DagStateFormula::from_node(Node::Top),
            Node::Bot => DagStateFormula::from_node(Node::Bot),
            Node::Var(l) => DagStateFormula::from_node(Node::Var(l.copy_id())),
            Node::And(v) => DagStateFormula::from_node(Node::And(duplicate_all(v))),
            Node::Or(v) => DagStateFormula::from_node(Node::Or(duplicate_all(v))),
        };
        proof {
            lemma_view_unfold(r);
        }
        r
    }

    /// `true` iff both formulas have the same view.
    pub fn same(&self, other: &DagStateFormula) -> (b: bool)
        ensures
            b == (self@ == other@),
        decreases self,
    {
        proof {
            lemma_view_unfold(*self);
            lemma_view_unfold(*other);
        }
        match (&self.node, &other.node) {
            (Node::Top, Node::Top) => true,
            (Node::Bot, Node::Bot) => true,
            (Node::Var(a), Node::Var(b)) => a.same(b),
            (Node::And(a), Node::And(b)) => same_all(a, b),
            (Node::Or(a), Node::Or(b)) => same_all(a, b),
            _ => false,
        }
    }
}

/// Exact copies of all formulas in `v`.
fn duplicate_all(v: &Vec<DagStateFormula>) -> (r: Vec<DagStateFormula>)
    ensures
        views_of(r@) == views_of(v@),
    decreases v,
{
    let mut out: Vec<DagStateFormula> = Vec::new();
    let mut i: usize = 0;
    while i < v.len()
        invariant
            i <= v@.len(),
            out@.len() == i,
            forall|k: int| 0 <= k < i ==> #[trigger] out@[k]@ == v@[k]@,
        decreases v@.len() - i,
    {
        proof {
            assert(decreases_to!(v => v@[i as int]));
        }
        out.push(v[i].duplicate());
        i = i + 1;
    }
    assert(views_of(out@) =~= views_of(v@));
    out
}

/// `true` iff both vectors hold formulas with the same views.
fn same_all(a: &Vec<DagStateFormula>, b: &Vec<DagStateFormula>) -> (r: bool)
    ensures
        r == (views_of(a@) == views_of(b@)),
    decreases a,
{
    if a.len() != b.len() {
        assert(views_of(a@).len() != views_of(b@).len());
        return false;
    }
    let mut i: usize = 0;
    while i < a.len()
        invariant
            a@.len() == b@.len(),
            i <= a@.len(),
            forall|k: int| 0 <= k < i ==> #[trigger] a@[k]@ == b@[k]@,
        decreases a@.len() - i,
    {
        proof {
            assert(decreases_to!(a => a@[i as int]));
        }
        if !a[i].same(&b[i]) {
            assert(views_of(a@)[i as int] != views_of(b@)[i as int]);
            return false;
        }
        i = i + 1;
    }
    assert(views_of(a@) =~= views_of(b@));
    true
}

} // verus!

verus! {

/// The rank of a formula's top-level shape in the canonical child order.
pub open spec fn shape_rank(f: Formula) -> int {
    match f {
        Formula::Var(_) => 0,
        Formula::And(_) => 1,
        Formula::Or(_) => 2,
        Formula::Top => 3,
        Formula::Bot => 4,
    }
}

/// Canonical strict order on formulas: by shape, then by name for variables
/// and lexicographically by children for conjunctions and disjunctions.
pub open spec fn flt(a: Formula, b: Formula) -> bool
    decreases a,
{
    if shape_rank(a) != shape_rank(b) {
        shape_rank(a) < shape_rank(b)
    } else {
        match (a, b) {
            (Formula::Var(x), Formula::Var(y)) => crate::text::seq_lt(x, y),
            (Formula::And(xs), Formula::And(ys)) => flts(xs, ys),
            (Formula::Or(xs), Formula::Or(ys)) => flts(xs, ys),
            _ => false,
        }
    }
}

/// Lexicographic extension of [`flt`] to sequences of formulas.
pub open spec fn flts(xs: Seq<Formula>, ys: Seq<Formula>) -> bool
    decreases xs,
{
    if xs.len() == 0 {
        ys.len() > 0
    } else if ys.len() == 0 {
        false
    } else if xs[0] != ys[0] {
        flt(xs[0], ys[0])
    } else {
        flts(xs.drop_first(), ys.drop_first())
    }
}

/// `true` iff the formulas in `s` are pairwise distinct.
pub open spec fn distinct(s: Seq<Formula>) -> bool {
    forall|i: int, j: int| 0 <= i < j < s.len() ==> s[i] != s[j]
}

/// The normal form every formula built by this module has: constants are
/// folded away, conjunctions (disjunctions) have at least two distinct
/// children, none of which is a constant or a conjunction (disjunction).
pub open spec fn normal(f: Formula) -> bool
    decreases f,
{
    match f {
        Formula::Top | Formula::Bot | Formula::Var(_) => true,
        Formula::And(cs) => {
            &&& cs.len() >= 2
            &&& distinct(cs)
            &&& forall|i: int|
                0 <= i < cs.len() ==> {
                    &&& normal(#[trigger] cs[i])
                    &&& !(cs[i] is Top || cs[i] is Bot || cs[i] is And)
                }
        },
        Formula::Or(cs) => {
            &&& cs.len() >= 2
            &&& distinct(cs)
            &&& forall|i: int|
                0 <= i < cs.len() ==> {
                    &&& normal(#[trigger] cs[i])
                    &&& !(cs[i] is Top || cs[i] is Bot || cs[i] is Or)
                }
        },
    }
}

/// `true` iff every formula of `s` holds under `val`.
pub open spec fn all_sat(s: Seq<Formula>, val: Set<Seq<char>>) -> bool {
    forall|i: int| 0 <= i < s.len() ==> sat(#[trigger] s[i], val)
}

/// `true` iff some formula of `s` holds under `val`.
pub open spec fn any_sat(s: Seq<Formula>, val: Set<Seq<char>>) -> bool {
    exists|i: int| 0 <= i < s.len() && sat(#[trigger] s[i], val)
}

/// The formulas that may stand as children of a normalized conjunction.
pub open spec fn and_child(f: Formula) -> bool {
    normal(f) && !(f is Top || f is Bot || f is And)
}

/// The formulas that may stand as children of a normalized disjunction.
pub open spec fn or_child(f: Formula) -> bool {
    normal(f) && !(f is Top || f is Bot || f is Or)
}

/// Strict order on formulas, decided.
pub fn formula_lt(a: &DagStateFormula, b: &DagStateFormula) -> (r: bool)
    ensures
        r == flt(a@, b@),
    decreases a,
{
    proof {
        lemma_view_unfold(*a);
        lemma_view_unfold(*b);
    }
    let ra = node_rank(&a.node);
    let rb = node_rank(&b.node);
    if ra != rb {
        return ra < rb;
    }
    match (&a.node, &b.node) {
        (Node::Var(x), Node::Var(y)) => x.name_lt(y),
        (Node::And(xs), Node::And(ys)) => formulas_lt(xs, ys),
        (Node::Or(xs), Node::Or(ys)) => formulas_lt(xs, ys),
        _ => false,
    }
}

fn node_rank(n: &Node) -> (r: u8)
    ensures
        r == shape_rank(DagStateFormula { node: *n }@),
{
    proof {
        lemma_view_unfold(DagStateFormula { node: *n });
    }
    match n {
        Node::Var(_) => 0,
        Node::And(_) => 1,
        Node::Or(_) => 2,
        Node::Top => 3,
        Node::Bot => 4,
    }
}

fn formulas_lt(xs: &Vec<DagStateFormula>, ys: &Vec<DagStateFormula>) -> (r: bool)
    ensures
        r == flts(views_of(xs@), views_of(ys@)),
    decreases xs,
{
    let mut i: usize = 0;
    let ghost vx = views_of(xs@);
    let ghost vy = views_of(ys@);
    assert(vx.skip(0) =~= vx);
    assert(vy.skip(0) =~= vy);
    while i < xs.len() && i < ys.len()
        invariant
            vx == views_of(xs@),
            vy == views_of(ys@),
            i <= xs@.len(),
            i <= ys@.len(),
            flts(vx, vy) == flts(vx.skip(i as int), vy.skip(i as int)),
        decreases xs@.len() - i,
    {
        proof {
            assert(decreases_to!(xs => xs@[i as int]));
            assert(vx.skip(i as int)[0] == xs@[i as int]@);
            assert(vy.skip(i as int)[0] == ys@[i as int]@);
            assert(vx.skip(i as int).drop_first() =~= vx.skip(i + 1));
            assert(vy.skip(i as int).drop_first() =~= vy.skip(i + 1));
        }
        if !xs[i].same(&ys[i]) {
            return formula_lt(&xs[i], &ys[i]);
        }
        i = i + 1;
    }
    i == xs.len() && i < ys.len()
}

/// Add `x` to `children` unless a formula with the same view is present;
/// a new child goes before the first one it precedes.
fn insert_child(children: &mut Vec<DagStateFormula>, x: DagStateFormula)
    ensures
        distinct(views_of(old(children)@)) ==> distinct(views_of(final(children)@)),
        forall|f: Formula|
            views_of(final(children)@).contains(f) <==> (views_of(old(children)@).contains(f) || f
                == x@),
{
    let ghost old_v = views_of(children@);
    let mut k: usize = 0;
    while k < children.len()
        invariant
            children@ == old(children)@,
            k <= children@.len(),
            forall|j: int| 0 <= j < k ==> children@[j]@ != x@,
        decreases children@.len() - k,
    {
        if children[k].same(&x) {
            proof {
                assert(views_of(children@)[k as int] == x@);
            }
            return;
        }
        k = k + 1;
    }
    let mut pos: usize = 0;
    while pos < children.len() && !formula_lt(&x, &children[pos])
        invariant
            children@ == old(children)@,
            pos <= children@.len(),
        decreases children@.len() - pos,
    {
        pos = pos + 1;
    }
    let ghost xv = x@;
    children.insert(pos, x);
    proof {
        let nv = views_of(children@);
        assert(nv =~= old_v.insert(pos as int, xv));
        assert forall|f: Formula| nv.contains(f) <==> (old_v.contains(f) || f == xv) by {
            if nv.contains(f) {
                let j = choose|j: int| 0 <= j < nv.len() && nv[j] == f;
                if j < pos {
                    assert(old_v[j] == f);
                } else if j > pos {
                    assert(old_v[j - 1] == f);
                }
            }
            if old_v.contains(f) {
                let j = choose|j: int| 0 <= j < old_v.len() && old_v[j] == f;
                if j < pos {
                    assert(nv[j] == f);
                } else {
                    assert(nv[j + 1] == f);
                }
            }
            if f == xv {
                assert(nv[pos as int] == f);
            }
        }
        if distinct(old_v) {
            assert forall|i: int, j: int| 0 <= i < j < nv.len() implies nv[i] != nv[j] by {
                if i == pos {
                    assert(nv[j] == old_v[j - 1]);
                } else if j == pos {
                    assert(nv[i] == old_v[i]);
                } else if i < pos && j < pos {
                } else if i < pos {
                    assert(nv[j] == old_v[j - 1]);
                } else {
                    assert(nv[i] == old_v[i - 1]);
                    assert(nv[j] == old_v[j - 1]);
                }
            }
        }
    }
}

} // verus!

verus! {

/// `all_sat` only depends on which formulas a sequence contains.
pub proof fn lemma_all_sat_contains(s: Seq<Formula>, val: Set<Seq<char>>)
    ensures
        all_sat(s, val) <==> forall|f: Formula| s.contains(f) ==> sat(f, val),
{
    if all_sat(s, val) {
        assert forall|f: Formula| s.contains(f) implies sat(f, val) by {
            let j = choose|j: int| 0 <= j < s.len() && s[j] == f;
        }
    }
    if forall|f: Formula| s.contains(f) ==> sat(f, val) {
        assert forall|i: int| 0 <= i < s.len() implies sat(#[trigger] s[i], val) by {
            assert(s.contains(s[i]));
        }
    }
}

/// `any_sat` only depends on which formulas a sequence contains.
pub proof fn lemma_any_sat_contains(s: Seq<Formula>, val: Set<Seq<char>>)
    ensures
        any_sat(s, val) <==> exists|f: Formula| s.contains(f) && sat(f, val),
{
    if any_sat(s, val) {
        let i = choose|i: int| 0 <= i < s.len() && sat(s[i], val);
        assert(s.contains(s[i]));
    }
    if exists|f: Formula| s.contains(f) && sat(f, val) {
        let f = choose|f: Formula| s.contains(f) && sat(f, val);
        let j = choose|j: int| 0 <= j < s.len() && s[j] == f;
        assert(sat(s[j], val));
    }
}

/// A conjunction holds iff all its children hold.
pub proof fn lemma_sat_and(cs: Seq<Formula>, val: Set<Seq<char>>)
    ensures
        sat(Formula::And(cs), val) == all_sat(cs, val),
{
    let f = Formula::And(cs);
    if sat(f, val) {
        assert forall|i: int| 0 <= i < cs.len() implies sat(#[trigger] cs[i], val) by {
            assert(f->And_0[i] == cs[i]);
        }
    }
    if all_sat(cs, val) {
        assert forall|i: int| 0 <= i < f->And_0.len() implies sat(#[trigger] f->And_0[i], val) by {
            assert(f->And_0[i] == cs[i]);
        }
    }
}

/// A disjunction holds iff some child holds.
pub proof fn lemma_sat_or(cs: Seq<Formula>, val: Set<Seq<char>>)
    ensures
        sat(Formula::Or(cs), val) == any_sat(cs, val),
{
    let f = Formula::Or(cs);
    if sat(f, val) {
        let i = choose|i: int| 0 <= i < f->Or_0.len() && sat(#[trigger] f->Or_0[i], val);
        assert(sat(cs[i], val));
    }
    if any_sat(cs, val) {
        let i = choose|i: int| 0 <= i < cs.len() && sat(#[trigger] cs[i], val);
        assert(sat(f->Or_0[i], val));
    }
}

/// Conjunction over a union of contents is the conjunction of the parts.
pub proof fn lemma_all_sat_union(new: Seq<Formula>, old: Seq<Formula>, add: Seq<Formula>, val: Set<Seq<char>>)
    requires
        forall|f: Formula| new.contains(f) <==> (old.contains(f) || add.contains(f)),
    ensures
        all_sat(new, val) == (all_sat(old, val) && all_sat(add, val)),
{
    lemma_all_sat_contains(new, val);
    lemma_all_sat_contains(old, val);
    lemma_all_sat_contains(add, val);
}

/// Conjunction over a pushed sequence.
pub proof fn lemma_all_sat_push(s: Seq<Formula>, x: Formula, val: Set<Seq<char>>)
    ensures
        all_sat(s.push(x), val) == (all_sat(s, val) && sat(x, val)),
{
    if all_sat(s.push(x), val) {
        assert(s.push(x)[s.len() as int] == x);
        assert forall|i: int| 0 <= i < s.len() implies sat(#[trigger] s[i], val) by {
            assert(s.push(x)[i] == s[i]);
        }
    }
    if all_sat(s, val) && sat(x, val) {
        assert forall|i: int| 0 <= i < s.len() + 1 implies sat(#[trigger] s.push(x)[i], val) by {
            if i < s.len() {
                assert(s.push(x)[i] == s[i]);
            }
        }
    }
}

/// Disjunction over a union of contents is the disjunction of the parts.
pub proof fn lemma_any_sat_union(new: Seq<Formula>, old: Seq<Formula>, add: Seq<Formula>, val: Set<Seq<char>>)
    requires
        forall|f: Formula| new.contains(f) <==> (old.contains(f) || add.contains(f)),
    ensures
        any_sat(new, val) == (any_sat(old, val) || any_sat(add, val)),
{
    lemma_any_sat_contains(new, val);
    lemma_any_sat_contains(old, val);
    lemma_any_sat_contains(add, val);
}

/// Disjunction over a pushed sequence.
pub proof fn lemma_any_sat_push(s: Seq<Formula>, x: Formula, val: Set<Seq<char>>)
    ensures
        any_sat(s.push(x), val) == (any_sat(s, val) || sat(x, val)),
{
    if any_sat(s.push(x), val) {
        let i = choose|i: int| 0 <= i < s.len() + 1 && sat(#[trigger] s.push(x)[i], val);
        if i < s.len() {
            assert(s.push(x)[i] == s[i]);
        }
    }
    if any_sat(s, val) {
        let i = choose|i: int| 0 <= i < s.len() && sat(#[trigger] s[i], val);
        assert(s.push(x)[i] == s[i]);
    }
    if sat(x, val) {
        assert(s.push(x)[s.len() as int] == x);
    }
}

/// The contents of `s.take(k + 1)` are those of `s.take(k)` and `s[k]`.
pub proof fn lemma_take_push_contains(s: Seq<Formula>, k: int)
    requires
        0 <= k < s.len(),
    ensures
        s.take(k + 1) == s.take(k).push(s[k]),
        forall|f: Formula| s.take(k + 1).contains(f) <==> (s.take(k).contains(f) || f == s[k]),
{
    let a = s.take(k);
    let b = s.take(k + 1);
    assert(b =~= a.push(s[k]));
    assert forall|f: Formula| b.contains(f) <==> (a.contains(f) || f == s[k]) by {
        if b.contains(f) {
            let j = choose|j: int| 0 <= j < b.len() && #[trigger] b[j] == f;
            if j < k {
                assert(a[j] == f);
            }
        }
        if a.contains(f) {
            let j = choose|j: int| 0 <= j < a.len() && #[trigger] a[j] == f;
            assert(b[j] == f);
        }
        if f == s[k] {
            assert(b[k] == f);
        }
    }
}

/// `views_of` indexes elementwise.
pub proof fn lemma_views_of_index(v: Seq<DagStateFormula>, i: int)
    requires
        0 <= i < v.len(),
    ensures
        views_of(v)[i] == v[i]@,
        views_of(v).contains(v[i]@),
{
    assert(views_of(v)[i] == v[i]@);
}

/// Manager for [`DagStateFormula`] values.
///
/// Formulas are plain normalized values, so the manager carries no state; it
/// is kept as the handle through which formulas are built.
#[derive(Debug)]
pub struct DagStateFormulaManager {}

impl DagStateFormulaManager {
    /// Create a new manager.
    pub fn new() -> (m: std::sync::Arc<DagStateFormulaManager>)
        ensures
            *m == (DagStateFormulaManager {}),
    {
        std::sync::Arc::new(DagStateFormulaManager {})
    }
}

/// `f` is a child of `t`, a conjunction when `and` holds and a disjunction
/// otherwise.
pub open spec fn child_of(t: Formula, f: Formula, and: bool) -> bool {
    match t {
        Formula::And(cs) => and && cs.contains(f),
        Formula::Or(cs) => !and && cs.contains(f),
        _ => false,
    }
}

/// `f` is one of `tv`, or a child of one of its conjunctions (`and` true)
/// or disjunctions (`and` false).
pub open spec fn from_terms(tv: Seq<Formula>, f: Formula, and: bool) -> bool {
    exists|i: int| 0 <= i < tv.len() && (#[trigger] tv[i] == f || child_of(tv[i], f, and))
}

/// A location that occurs in a formula drawn from `tv` occurs in `tv`.
proof fn lemma_from_terms_occurs(tv: Seq<Formula>, cs: Seq<Formula>, and: bool, n: Seq<char>)
    requires
        forall|f: Formula| cs.contains(f) ==> from_terms(tv, f, and),
        occurs_any(cs, n),
    ensures
        occurs_any(tv, n),
{
    let j = choose|j: int| 0 <= j < cs.len() && occurs(#[trigger] cs[j], n);
    let f = cs[j];
    assert(cs.contains(f));
    let i = choose|i: int| 0 <= i < tv.len() && (#[trigger] tv[i] == f || child_of(tv[i], f, and));
    if tv[i] != f {
        match tv[i] {
            Formula::And(xs) => {
                let k = choose|k: int| 0 <= k < xs.len() && xs[k] == f;
                assert(occurs(xs[k], n));
            },
            Formula::Or(xs) => {
                let k = choose|k: int| 0 <= k < xs.len() && xs[k] == f;
                assert(occurs(xs[k], n));
            },
            _ => {},
        }
    }
    assert(occurs(tv[i], n));
}

impl DagStateFormula {
    /// The constant `⊤`.
    pub fn top(mgr: &DagStateFormulaManager) -> (f: DagStateFormula)
        ensures
            f@ == Formula::Top,
    {
        proof {
            lemma_view_unfold(DagStateFormula { node: Node::Top });
        }
        DagStateFormula { node: Node::Top }
    }

    /// The constant `⊥`.
    pub fn bot(mgr: &DagStateFormulaManager) -> (f: DagStateFormula)
        ensures
            f@ == Formula::Bot,
    {
        proof {
            lemma_view_unfold(DagStateFormula { node: Node::Bot });
        }
        DagStateFormula { node: Node::Bot }
    }

    /// The variable for location `v`.
    pub fn var(mgr: &DagStateFormulaManager, v: LocationId) -> (f: DagStateFormula)
        ensures
            f@ == Formula::Var(v@),
    {
        let f = DagStateFormula { node: Node::Var(v) };
        proof {
            lemma_view_unfold(f);
        }
        f
    }

    /// The normalized conjunction of `terms`.
    ///
    /// Nested conjunctions are flattened, `⊤` is dropped, `⊥` absorbs,
    /// duplicates are removed and children are kept in canonical order; the
    /// empty conjunction is `⊤` and a single child stands for itself.
    pub fn and(mgr: &DagStateFormulaManager, terms: Vec<DagStateFormula>) -> (f: DagStateFormula)
        ensures
            forall|val: Set<Seq<char>>| sat(f@, val) == all_sat(views_of(terms@), val),
            (forall|i: int| 0 <= i < terms@.len() ==> normal(#[trigger] terms@[i]@)) ==> normal(f@),
            forall|n: Seq<char>| occurs(f@, n) ==> occurs_any(views_of(terms@), n),
    {
        let ghost tv = views_of(terms@);
        let mut children: Vec<DagStateFormula> = Vec::new();
        let mut t: usize = 0;
        while t < terms.len()
            invariant
                tv == views_of(terms@),
                t <= terms@.len(),
                distinct(views_of(children@)),
                forall|f: Formula| views_of(children@).contains(f) ==> from_terms(tv, f, true),
                (forall|i: int| 0 <= i < terms@.len() ==> normal(#[trigger] terms@[i]@)) ==> (forall|
                    i: int,
                | 0 <= i < children@.len() ==> and_child(#[trigger] children@[i]@)),
                forall|val: Set<Seq<char>>|
                    all_sat(views_of(children@), val) == all_sat(tv.take(t as int), val),
            decreases terms@.len() - t,
        {
            let term = &terms[t];
            proof {
                lemma_view_unfold(*term);
                assert(tv.take(t + 1) =~= tv.take(t as int).push(term@));
            }
            match &term.node {
                Node::Bot => {
                    proof {
                        assert(!all_sat(tv, Set::empty()) || true);
                        assert forall|val: Set<Seq<char>>| !all_sat(tv, val) by {
                            assert(tv[t as int] == Formula::Bot);
                        }
                    }
                    return DagStateFormula::bot(mgr);
                },
                Node::Top => {},
                Node::And(sub) => {
                    let ghost before = views_of(children@);
                    let mut s: usize = 0;
                    while s < sub.len()
                        invariant
                            t < terms@.len(),
                            term == terms@[t as int],
                            term.node == Node::And(*sub),
                            term@ == Formula::And(views_of(sub@)),
                            s <= sub@.len(),
                            distinct(views_of(children@)),
                            tv == views_of(terms@),
                            forall|f: Formula| views_of(children@).contains(f) ==> from_terms(tv, f, true),
                            (forall|i: int| 0 <= i < terms@.len() ==> normal(#[trigger] terms@[i]@)) ==> (
                            forall|i: int|
                                0 <= i < children@.len() ==> and_child(#[trigger] children@[i]@)),
                            forall|f: Formula|
                                views_of(children@).contains(f) <==> (before.contains(f) || views_of(
                                    sub@,
                                ).take(s as int).contains(f)),
                        decreases sub@.len() - s,
                    {
                        let ghost old_children = children@;
                        let c = sub[s].duplicate();
                        let ghost cv0 = c@;
                        insert_child(&mut children, c);
                        proof {
                            assert(cv0 == views_of(sub@)[s as int]);
                            assert(views_of(sub@).contains(cv0));
                            assert(tv[t as int] == term@);
                            assert(child_of(tv[t as int], cv0, true));
                            assert(from_terms(tv, cv0, true));
                            assert forall|f: Formula| views_of(children@).contains(f) implies from_terms(tv, f, true) by {
                                if f != cv0 {
                                    assert(views_of(old_children).contains(f));
                                }
                            }
                            let sv = views_of(sub@);
                            lemma_views_of_index(sub@, s as int);
                            lemma_take_push_contains(sv, s as int);
                            let sb = sv.take(s + 1);
                            assert forall|f: Formula|
                                views_of(children@).contains(f) <==> (before.contains(f)
                                    || sb.contains(f)) by {}
                            if forall|i: int| 0 <= i < terms@.len() ==> normal(#[trigger] terms@[i]@) {
                                assert(normal(terms@[t as int]@));
                                assert(and_child(sv[s as int]));
                                assert forall|i: int|
                                    0 <= i < children@.len() implies and_child(
                                    #[trigger] children@[i]@,
                                ) by {
                                    lemma_views_of_index(children@, i);
                                    if !views_of(old_children).contains(children@[i]@) {
                                        assert(children@[i]@ == sub@[s as int]@);
                                    } else {
                                        let j = choose|j: int|
                                            0 <= j < old_children.len() && views_of(old_children)[j]
                                                == children@[i]@;
                                        lemma_views_of_index(old_children, j);
                                    }
                                }
                            }
                        }
                        s = s + 1;
                    }
                    proof {
                        assert(s == sub@.len());
                        assert(views_of(sub@).take(s as int) =~= views_of(sub@));
                        lemma_take_push_contains(tv, t as int);
                        assert forall|f: Formula|
                            views_of(children@).contains(f) <==> (before.contains(f) || views_of(
                                sub@,
                            ).contains(f)) by {}
                        assert(term@ == Formula::And(views_of(sub@)));
                        assert forall|val: Set<Seq<char>>|
                            all_sat(views_of(children@), val) == all_sat(tv.take(t + 1), val) by {
                            lemma_all_sat_union(views_of(children@), before, views_of(sub@), val);
                            lemma_all_sat_push(tv.take(t as int), term@, val);
                            lemma_sat_and(views_of(sub@), val);
                        }
                    }
                },
                _ => {
                    let ghost old_children = children@;
                    let c = term.duplicate();
                    insert_child(&mut children, c);
                    proof {
                        assert(tv[t as int] == term@);
                        assert(from_terms(tv, term@, true));
                        assert forall|f: Formula| views_of(children@).contains(f) implies from_terms(tv, f, true) by {
                            if f != term@ {
                                assert(views_of(old_children).contains(f));
                            }
                        }
                        if forall|i: int| 0 <= i < terms@.len() ==> normal(#[trigger] terms@[i]@) {
                            assert(normal(terms@[t as int]@));
                            assert forall|i: int|
                                0 <= i < children@.len() implies and_child(#[trigger] children@[i]@) by {
                                lemma_views_of_index(children@, i);
                                if !views_of(old_children).contains(children@[i]@) {
                                    assert(children@[i]@ == term@);
                                } else {
                                    let j = choose|j: int|
                                        0 <= j < old_children.len() && views_of(old_children)[j]
                                            == children@[i]@;
                                    lemma_views_of_index(old_children, j);
                                }
                            }
                        }
                        lemma_take_push_contains(tv, t as int);
                        assert forall|val: Set<Seq<char>>|
                            all_sat(views_of(children@), val) == all_sat(tv.take(t + 1), val) by {
                            assert forall|f: Formula| views_of(children@).contains(f) <==> (views_of(old_children).contains(f) || seq![term@].contains(f)) by {
                                if f == term@ {
                                    assert(seq![term@][0] == f);
                                }
                            }
                            lemma_all_sat_union(views_of(children@), views_of(old_children), seq![term@], val);
                            lemma_all_sat_push(tv.take(t as int), term@, val);
                            lemma_all_sat_push(Seq::empty(), term@, val);
                            assert(seq![term@] =~= Seq::<Formula>::empty().push(term@));
                        }
                    }
                },
            }
            proof {
                if term@ == Formula::Top {
                    lemma_take_push_contains(tv, t as int);
                    assert forall|val: Set<Seq<char>>|
                        all_sat(views_of(children@), val) == all_sat(tv.take(t + 1), val) by {
                        lemma_all_sat_push(tv.take(t as int), term@, val);
                    }
                }
            }
            t = t + 1;
        }
        proof {
            assert(tv.take(terms@.len() as int) =~= tv);
        }
        if children.len() == 0 {
            proof {
                assert forall|val: Set<Seq<char>>| all_sat(views_of(terms@), val) by {
                    assert(all_sat(views_of(children@), val));
                }
            }
            return DagStateFormula::top(mgr);
        }
        if children.len() == 1 {
            let ghost before_pop = children@;
            let only = children.pop().unwrap();
            proof {
                assert forall|n: Seq<char>| occurs(only@, n) implies occurs_any(views_of(terms@), n) by {
                    lemma_views_of_index(before_pop, 0);
                    assert(occurs_any(views_of(before_pop), n));
                    lemma_from_terms_occurs(tv, views_of(before_pop), true, n);
                }
                lemma_views_of_index(before_pop, 0);
                assert(views_of(before_pop) =~= Seq::<Formula>::empty().push(only@));
                assert forall|val: Set<Seq<char>>| sat(only@, val) == all_sat(views_of(terms@), val) by {
                    lemma_all_sat_push(Seq::<Formula>::empty(), only@, val);
                }
                if forall|i: int| 0 <= i < terms@.len() ==> normal(#[trigger] terms@[i]@) {
                    assert(and_child(before_pop[0]@));
                }
            }
            return only;
        }
        let ghost cv = views_of(children@);
        let f = DagStateFormula { node: Node::And(children) };
        proof {
            lemma_view_unfold(f);
            assert forall|n: Seq<char>| occurs(f@, n) implies occurs_any(views_of(terms@), n) by {
                assert(occurs_any(cv, n));
                lemma_from_terms_occurs(tv, cv, true, n);
            }
            assert(f@ == Formula::And(cv));
            assert forall|val: Set<Seq<char>>| sat(f@, val) == all_sat(views_of(terms@), val) by {
                lemma_sat_and(cv, val);
            }
            if forall|i: int| 0 <= i < terms@.len() ==> normal(#[trigger] terms@[i]@) {
                assert forall|i: int| 0 <= i < cv.len() implies normal(#[trigger] cv[i]) && !(cv[i] is Top || cv[i] is Bot || cv[i] is And) by {
                    assert(and_child(children@[i]@));
                }
            }
        }
        f
    }

    /// The normalized disjunction of `terms`.
    ///
    /// Nested disjunctions are flattened, `⊥` is dropped, `⊤` absorbs,
    /// duplicates are removed and children are kept in canonical order; the
    /// empty disjunction is `⊥` and a single child stands for itself.
    pub fn or(mgr: &DagStateFormulaManager, terms: Vec<DagStateFormula>) -> (f: DagStateFormula)
        ensures
            forall|val: Set<Seq<char>>| sat(f@, val) == any_sat(views_of(terms@), val),
            (forall|i: int| 0 <= i < terms@.len() ==> normal(#[trigger] terms@[i]@)) ==> normal(f@),
            forall|n: Seq<char>| occurs(f@, n) ==> occurs_any(views_of(terms@), n),
    {
        let ghost tv = views_of(terms@);
        let mut children: Vec<DagStateFormula> = Vec::new();
        let mut t: usize = 0;
        while t < terms.len()
            invariant
                tv == views_of(terms@),
                t <= terms@.len(),
                distinct(views_of(children@)),
                forall|f: Formula| views_of(children@).contains(f) ==> from_terms(tv, f, false),
                (forall|i: int| 0 <= i < terms@.len() ==> normal(#[trigger] terms@[i]@)) ==> (forall|
                    i: int,
                | 0 <= i < children@.len() ==> or_child(#[trigger] children@[i]@)),
                forall|val: Set<Seq<char>>|
                    any_sat(views_of(children@), val) == any_sat(tv.take(t as int), val),
            decreases terms@.len() - t,
        {
            let term = &terms[t];
            proof {
                lemma_view_unfold(*term);
                assert(tv.take(t + 1) =~= tv.take(t as int).push(term@));
            }
            match &term.node {
                Node::Top => {
                    proof {
                        assert forall|val: Set<Seq<char>>| any_sat(tv, val) by {
                            assert(tv[t as int] == Formula::Top);
                            assert(sat(tv[t as int], val));
                        }
                    }
                    return DagStateFormula::top(mgr);
                },
                Node::Bot => {},
                Node::Or(sub) => {
                    let ghost before = views_of(children@);
                    let mut s: usize = 0;
                    while s < sub.len()
                        invariant
                            t < terms@.len(),
                            term == terms@[t as int],
                            term.node == Node::Or(*sub),
                            term@ == Formula::Or(views_of(sub@)),
                            s <= sub@.len(),
                            distinct(views_of(children@)),
                            tv == views_of(terms@),
                            forall|f: Formula| views_of(children@).contains(f) ==> from_terms(tv, f, false),
                            (forall|i: int| 0 <= i < terms@.len() ==> normal(#[trigger] terms@[i]@)) ==> (
                            forall|i: int|
                                0 <= i < children@.len() ==> or_child(#[trigger] children@[i]@)),
                            forall|f: Formula|
                                views_of(children@).contains(f) <==> (before.contains(f) || views_of(
                                    sub@,
                                ).take(s as int).contains(f)),
                        decreases sub@.len() - s,
                    {
                        let ghost old_children = children@;
                        let c = sub[s].duplicate();
                        let ghost cv0 = c@;
                        insert_child(&mut children, c);
                        proof {
                            assert(cv0 == views_of(sub@)[s as int]);
                            assert(views_of(sub@).contains(cv0));
                            assert(tv[t as int] == term@);
                            assert(child_of(tv[t as int], cv0, false));
                            assert(from_terms(tv, cv0, false));
                            assert forall|f: Formula| views_of(children@).contains(f) implies from_terms(tv, f, false) by {
                                if f != cv0 {
                                    assert(views_of(old_children).contains(f));
                                }
                            }
                            let sv = views_of(sub@);
                            lemma_views_of_index(sub@, s as int);
                            lemma_take_push_contains(sv, s as int);
                            let sb = sv.take(s + 1);
                            assert forall|f: Formula|
                                views_of(children@).contains(f) <==> (before.contains(f)
                                    || sb.contains(f)) by {}
                            if forall|i: int| 0 <= i < terms@.len() ==> normal(#[trigger] terms@[i]@) {
                                assert(normal(terms@[t as int]@));
                                assert(or_child(sv[s as int]));
                                assert forall|i: int|
                                    0 <= i < children@.len() implies or_child(
                                    #[trigger] children@[i]@,
                                ) by {
                                    lemma_views_of_index(children@, i);
                                    if !views_of(old_children).contains(children@[i]@) {
                                        assert(children@[i]@ == sub@[s as int]@);
                                    } else {
                                        let j = choose|j: int|
                                            0 <= j < old_children.len() && views_of(old_children)[j]
                                                == children@[i]@;
                                        lemma_views_of_index(old_children, j);
                                    }
                                }
                            }
                        }
                        s = s + 1;
                    }
                    proof {
                        assert(s == sub@.len());
                        assert(views_of(sub@).take(s as int) =~= views_of(sub@));
                        lemma_take_push_contains(tv, t as int);
                        assert forall|f: Formula|
                            views_of(children@).contains(f) <==> (before.contains(f) || views_of(
                                sub@,
                            ).contains(f)) by {}
                        assert(term@ == Formula::Or(views_of(sub@)));
                        assert forall|val: Set<Seq<char>>|
                            any_sat(views_of(children@), val) == any_sat(tv.take(t + 1), val) by {
                            lemma_any_sat_union(views_of(children@), before, views_of(sub@), val);
                            lemma_any_sat_push(tv.take(t as int), term@, val);
                            lemma_sat_or(views_of(sub@), val);
                        }
                    }
                },
                _ => {
                    let ghost old_children = children@;
                    let c = term.duplicate();
                    insert_child(&mut children, c);
                    proof {
                        assert(tv[t as int] == term@);
                        assert(from_terms(tv, term@, false));
                        assert forall|f: Formula| views_of(children@).contains(f) implies from_terms(tv, f, false) by {
                            if f != term@ {
                                assert(views_of(old_children).contains(f));
                            }
                        }
                        if forall|i: int| 0 <= i < terms@.len() ==> normal(#[trigger] terms@[i]@) {
                            assert(normal(terms@[t as int]@));
                            assert forall|i: int|
                                0 <= i < children@.len() implies or_child(#[trigger] children@[i]@) by {
                                lemma_views_of_index(children@, i);
                                if !views_of(old_children).contains(children@[i]@) {
                                    assert(children@[i]@ == term@);
                                } else {
                                    let j = choose|j: int|
                                        0 <= j < old_children.len() && views_of(old_children)[j]
                                            == children@[i]@;
                                    lemma_views_of_index(old_children, j);
                                }
                            }
                        }
                        lemma_take_push_contains(tv, t as int);
                        assert forall|val: Set<Seq<char>>|
                            any_sat(views_of(children@), val) == any_sat(tv.take(t + 1), val) by {
                            assert forall|f: Formula| views_of(children@).contains(f) <==> (views_of(old_children).contains(f) || seq![term@].contains(f)) by {
                                if f == term@ {
                                    assert(seq![term@][0] == f);
                                }
                            }
                            lemma_any_sat_union(views_of(children@), views_of(old_children), seq![term@], val);
                            lemma_any_sat_push(tv.take(t as int), term@, val);
                            lemma_any_sat_push(Seq::empty(), term@, val);
                            assert(seq![term@] =~= Seq::<Formula>::empty().push(term@));
                        }
                    }
                },
            }
            proof {
                if term@ == Formula::Bot {
                    lemma_take_push_contains(tv, t as int);
                    assert forall|val: Set<Seq<char>>|
                        any_sat(views_of(children@), val) == any_sat(tv.take(t + 1), val) by {
                        lemma_any_sat_push(tv.take(t as int), term@, val);
                    }
                }
            }
            t = t + 1;
        }
        proof {
            assert(tv.take(terms@.len() as int) =~= tv);
        }
        if children.len() == 0 {
            proof {
                assert forall|val: Set<Seq<char>>| !any_sat(views_of(terms@), val) by {
                    assert(!any_sat(views_of(children@), val));
                }
            }
            return DagStateFormula::bot(mgr);
        }
        if children.len() == 1 {
            let ghost before_pop = children@;
            let only = children.pop().unwrap();
            proof {
                assert forall|n: Seq<char>| occurs(only@, n) implies occurs_any(views_of(terms@), n) by {
                    lemma_views_of_index(before_pop, 0);
                    assert(occurs_any(views_of(before_pop), n));
                    lemma_from_terms_occurs(tv, views_of(before_pop), false, n);
                }
                lemma_views_of_index(before_pop, 0);
                assert(views_of(before_pop) =~= Seq::<Formula>::empty().push(only@));
                assert forall|val: Set<Seq<char>>| sat(only@, val) == any_sat(views_of(terms@), val) by {
                    lemma_any_sat_push(Seq::<Formula>::empty(), only@, val);
                }
                if forall|i: int| 0 <= i < terms@.len() ==> normal(#[trigger] terms@[i]@) {
                    assert(or_child(before_pop[0]@));
                }
            }
            return only;
        }
        let ghost cv = views_of(children@);
        let f = DagStateFormula { node: Node::Or(children) };
        proof {
            lemma_view_unfold(f);
            assert forall|n: Seq<char>| occurs(f@, n) implies occurs_any(views_of(terms@), n) by {
                assert(occurs_any(cv, n));
                lemma_from_terms_occurs(tv, cv, false, n);
            }
            assert(f@ == Formula::Or(cv));
            assert forall|val: Set<Seq<char>>| sat(f@, val) == any_sat(views_of(terms@), val) by {
                lemma_sat_or(cv, val);
            }
            if forall|i: int| 0 <= i < terms@.len() ==> normal(#[trigger] terms@[i]@) {
                assert forall|i: int| 0 <= i < cv.len() implies normal(#[trigger] cv[i]) && !(cv[i] is Top || cv[i] is Bot || cv[i] is Or) by {
                    assert(or_child(children@[i]@));
                }
            }
        }
        f
    }
}

} // verus!

verus! {

/// `true` iff location name `n` occurs in `f`.
pub open spec fn occurs(f: Formula, n: Seq<char>) -> bool
    decreases f,
{
    match f {
        Formula::Var(m) => m == n,
        Formula::And(cs) => exists|i: int| 0 <= i < cs.len() && occurs(#[trigger] cs[i], n),
        Formula::Or(cs) => exists|i: int| 0 <= i < cs.len() && occurs(#[trigger] cs[i], n),
        _ => false,
    }
}

/// The set of names of the locations in `s`.
pub open spec fn name_set(s: Seq<LocationId>) -> Set<Seq<char>> {
    Set::new(|n: Seq<char>| has_name(s, n))
}

proof fn lemma_occurs_children(cs: Seq<Formula>, n: Seq<char>, is_and: bool)
    ensures
        occurs(if is_and { Formula::And(cs) } else { Formula::Or(cs) }, n) <==> exists|i: int|
            0 <= i < cs.len() && occurs(#[trigger] cs[i], n),
{
    let f = if is_and {
        Formula::And(cs)
    } else {
        Formula::Or(cs)
    };
    if occurs(f, n) {
        if is_and {
            let i = choose|i: int| 0 <= i < f->And_0.len() && occurs(#[trigger] f->And_0[i], n);
            assert(occurs(cs[i], n));
        } else {
            let i = choose|i: int| 0 <= i < f->Or_0.len() && occurs(#[trigger] f->Or_0[i], n);
            assert(occurs(cs[i], n));
        }
    }
    if exists|i: int| 0 <= i < cs.len() && occurs(#[trigger] cs[i], n) {
        let i = choose|i: int| 0 <= i < cs.len() && occurs(#[trigger] cs[i], n);
        if is_and {
            assert(occurs(f->And_0[i], n));
        } else {
            assert(occurs(f->Or_0[i], n));
        }
    }
}

/// `acc` with the names occurring in `f` added, kept sorted.
fn collect_vars(f: &DagStateFormula, acc: Vec<LocationId>) -> (r: Vec<LocationId>)
    requires
        strictly_sorted(names_of(acc@)),
    ensures
        strictly_sorted(names_of(r@)),
        forall|n: Seq<char>| has_name(r@, n) <==> (has_name(acc@, n) || occurs(f@, n)),
    decreases f,
{
    proof {
        lemma_view_unfold(*f);
    }
    match &f.node {
        Node::Var(l) => {
            let mut acc = acc;
            insert_sorted_location(&mut acc, l.copy_id());
            acc
        },
        Node::And(cs) => {
            let r = collect_vars_all(cs, acc);
            proof {
                assert forall|n: Seq<char>| has_name(r@, n) <==> (has_name(acc@, n) || occurs(f@, n)) by {
                    lemma_occurs_children(views_of(cs@), n, true);
                    assert(occurs_any(views_of(cs@), n) == exists|j: int|
                        0 <= j < views_of(cs@).len() && occurs(#[trigger] views_of(cs@)[j], n));
                }
            }
            r
        },
        Node::Or(cs) => {
            let r = collect_vars_all(cs, acc);
            proof {
                assert forall|n: Seq<char>| has_name(r@, n) <==> (has_name(acc@, n) || occurs(f@, n)) by {
                    lemma_occurs_children(views_of(cs@), n, false);
                    assert(occurs_any(views_of(cs@), n) == exists|j: int|
                        0 <= j < views_of(cs@).len() && occurs(#[trigger] views_of(cs@)[j], n));
                }
            }
            r
        },
        _ => acc,
    }
}

/// `true` iff `n` occurs in some formula of `cs`.
pub open spec fn occurs_any(cs: Seq<Formula>, n: Seq<char>) -> bool {
    exists|j: int| 0 <= j < cs.len() && occurs(#[trigger] cs[j], n)
}

proof fn lemma_occurs_any_take(cs: Seq<Formula>, i: int, n: Seq<char>)
    requires
        0 <= i < cs.len(),
    ensures
        occurs_any(cs.take(i + 1), n) == (occurs_any(cs.take(i), n) || occurs(cs[i], n)),
{
    let a = cs.take(i);
    let b = cs.take(i + 1);
    if occurs_any(b, n) {
        let j = choose|j: int| 0 <= j < b.len() && occurs(#[trigger] b[j], n);
        if j < i {
            assert(a[j] == b[j]);
        }
    }
    if occurs_any(a, n) {
        let j = choose|j: int| 0 <= j < a.len() && occurs(#[trigger] a[j], n);
        assert(b[j] == a[j]);
    }
    if occurs(cs[i], n) {
        assert(b[i] == cs[i]);
    }
}

/// `acc` with the names occurring in any of `cs` added, kept sorted.
fn collect_vars_all(cs: &Vec<DagStateFormula>, acc: Vec<LocationId>) -> (r: Vec<LocationId>)
    requires
        strictly_sorted(names_of(acc@)),
    ensures
        strictly_sorted(names_of(r@)),
        forall|n: Seq<char>| has_name(r@, n) <==> (has_name(acc@, n) || occurs_any(views_of(cs@), n)),
    decreases cs,
{
    let ghost start = acc@;
    let ghost cv = views_of(cs@);
    let mut cur = acc;
    let mut i: usize = 0;
    while i < cs.len()
        invariant
            i <= cs@.len(),
            cv == views_of(cs@),
            strictly_sorted(names_of(cur@)),
            forall|n: Seq<char>| has_name(cur@, n) <==> (has_name(start, n) || occurs_any(cv.take(i as int), n)),
        decreases cs@.len() - i,
    {
        proof {
            assert(decreases_to!(cs => cs@[i as int]));
        }
        let ghost prev = cur@;
        let ghost k = i as int;
        let next = collect_vars(&cs[i], cur);
        cur = next;
        i = i + 1;
        proof {
            assert forall|n: Seq<char>|
                has_name(cur@, n) <==> (has_name(start, n) || occurs_any(cv.take(i as int), n)) by {
                assert(cv[k] == cs@[k]@);
                lemma_occurs_any_take(cv, k, n);
                assert(has_name(prev, n) <==> (has_name(start, n) || occurs_any(cv.take(k), n)));
            }
        }
    }
    assert(cv.take(i as int) =~= cv);
    assert forall|n: Seq<char>| has_name(cur@, n) <==> (has_name(acc@, n) || occurs_any(views_of(cs@), n)) by {
        assert(has_name(cur@, n) <==> (has_name(start, n) || occurs_any(cv.take(i as int), n)));
    }
    cur
}

/// Evaluate `f` with exactly the locations in `names` true.
fn eval_node(f: &DagStateFormula, names: &[LocationId]) -> (b: bool)
    ensures
        b == sat(f@, name_set(names@)),
    decreases f,
{
    proof {
        lemma_view_unfold(*f);
    }
    match &f.node {
        Node::Top => true,
        Node::Bot => false,
        Node::Var(l) => {
            let b = contains_location(names, l);
            proof {
                assert(name_set(names@).contains(l@) == has_name(names@, l@));
            }
            b
        },
        Node::And(cs) => {
            let b = eval_all(cs, names, true);
            proof {
                lemma_sat_and(views_of(cs@), name_set(names@));
            }
            b
        },
        Node::Or(cs) => {
            let b = eval_all(cs, names, false);
            proof {
                lemma_sat_or(views_of(cs@), name_set(names@));
            }
            b
        },
    }
}

/// All (`conj`) or any (`!conj`) of `cs` hold with the locations in `names`.
fn eval_all(cs: &Vec<DagStateFormula>, names: &[LocationId], conj: bool) -> (b: bool)
    ensures
        conj ==> b == all_sat(views_of(cs@), name_set(names@)),
        !conj ==> b == any_sat(views_of(cs@), name_set(names@)),
    decreases cs,
{
    let ghost cv = views_of(cs@);
    let ghost val = name_set(names@);
    let mut i: usize = 0;
    while i < cs.len()
        invariant
            i <= cs@.len(),
            cv == views_of(cs@),
            val == name_set(names@),
            forall|j: int| 0 <= j < i ==> sat(#[trigger] cv[j], val) == conj,
        decreases cs@.len() - i,
    {
        proof {
            assert(decreases_to!(cs => cs@[i as int]));
        }
        let bi = eval_node(&cs[i], names);
        if bi != conj {
            proof {
                assert(sat(cv[i as int], val) == bi);
            }
            return bi;
        }
        i = i + 1;
    }
    conj
}

/// The formula a substitution table assigns to name `n`: the first entry
/// for `n`, or `⊥` when there is none.
pub open spec fn table_lookup(keys: Seq<LocationId>, values: Seq<Formula>, n: Seq<char>) -> Formula
    decreases keys.len(),
{
    if keys.len() == 0 || values.len() == 0 {
        Formula::Bot
    } else if keys[0]@ == n {
        values[0]
    } else {
        table_lookup(keys.drop_first(), values.drop_first(), n)
    }
}

/// The valuation under which a variable holds iff its substitute holds
/// under `val`.
pub open spec fn substituted_val(keys: Seq<LocationId>, values: Seq<Formula>, val: Set<Seq<char>>) -> Set<
    Seq<char>,
> {
    Set::new(|n: Seq<char>| sat(table_lookup(keys, values, n), val))
}

fn lookup_table(
    mgr: &DagStateFormulaManager,
    keys: &[LocationId],
    values: &[DagStateFormula],
    l: &LocationId,
) -> (r: DagStateFormula)
    requires
        keys@.len() == values@.len(),
    ensures
        r@ == table_lookup(keys@, views_of(values@), l@),
        (forall|i: int| 0 <= i < values@.len() ==> normal(#[trigger] values@[i]@)) ==> normal(r@),
{
    let mut i: usize = 0;
    assert(keys@.skip(0) =~= keys@);
    assert(views_of(values@).skip(0) =~= views_of(values@));
    while i < keys.len()
        invariant
            keys@.len() == values@.len(),
            i <= keys@.len(),
            table_lookup(keys@, views_of(values@), l@) == table_lookup(
                keys@.skip(i as int),
                views_of(values@).skip(i as int),
                l@,
            ),
        decreases keys@.len() - i,
    {
        proof {
            assert(keys@.skip(i as int).drop_first() =~= keys@.skip(i + 1));
            assert(views_of(values@).skip(i as int).drop_first() =~= views_of(values@).skip(i + 1));
            assert(keys@.skip(i as int)[0] == keys@[i as int]);
            assert(views_of(values@).skip(i as int)[0] == values@[i as int]@);
        }
        if keys[i].same(l) {
            return values[i].duplicate();
        }
        i = i + 1;
    }
    DagStateFormula::bot(mgr)
}

/// Substitute in every formula of `cs`.
fn substitute_all(
    mgr: &DagStateFormulaManager,
    cs: &Vec<DagStateFormula>,
    keys: &[LocationId],
    values: &[DagStateFormula],
) -> (subs: Vec<DagStateFormula>)
    requires
        keys@.len() == values@.len(),
    ensures
        subs@.len() == cs@.len(),
        forall|j: int|
            0 <= j < cs@.len() ==> forall|val: Set<Seq<char>>|
                sat(#[trigger] subs@[j]@, val) == sat(
                    cs@[j]@,
                    substituted_val(keys@, views_of(values@), val),
                ),
        (forall|k: int| 0 <= k < values@.len() ==> normal(#[trigger] values@[k]@)) ==> forall|j: int|
            0 <= j < subs@.len() ==> normal(#[trigger] subs@[j]@),
    decreases cs,
{
    let mut subs: Vec<DagStateFormula> = Vec::new();
    let mut i: usize = 0;
    while i < cs.len()
        invariant
            keys@.len() == values@.len(),
            i <= cs@.len(),
            subs@.len() == i,
            forall|j: int|
                0 <= j < i ==> forall|val: Set<Seq<char>>|
                    sat(#[trigger] subs@[j]@, val) == sat(
                        cs@[j]@,
                        substituted_val(keys@, views_of(values@), val),
                    ),
            (forall|k: int| 0 <= k < values@.len() ==> normal(#[trigger] values@[k]@)) ==> forall|j: int|
                0 <= j < i ==> normal(#[trigger] subs@[j]@),
        decreases cs@.len() - i,
    {
        proof {
            assert(decreases_to!(cs => cs@[i as int]));
        }
        let s = DagStateFormula::substitute_table(mgr, &cs[i], keys, values);
        subs.push(s);
        i = i + 1;
    }
    subs
}

impl DagStateFormula {
    /// The distinct location names occurring in this formula, sorted by name.
    pub fn vars(&self) -> (r: Vec<LocationId>)
        ensures
            strictly_sorted(names_of(r@)),
            forall|n: Seq<char>| has_name(r@, n) <==> occurs(self@, n),
    {
        let acc: Vec<LocationId> = Vec::new();
        proof {
            assert(names_of(acc@) =~= Seq::<Seq<char>>::empty());
        }
        collect_vars(self, acc)
    }

    /// Evaluate this formula with exactly the locations in `names` true.
    pub fn eval_in(&self, names: &[LocationId]) -> (b: bool)
        ensures
            b == sat(self@, name_set(names@)),
    {
        eval_node(self, names)
    }

    /// Replace every variable by the formula the table `keys -> values`
    /// assigns to it (`⊥` when absent), normalizing on the way.
    pub fn substitute_table(
        mgr: &DagStateFormulaManager,
        f: &DagStateFormula,
        keys: &[LocationId],
        values: &[DagStateFormula],
    ) -> (r: DagStateFormula)
        requires
            keys@.len() == values@.len(),
        ensures
            forall|val: Set<Seq<char>>|
                sat(r@, val) == sat(f@, substituted_val(keys@, views_of(values@), val)),
            (forall|i: int| 0 <= i < values@.len() ==> normal(#[trigger] values@[i]@)) ==> normal(r@),
        decreases f,
    {
        proof {
            lemma_view_unfold(*f);
        }
        match &f.node {
            Node::Top => DagStateFormula::top(mgr),
            Node::Bot => DagStateFormula::bot(mgr),
            Node::Var(l) => {
                let r = lookup_table(mgr, keys, values, l);
                r
            },
            Node::And(cs) => {
                let subs = substitute_all(mgr, cs, keys, values);
                let r = DagStateFormula::and(mgr, subs);
                proof {
                    assert forall|val: Set<Seq<char>>|
                        sat(r@, val) == sat(f@, substituted_val(keys@, views_of(values@), val)) by {
                        let sv = substituted_val(keys@, views_of(values@), val);
                        let cv = views_of(cs@);
                        lemma_sat_and(cv, sv);
                        assert forall|j: int| 0 <= j < cv.len() implies sat(#[trigger] views_of(subs@)[j], val) == sat(cv[j], sv) by {
                            assert(views_of(subs@)[j] == subs@[j]@);
                        }
                        if all_sat(views_of(subs@), val) {
                            assert forall|j: int| 0 <= j < cv.len() implies sat(#[trigger] cv[j], sv) by {
                                assert(sat(views_of(subs@)[j], val));
                            }
                        }
                        if all_sat(cv, sv) {
                            assert forall|j: int| 0 <= j < views_of(subs@).len() implies sat(#[trigger] views_of(subs@)[j], val) by {
                                assert(sat(cv[j], sv));
                            }
                        }
                    }
                }
                r
            },
            Node::Or(cs) => {
                let subs = substitute_all(mgr, cs, keys, values);
                let r = DagStateFormula::or(mgr, subs);
                proof {
                    assert forall|val: Set<Seq<char>>|
                        sat(r@, val) == sat(f@, substituted_val(keys@, views_of(values@), val)) by {
                        let sv = substituted_val(keys@, views_of(values@), val);
                        let cv = views_of(cs@);
                        lemma_sat_or(cv, sv);
                        assert forall|j: int| 0 <= j < cv.len() implies sat(#[trigger] views_of(subs@)[j], val) == sat(cv[j], sv) by {
                            assert(views_of(subs@)[j] == subs@[j]@);
                        }
                        if any_sat(views_of(subs@), val) {
                            let j = choose|j: int|
                                0 <= j < views_of(subs@).len() && sat(#[trigger] views_of(subs@)[j], val);
                            assert(sat(cv[j], sv));
                        }
                        if any_sat(cv, sv) {
                            let j = choose|j: int| 0 <= j < cv.len() && sat(#[trigger] cv[j], sv);
                            assert(sat(views_of(subs@)[j], val));
                        }
                    }
                }
                r
            },
        }
    }
}


/// The semantic keys of every formula of `cs`.
fn keys_of(cs: &Vec<DagStateFormula>) -> (r: Vec<MinimalModelKey>)
    ensures
        r@.len() == cs@.len(),
        forall|i: int, val: Set<Seq<char>>|
            0 <= i < cs@.len() ==> #[trigger] key_holds(r@[i]@, val) == sat(cs@[i]@, val),
    decreases cs,
{
    let mut r: Vec<MinimalModelKey> = Vec::new();
    let mut i: usize = 0;
    while i < cs.len()
        invariant
            i <= cs@.len(),
            r@.len() == i,
            forall|j: int, val: Set<Seq<char>>|
                0 <= j < i ==> #[trigger] key_holds(r@[j]@, val) == sat(cs@[j]@, val),
        decreases cs@.len() - i,
    {
        proof {
            assert(decreases_to!(cs => cs@[i as int]));
        }
        let k = cs[i].semantic_key();
        r.push(k);
        i = i + 1;
    }
    r
}

/// The disjunctive normal form of every formula of `cs`.
fn dnfs_of(cs: &Vec<DagStateFormula>) -> (r: Vec<Vec<Vec<LocationId>>>)
    ensures
        r@.len() == cs@.len(),
        forall|i: int, val: Set<Seq<char>>|
            0 <= i < cs@.len() ==> #[trigger] key_holds(clauses_view(r@[i]@), val) == sat(cs@[i]@, val),
        forall|i: int, j: int|
            0 <= i < cs@.len() && 0 <= j < r@[i]@.len() ==> strictly_sorted(
                #[trigger] names_of(r@[i]@[j]@),
            ),
        forall|i: int| 0 <= i < cs@.len() ==> #[trigger] clauses_view(r@[i]@) == dnf(cs@[i]@),
    decreases cs,
{
    let mut r: Vec<Vec<Vec<LocationId>>> = Vec::new();
    let mut i: usize = 0;
    while i < cs.len()
        invariant
            i <= cs@.len(),
            r@.len() == i,
            forall|j: int, val: Set<Seq<char>>|
                0 <= j < i ==> #[trigger] key_holds(clauses_view(r@[j]@), val) == sat(cs@[j]@, val),
            forall|a: int, j: int|
                0 <= a < i && 0 <= j < r@[a]@.len() ==> strictly_sorted(#[trigger] names_of(r@[a]@[j]@)),
            forall|a: int| 0 <= a < i ==> #[trigger] clauses_view(r@[a]@) == dnf(cs@[a]@),
        decreases cs@.len() - i,
    {
        proof {
            assert(decreases_to!(cs => cs@[i as int]));
        }
        let d = cs[i].to_dnf();
        r.push(d);
        i = i + 1;
    }
    r
}

/// Every clause of `a` merged with every clause of `b`, `a`-major.
fn dnf_product(a: &Vec<Vec<LocationId>>, b: &Vec<Vec<LocationId>>) -> (r: Vec<Vec<LocationId>>)
    requires
        forall|j: int| 0 <= j < a@.len() ==> strictly_sorted(#[trigger] names_of(a@[j]@)),
    ensures
        forall|j: int| 0 <= j < r@.len() ==> strictly_sorted(#[trigger] names_of(r@[j]@)),
        forall|val: Set<Seq<char>>|
            #![trigger key_holds(clauses_view(r@), val)]
            key_holds(clauses_view(r@), val) == (key_holds(clauses_view(a@), val) && key_holds(
                clauses_view(b@),
                val,
            )),
        clauses_view(r@) == clause_product(clauses_view(a@), clauses_view(b@)),
{
    let ghost av = clauses_view(a@);
    let ghost bv = clauses_view(b@);
    let mut r: Vec<Vec<LocationId>> = Vec::new();
    let mut x: usize = 0;
    assert(clauses_view(r@) =~= Seq::<Seq<Seq<char>>>::empty());
    assert(av.take(0) =~= Seq::<Seq<Seq<char>>>::empty());
    while x < a.len()
        invariant
            av == clauses_view(a@),
            bv == clauses_view(b@),
            forall|j: int| 0 <= j < a@.len() ==> strictly_sorted(#[trigger] names_of(a@[j]@)),
            x <= a@.len(),
            clauses_view(r@) == clause_product(av.take(x as int), bv),
            forall|j: int| 0 <= j < r@.len() ==> strictly_sorted(#[trigger] names_of(r@[j]@)),
            forall|val: Set<Seq<char>>|
                #![trigger key_holds(clauses_view(r@), val)]
                key_holds(clauses_view(r@), val) == (key_holds(av.take(x as int), val) && key_holds(bv, val)),
        decreases a@.len() - x,
    {
        let ghost before = r@;
        let mut y: usize = 0;
        assert(clauses_view(r@) =~= clauses_view(before) + merge_each(av[x as int], bv.take(0)));
        while y < b.len()
            invariant
                av == clauses_view(a@),
                bv == clauses_view(b@),
                x < a@.len(),
                strictly_sorted(names_of(a@[x as int]@)),
                y <= b@.len(),
                forall|j: int| 0 <= j < r@.len() ==> strictly_sorted(#[trigger] names_of(r@[j]@)),
                r@.len() >= before.len(),
                forall|j: int| 0 <= j < before.len() ==> #[trigger] r@[j] == before[j],
                clauses_view(r@) == clauses_view(before) + merge_each(av[x as int], bv.take(y as int)),
                forall|val: Set<Seq<char>>|
                    #![trigger key_holds(clauses_view(r@), val)]
                    key_holds(clauses_view(r@), val) == (key_holds(clauses_view(before), val) || (clause_holds(
                        av[x as int],
                        val,
                    ) && key_holds(bv.take(y as int), val))),
            decreases b@.len() - y,
        {
            let m = merge_sorted_names(&a[x], &b[y]);
            let ghost prev = r@;
            let ghost yy = y as int;
            r.push(m);
            y = y + 1;
            proof {
                assert(clauses_view(r@) =~= clauses_view(prev).push(names_of(m@)));
                assert(av[x as int] == names_of(a@[x as int]@));
                assert(bv[yy] == names_of(b@[yy]@));
                assert(merge_each(av[x as int], bv.take(y as int)) =~= merge_each(av[x as int], bv.take(yy)).push(
                    clause_merge(av[x as int], bv[yy]),
                ));
                assert forall|val: Set<Seq<char>>|
                    key_holds(clauses_view(r@), val) == (key_holds(clauses_view(before), val) || (clause_holds(
                        av[x as int],
                        val,
                    ) && key_holds(bv.take(y as int), val))) by {
                    lemma_key_holds_push(prev, m, val);
                    lemma_key_holds_take_seq(bv, yy, val);
                    lemma_merge_holds(m@, a@[x as int]@, b@[yy]@, val);
                    assert(bv[yy] == names_of(b@[yy]@));
                    assert(av[x as int] == names_of(a@[x as int]@));
                }
            }
        }
        let ghost xx = x as int;
        x = x + 1;
        proof {
            assert(bv.take(y as int) =~= bv);
            assert(av.take(x as int).drop_last() =~= av.take(xx));
            assert(av.take(x as int).last() == av[xx]);
            assert forall|val: Set<Seq<char>>|
                key_holds(clauses_view(r@), val) == (key_holds(av.take(x as int), val) && key_holds(bv, val)) by {
                lemma_key_holds_take_seq(av, xx, val);
                assert(key_holds(clauses_view(before), val) == (key_holds(av.take(xx), val) && key_holds(bv, val)));
            }
        }
    }
    assert(av.take(x as int) =~= av);
    r
}

/// Clause lists: pushing a clause adds it as an alternative.
proof fn lemma_key_holds_push(v: Seq<Vec<LocationId>>, c: Vec<LocationId>, val: Set<Seq<char>>)
    ensures
        key_holds(clauses_view(v.push(c)), val) == (key_holds(clauses_view(v), val) || clause_holds(
            names_of(c@),
            val,
        )),
{
    let a = clauses_view(v);
    let b = clauses_view(v.push(c));
    if key_holds(b, val) {
        let j = choose|j: int| 0 <= j < b.len() && clause_holds(#[trigger] b[j], val);
        if j < v.len() {
            assert(a[j] == b[j]);
        }
    }
    if key_holds(a, val) {
        let j = choose|j: int| 0 <= j < a.len() && clause_holds(#[trigger] a[j], val);
        assert(b[j] == a[j]);
    }
    if clause_holds(names_of(c@), val) {
        assert(b[v.len() as int] == names_of(c@));
    }
}

proof fn lemma_key_holds_take_seq(k: Seq<Seq<Seq<char>>>, i: int, val: Set<Seq<char>>)
    requires
        0 <= i < k.len(),
    ensures
        key_holds(k.take(i + 1), val) == (key_holds(k.take(i), val) || clause_holds(k[i], val)),
{
    let a = k.take(i);
    let b = k.take(i + 1);
    if key_holds(b, val) {
        let j = choose|j: int| 0 <= j < b.len() && clause_holds(#[trigger] b[j], val);
        if j < i {
            assert(a[j] == b[j]);
        }
    }
    if key_holds(a, val) {
        let j = choose|j: int| 0 <= j < a.len() && clause_holds(#[trigger] a[j], val);
        assert(b[j] == a[j]);
    }
    if clause_holds(k[i], val) {
        assert(b[i] == k[i]);
    }
}

/// A merged clause holds exactly when both merged clauses hold.
proof fn lemma_merge_holds(m: Seq<LocationId>, a: Seq<LocationId>, b: Seq<LocationId>, val: Set<Seq<char>>)
    requires
        forall|n: Seq<char>| has_name(m, n) <==> (has_name(a, n) || has_name(b, n)),
    ensures
        clause_holds(names_of(m), val) == (clause_holds(names_of(a), val) && clause_holds(names_of(b), val)),
{
    if clause_holds(names_of(m), val) {
        assert forall|j: int| 0 <= j < names_of(a).len() implies val.contains(#[trigger] names_of(a)[j]) by {
            assert(has_name(a, a[j]@));
            let k = choose|k: int| 0 <= k < m.len() && #[trigger] m[k]@ == a[j]@;
            assert(names_of(m)[k] == m[k]@);
        }
        assert forall|j: int| 0 <= j < names_of(b).len() implies val.contains(#[trigger] names_of(b)[j]) by {
            assert(has_name(b, b[j]@));
            let k = choose|k: int| 0 <= k < m.len() && #[trigger] m[k]@ == b[j]@;
            assert(names_of(m)[k] == m[k]@);
        }
    }
    if clause_holds(names_of(a), val) && clause_holds(names_of(b), val) {
        assert forall|j: int| 0 <= j < names_of(m).len() implies val.contains(#[trigger] names_of(m)[j]) by {
            assert(has_name(m, m[j]@));
            if has_name(a, m[j]@) {
                let k = choose|k: int| 0 <= k < a.len() && #[trigger] a[k]@ == m[j]@;
                assert(names_of(a)[k] == a[k]@);
            } else {
                let k = choose|k: int| 0 <= k < b.len() && #[trigger] b[k]@ == m[j]@;
                assert(names_of(b)[k] == b[k]@);
            }
        }
    }
}

/// The conjunction of two clauses: the sorted list of their names.
pub open spec fn clause_merge(a: Seq<Seq<char>>, b: Seq<Seq<char>>) -> Seq<Seq<char>> {
    sorted_list(a.to_set().union(b.to_set()))
}

/// Clause `c` merged with each clause of `bs`, in order.
pub open spec fn merge_each(c: Seq<Seq<char>>, bs: Seq<Seq<Seq<char>>>) -> Seq<Seq<Seq<char>>> {
    Seq::new(bs.len(), |k: int| clause_merge(c, bs[k]))
}

/// Every clause of `a` merged with every clause of `b`, `a`-major.
pub open spec fn clause_product(a: Seq<Seq<Seq<char>>>, b: Seq<Seq<Seq<char>>>) -> Seq<Seq<Seq<char>>>
    decreases a.len(),
{
    if a.len() == 0 {
        Seq::empty()
    } else {
        clause_product(a.drop_last(), b) + merge_each(a.last(), b)
    }
}

/// The disjunctive normal form of a formula, clause by clause: `⊤` has
/// the one empty clause, `⊥` none, a conjunction the products of its
/// children's clauses, a disjunction their concatenation.
pub open spec fn dnf(f: Formula) -> Seq<Seq<Seq<char>>>
    decreases f, 1int,
{
    match f {
        Formula::Top => seq![Seq::empty()],
        Formula::Bot => Seq::empty(),
        Formula::Var(n) => seq![seq![n]],
        Formula::And(cs) => dnf_and(cs),
        Formula::Or(cs) => dnf_or(cs),
    }
}

/// The clauses of the conjunction of `cs`.
pub open spec fn dnf_and(cs: Seq<Formula>) -> Seq<Seq<Seq<char>>>
    decreases cs, 0int,
{
    if cs.len() == 0 {
        seq![Seq::empty()]
    } else {
        clause_product(dnf_and(cs.drop_last()), dnf(cs[cs.len() - 1]))
    }
}

/// The clauses of the disjunction of `cs`.
pub open spec fn dnf_or(cs: Seq<Formula>) -> Seq<Seq<Seq<char>>>
    decreases cs, 0int,
{
    if cs.len() == 0 {
        Seq::empty()
    } else {
        dnf_or(cs.drop_last()) + dnf(cs[cs.len() - 1])
    }
}

/// The sorted, duplicate-free union of the names of two clauses.
fn merge_sorted_names(a: &Vec<LocationId>, b: &Vec<LocationId>) -> (r: Vec<LocationId>)
    requires
        strictly_sorted(names_of(a@)),
    ensures
        strictly_sorted(names_of(r@)),
        forall|n: Seq<char>| has_name(r@, n) <==> (has_name(a@, n) || has_name(b@, n)),
        names_of(r@) == clause_merge(names_of(a@), names_of(b@)),
{
    let mut r: Vec<LocationId> = Vec::new();
    let mut i: usize = 0;
    assert(names_of(r@) =~= Seq::<Seq<char>>::empty());
    while i < a.len()
        invariant
            i <= a@.len(),
            strictly_sorted(names_of(r@)),
            forall|n: Seq<char>| has_name(r@, n) <==> has_name(a@.take(i as int), n),
        decreases a@.len() - i,
    {
        insert_sorted_location(&mut r, a[i].copy_id());
        proof {
            lemma_has_name_take(a@, i as int);
        }
        i = i + 1;
    }
    assert(a@.take(i as int) =~= a@);
    let mut j: usize = 0;
    while j < b.len()
        invariant
            j <= b@.len(),
            strictly_sorted(names_of(r@)),
            forall|n: Seq<char>| has_name(r@, n) <==> (has_name(a@, n) || has_name(b@.take(j as int), n)),
        decreases b@.len() - j,
    {
        insert_sorted_location(&mut r, b[j].copy_id());
        proof {
            lemma_has_name_take(b@, j as int);
        }
        j = j + 1;
    }
    assert(b@.take(j as int) =~= b@);
    proof {
        let u = names_of(a@).to_set().union(names_of(b@).to_set());
        assert(names_of(r@).to_set() =~= u) by {
            assert forall|n: Seq<char>| names_of(r@).to_set().contains(n) == u.contains(n) by {
                lemma_names_contains(r@, n);
                lemma_names_contains(a@, n);
                lemma_names_contains(b@, n);
            }
        }
        lemma_sorted_list_of(names_of(r@));
    }
    r
}

proof fn lemma_has_name_take(s: Seq<LocationId>, i: int)
    requires
        0 <= i < s.len(),
    ensures
        forall|n: Seq<char>| has_name(s.take(i + 1), n) <==> (has_name(s.take(i), n) || n == s[i]@),
{
    assert forall|n: Seq<char>| has_name(s.take(i + 1), n) <==> (has_name(s.take(i), n) || n == s[i]@) by {
        let t = s.take(i + 1);
        if has_name(t, n) {
            let j = choose|j: int| 0 <= j < t.len() && #[trigger] t[j]@ == n;
            if j < i {
                assert(s.take(i)[j] == t[j]);
            }
        }
        if has_name(s.take(i), n) {
            let j = choose|j: int| 0 <= j < s.take(i).len() && #[trigger] s.take(i)[j]@ == n;
            assert(t[j] == s.take(i)[j]);
        }
        if n == s[i]@ {
            assert(t[i]@ == n);
        }
    }
}

impl DagStateFormula {
    /// Canonical semantic key: the antichain of minimal satisfying location
    /// sets, built bottom-up (union for `∨`, pairwise products for `∧`).
    pub fn semantic_key(&self) -> (k: MinimalModelKey)
        ensures
            canonical_key(k@),
            forall|val: Set<Seq<char>>| #![trigger key_holds(k@, val)] key_holds(k@, val) == sat(self@, val),
        decreases self,
    {
        proof {
            lemma_view_unfold(*self);
        }
        match &self.node {
            Node::Top => {
                let k = MinimalModelKey::top();
                proof {
                    assert forall|val: Set<Seq<char>>| key_holds(k@, val) by {
                        assert(clause_holds(k@[0], val));
                    }
                }
                k
            },
            Node::Bot => MinimalModelKey::bot(),
            Node::Var(l) => {
                let k = MinimalModelKey::var(l.copy_id());
                proof {
                    assert forall|val: Set<Seq<char>>| key_holds(k@, val) == val.contains(l@) by {
                        assert(k@[0] == seq![l@]);
                        if val.contains(l@) {
                            assert(clause_holds(k@[0], val));
                        }
                        if key_holds(k@, val) {
                            assert(clause_holds(k@[0], val));
                            assert(k@[0][0] == l@);
                        }
                    }
                }
                k
            },
            Node::And(cs) => {
                let keys = keys_of(cs);
                let ghost kv = keys@;
                let k = MinimalModelKey::intersection_all(keys);
                proof {
                    assert forall|val: Set<Seq<char>>| key_holds(k@, val) == sat(self@, val) by {
                        lemma_sat_and(views_of(cs@), val);
                        if key_holds(k@, val) {
                            assert forall|i: int| 0 <= i < views_of(cs@).len() implies sat(#[trigger] views_of(cs@)[i], val) by {
                                assert(key_holds(kv[i]@, val));
                            }
                        }
                        if sat(self@, val) {
                            assert forall|i: int| 0 <= i < kv.len() implies key_holds(#[trigger] kv[i]@, val) by {
                                assert(sat(views_of(cs@)[i], val));
                            }
                        }
                    }
                }
                k
            },
            Node::Or(cs) => {
                let keys = keys_of(cs);
                let ghost kv = keys@;
                let k = MinimalModelKey::union_all(keys);
                proof {
                    assert forall|val: Set<Seq<char>>| key_holds(k@, val) == sat(self@, val) by {
                        lemma_sat_or(views_of(cs@), val);
                        if key_holds(k@, val) {
                            let i = choose|i: int| 0 <= i < kv.len() && key_holds(#[trigger] kv[i]@, val);
                            assert(sat(views_of(cs@)[i], val));
                        }
                        if sat(self@, val) {
                            let i = choose|i: int| 0 <= i < views_of(cs@).len() && sat(#[trigger] views_of(cs@)[i], val);
                            assert(key_holds(kv[i]@, val));
                        }
                    }
                }
                k
            },
        }
    }

    /// Disjunctive normal form: no clause stands for `⊥`, one empty clause
    /// for `⊤`. Each clause is sorted and duplicate-free; the clauses of a
    /// conjunction are the pairwise unions of its children's clauses, those
    /// of a disjunction its children's clauses in order.
    pub fn to_dnf(&self) -> (r: Vec<Vec<LocationId>>)
        ensures
            forall|j: int| 0 <= j < r@.len() ==> strictly_sorted(#[trigger] names_of(r@[j]@)),
            forall|val: Set<Seq<char>>|
                #![trigger key_holds(clauses_view(r@), val)]
                key_holds(clauses_view(r@), val) == sat(self@, val),
            clauses_view(r@) == dnf(self@),
        decreases self,
    {
        proof {
            lemma_view_unfold(*self);
        }
        match &self.node {
            Node::Top => {
                let mut r: Vec<Vec<LocationId>> = Vec::new();
                r.push(Vec::new());
                proof {
                    assert(names_of(r@[0]@) =~= Seq::<Seq<char>>::empty());
                    assert forall|val: Set<Seq<char>>| key_holds(clauses_view(r@), val) by {
                        assert(clause_holds(clauses_view(r@)[0], val));
                    }
                    assert(clauses_view(r@) =~= dnf(self@));
                }
                r
            },
            Node::Bot => {
                let r: Vec<Vec<LocationId>> = Vec::new();
                assert(clauses_view(r@) =~= dnf(self@));
                r
            },
            Node::Var(l) => {
                let mut c: Vec<LocationId> = Vec::new();
                c.push(l.copy_id());
                let mut r: Vec<Vec<LocationId>> = Vec::new();
                r.push(c);
                proof {
                    assert(names_of(r@[0]@) =~= seq![l@]);
                    assert forall|val: Set<Seq<char>>| key_holds(clauses_view(r@), val) == val.contains(l@) by {
                        assert(clauses_view(r@)[0] == seq![l@]);
                        if val.contains(l@) {
                            assert(clause_holds(clauses_view(r@)[0], val));
                        }
                        if key_holds(clauses_view(r@), val) {
                            assert(clause_holds(clauses_view(r@)[0], val));
                            assert(clauses_view(r@)[0][0] == l@);
                        }
                    }
                    assert(clauses_view(r@) =~= dnf(self@));
                }
                r
            },
            Node::And(cs) => {
                let ds = dnfs_of(cs);
                let mut r: Vec<Vec<LocationId>> = Vec::new();
                r.push(Vec::new());
                proof {
                    assert(names_of(r@[0]@) =~= Seq::<Seq<char>>::empty());
                    assert forall|val: Set<Seq<char>>| key_holds(clauses_view(r@), val) by {
                        assert(clause_holds(clauses_view(r@)[0], val));
                    }
                    assert(clauses_view(r@) =~= dnf_and(views_of(cs@).take(0)));
                }
                let mut i: usize = 0;
                while i < ds.len()
                    invariant
                        ds@.len() == cs@.len(),
                        i <= ds@.len(),
                        forall|a: int| 0 <= a < cs@.len() ==> #[trigger] clauses_view(ds@[a]@) == dnf(cs@[a]@),
                        clauses_view(r@) == dnf_and(views_of(cs@).take(i as int)),
                        forall|a: int, val: Set<Seq<char>>|
                            0 <= a < cs@.len() ==> #[trigger] key_holds(clauses_view(ds@[a]@), val) == sat(cs@[a]@, val),
                        forall|j: int| 0 <= j < r@.len() ==> strictly_sorted(#[trigger] names_of(r@[j]@)),
                        forall|val: Set<Seq<char>>|
                            #![trigger key_holds(clauses_view(r@), val)]
                            key_holds(clauses_view(r@), val) == all_sat(views_of(cs@).take(i as int), val),
                    decreases ds@.len() - i,
                {
                    let ghost prev = r@;
                    let ghost ii = i as int;
                    r = dnf_product(&r, &ds[i]);
                    i = i + 1;
                    proof {
                        let t = views_of(cs@).take(i as int);
                        assert(t.drop_last() =~= views_of(cs@).take(ii));
                        assert(t[t.len() - 1] == cs@[ii]@);
                        assert forall|val: Set<Seq<char>>|
                            key_holds(clauses_view(r@), val) == all_sat(views_of(cs@).take(i as int), val) by {
                            assert(key_holds(clauses_view(prev), val) == all_sat(views_of(cs@).take(ii), val));
                            assert(key_holds(clauses_view(ds@[ii]@), val) == sat(cs@[ii]@, val));
                            lemma_all_sat_take(views_of(cs@), ii, val);
                        }
                    }
                }
                proof {
                    assert(views_of(cs@).take(i as int) =~= views_of(cs@));
                    assert forall|val: Set<Seq<char>>| key_holds(clauses_view(r@), val) == sat(self@, val) by {
                        lemma_sat_and(views_of(cs@), val);
                    }
                }
                r
            },
            Node::Or(cs) => {
                let ds = dnfs_of(cs);
                let mut r: Vec<Vec<LocationId>> = Vec::new();
                let mut i: usize = 0;
                assert(clauses_view(r@) =~= Seq::<Seq<Seq<char>>>::empty());
                assert(clauses_view(r@) =~= dnf_or(views_of(cs@).take(0)));
                while i < ds.len()
                    invariant
                        ds@.len() == cs@.len(),
                        i <= ds@.len(),
                        forall|a: int| 0 <= a < cs@.len() ==> #[trigger] clauses_view(ds@[a]@) == dnf(cs@[a]@),
                        clauses_view(r@) == dnf_or(views_of(cs@).take(i as int)),
                        forall|a: int, val: Set<Seq<char>>|
                            0 <= a < cs@.len() ==> #[trigger] key_holds(clauses_view(ds@[a]@), val) == sat(cs@[a]@, val),
                        forall|a: int, j: int|
                            0 <= a < cs@.len() && 0 <= j < ds@[a]@.len() ==> strictly_sorted(
                                #[trigger] names_of(ds@[a]@[j]@),
                            ),
                        forall|j: int| 0 <= j < r@.len() ==> strictly_sorted(#[trigger] names_of(r@[j]@)),
                        forall|val: Set<Seq<char>>|
                            #![trigger key_holds(clauses_view(r@), val)]
                            key_holds(clauses_view(r@), val) == any_sat(views_of(cs@).take(i as int), val),
                    decreases ds@.len() - i,
                {
                    let ghost prev = r@;
                    let ghost ii = i as int;
                    r = dnf_append(r, &ds[i]);
                    i = i + 1;
                    proof {
                        let t = views_of(cs@).take(i as int);
                        assert(t.drop_last() =~= views_of(cs@).take(ii));
                        assert(t[t.len() - 1] == cs@[ii]@);
                        assert forall|val: Set<Seq<char>>|
                            key_holds(clauses_view(r@), val) == any_sat(views_of(cs@).take(i as int), val) by {
                            assert(key_holds(clauses_view(prev), val) == any_sat(views_of(cs@).take(ii), val));
                            assert(key_holds(clauses_view(ds@[ii]@), val) == sat(cs@[ii]@, val));
                            lemma_any_sat_take(views_of(cs@), ii, val);
                        }
                    }
                }
                proof {
                    assert(views_of(cs@).take(i as int) =~= views_of(cs@));
                    assert forall|val: Set<Seq<char>>| key_holds(clauses_view(r@), val) == sat(self@, val) by {
                        lemma_sat_or(views_of(cs@), val);
                    }
                }
                r
            },
        }
    }
}

/// `a` followed by copies of the clauses of `b`.
fn dnf_append(a: Vec<Vec<LocationId>>, b: &Vec<Vec<LocationId>>) -> (r: Vec<Vec<LocationId>>)
    requires
        forall|j: int| 0 <= j < a@.len() ==> strictly_sorted(#[trigger] names_of(a@[j]@)),
        forall|j: int| 0 <= j < b@.len() ==> strictly_sorted(#[trigger] names_of(b@[j]@)),
    ensures
        forall|j: int| 0 <= j < r@.len() ==> strictly_sorted(#[trigger] names_of(r@[j]@)),
        forall|val: Set<Seq<char>>|
            #![trigger key_holds(clauses_view(r@), val)]
            key_holds(clauses_view(r@), val) == (key_holds(clauses_view(a@), val) || key_holds(
                clauses_view(b@),
                val,
            )),
        clauses_view(r@) == clauses_view(a@) + clauses_view(b@),
{
    let ghost av = clauses_view(a@);
    let ghost bv = clauses_view(b@);
    let mut r = a;
    let mut j: usize = 0;
    assert(clauses_view(r@) =~= av + bv.take(0));
    while j < b.len()
        invariant
            bv == clauses_view(b@),
            clauses_view(r@) == av + bv.take(j as int),
            forall|k: int| 0 <= k < b@.len() ==> strictly_sorted(#[trigger] names_of(b@[k]@)),
            j <= b@.len(),
            forall|k: int| 0 <= k < r@.len() ==> strictly_sorted(#[trigger] names_of(r@[k]@)),
            forall|val: Set<Seq<char>>|
                #![trigger key_holds(clauses_view(r@), val)]
                key_holds(clauses_view(r@), val) == (key_holds(av, val) || key_holds(bv.take(j as int), val)),
        decreases b@.len() - j,
    {
        let ghost prev = r@;
        let ghost jj = j as int;
        let c = copy_location_vec(&b[j]);
        r.push(c);
        j = j + 1;
        proof {
            assert(clauses_view(r@) =~= clauses_view(prev).push(names_of(c@)));
            assert(bv[jj] == names_of(b@[jj]@));
            assert(av + bv.take(j as int) =~= (av + bv.take(jj)).push(bv[jj]));
            assert forall|val: Set<Seq<char>>|
                key_holds(clauses_view(r@), val) == (key_holds(av, val) || key_holds(bv.take(j as int), val)) by {
                lemma_key_holds_push(prev, c, val);
                lemma_key_holds_take_seq(bv, jj, val);
                assert(bv[jj] == names_of(b@[jj]@));
                assert(key_holds(clauses_view(prev), val) == (key_holds(av, val) || key_holds(bv.take(jj), val)));
            }
        }
    }
    assert(bv.take(j as int) =~= bv);
    r
}

/// An exact copy of a list of locations.
pub(crate) fn copy_location_vec(a: &Vec<LocationId>) -> (r: Vec<LocationId>)
    ensures
        r@ == a@,
{
    let mut r: Vec<LocationId> = Vec::new();
    let mut i: usize = 0;
    while i < a.len()
        invariant
            i <= a@.len(),
            r@ == a@.take(i as int),
        decreases a@.len() - i,
    {
        r.push(a[i].copy_id());
        proof {
            assert(a@.take(i + 1) =~= a@.take(i as int).push(a@[i as int]));
        }
        i = i + 1;
    }
    assert(a@.take(i as int) =~= a@);
    r
}

proof fn lemma_all_sat_take(s: Seq<Formula>, i: int, val: Set<Seq<char>>)
    requires
        0 <= i < s.len(),
    ensures
        all_sat(s.take(i + 1), val) == (all_sat(s.take(i), val) && sat(s[i], val)),
{
    let a = s.take(i);
    let b = s.take(i + 1);
    if all_sat(b, val) {
        assert forall|j: int| 0 <= j < a.len() implies sat(#[trigger] a[j], val) by {
            assert(b[j] == a[j]);
        }
        assert(sat(b[i], val));
    }
    if all_sat(a, val) && sat(s[i], val) {
        assert forall|j: int| 0 <= j < b.len() implies sat(#[trigger] b[j], val) by {
            if j < i {
                assert(b[j] == a[j]);
            }
        }
    }
}

proof fn lemma_any_sat_take(s: Seq<Formula>, i: int, val: Set<Seq<char>>)
    requires
        0 <= i < s.len(),
    ensures
        any_sat(s.take(i + 1), val) == (any_sat(s.take(i), val) || sat(s[i], val)),
{
    let a = s.take(i);
    let b = s.take(i + 1);
    if any_sat(b, val) {
        let j = choose|j: int| 0 <= j < b.len() && sat(#[trigger] b[j], val);
        if j < i {
            assert(a[j] == b[j]);
        }
    }
    if any_sat(a, val) {
        let j = choose|j: int| 0 <= j < a.len() && sat(#[trigger] a[j], val);
        assert(b[j] == a[j]);
    }
    if sat(s[i], val) {
        assert(b[i] == s[i]);
    }
}


/// A formula's truth depends only on the names occurring in it.
pub proof fn lemma_sat_occurs(f: Formula, v1: Set<Seq<char>>, v2: Set<Seq<char>>)
    requires
        forall|n: Seq<char>| #[trigger] occurs(f, n) ==> (v1.contains(n) == v2.contains(n)),
    ensures
        sat(f, v1) == sat(f, v2),
    decreases f,
{
    match f {
        Formula::And(cs) => {
            assert forall|i: int| 0 <= i < cs.len() implies sat(#[trigger] cs[i], v1) == sat(cs[i], v2) by {
                assert forall|n: Seq<char>| #[trigger] occurs(cs[i], n) implies (v1.contains(n) == v2.contains(n)) by {
                    assert(occurs(f, n));
                }
                lemma_sat_occurs(cs[i], v1, v2);
            }
            if sat(f, v1) {
                assert forall|i: int| 0 <= i < cs.len() implies sat(#[trigger] cs[i], v2) by {
                    assert(sat(cs[i], v1));
                }
            }
            if sat(f, v2) {
                assert forall|i: int| 0 <= i < cs.len() implies sat(#[trigger] cs[i], v1) by {
                    assert(sat(cs[i], v2));
                }
            }
        },
        Formula::Or(cs) => {
            assert forall|i: int| 0 <= i < cs.len() implies sat(#[trigger] cs[i], v1) == sat(cs[i], v2) by {
                assert forall|n: Seq<char>| #[trigger] occurs(cs[i], n) implies (v1.contains(n) == v2.contains(n)) by {
                    assert(occurs(f, n));
                }
                lemma_sat_occurs(cs[i], v1, v2);
            }
            if sat(f, v1) {
                let i = choose|i: int| 0 <= i < cs.len() && sat(#[trigger] cs[i], v1);
                assert(sat(cs[i], v2));
            }
            if sat(f, v2) {
                let i = choose|i: int| 0 <= i < cs.len() && sat(#[trigger] cs[i], v2);
                assert(sat(cs[i], v1));
            }
        },
        Formula::Var(m) => {
            assert(occurs(f, m));
        },
        _ => {},
    }
}

/// The text of a formula: `⊤`, `⊥`, `loc(name)`, and parenthesized
/// children joined by ` & ` or ` | `.
pub open spec fn formula_text(f: Formula) -> Seq<char>
    decreases f, 1int,
{
    match f {
        Formula::Top => seq!['⊤'],
        Formula::Bot => seq!['⊥'],
        Formula::Var(n) => seq!['l', 'o', 'c', '('] + n + seq![')'],
        Formula::And(cs) => seq!['('] + joined_text(cs, seq![' ', '&', ' ']) + seq![')'],
        Formula::Or(cs) => seq!['('] + joined_text(cs, seq![' ', '|', ' ']) + seq![')'],
    }
}

/// The texts of `cs` separated by `sep`.
pub open spec fn joined_text(cs: Seq<Formula>, sep: Seq<char>) -> Seq<char>
    decreases cs, 0int,
{
    if cs.len() == 0 {
        Seq::empty()
    } else if cs.len() == 1 {
        formula_text(cs[0])
    } else {
        joined_text(cs.drop_last(), sep) + sep + formula_text(cs[cs.len() - 1])
    }
}

/// The texts of the formulas of `cs` separated by ` & ` (`conj`) or ` | `.
fn joined_texts(cs: &Vec<DagStateFormula>, conj: bool) -> (r: String)
    ensures
        r@ == joined_text(
            views_of(cs@),
            if conj {
                seq![' ', '&', ' ']
            } else {
                seq![' ', '|', ' ']
            },
        ),
    decreases cs,
{
    let ghost sep: Seq<char> = if conj {
        seq![' ', '&', ' ']
    } else {
        seq![' ', '|', ' ']
    };
    let mut out = String::new();
    let mut i: usize = 0;
    assert(out@ =~= joined_text(views_of(cs@).take(0), sep));
    while i < cs.len()
        invariant
            i <= cs@.len(),
            sep == (if conj {
                seq![' ', '&', ' ']
            } else {
                seq![' ', '|', ' ']
            }),
            out@ == joined_text(views_of(cs@).take(i as int), sep),
        decreases cs@.len() - i,
    {
        proof {
            assert(decreases_to!(cs => cs@[i as int]));
        }
        if i > 0 {
            push_char(&mut out, ' ');
            push_char(&mut out, if conj { '&' } else { '|' });
            push_char(&mut out, ' ');
        }
        let t = cs[i].to_string();
        push_str(&mut out, t.as_str());
        let ghost ii = i as int;
        i = i + 1;
        proof {
            let v = views_of(cs@).take(i as int);
            assert(v.drop_last() =~= views_of(cs@).take(ii));
            assert(v[v.len() - 1] == cs@[ii]@);
            if ii == 0 {
                assert(v.len() == 1);
                assert(out@ =~= formula_text(v[0]));
            } else {
                assert(out@ =~= joined_text(v.drop_last(), sep) + sep + formula_text(v[v.len() - 1]));
            }
        }
    }
    assert(views_of(cs@).take(i as int) =~= views_of(cs@));
    out
}

impl DagStateFormula {
    /// The text of this formula (what `Display` shows).
    pub fn to_string(&self) -> (r: String)
        ensures
            r@ == formula_text(self@),
        decreases self,
    {
        proof {
            lemma_view_unfold(*self);
        }
        let mut out = String::new();
        match &self.node {
            Node::Top => {
                push_char(&mut out, '⊤');
            },
            Node::Bot => {
                push_char(&mut out, '⊥');
            },
            Node::Var(l) => {
                push_char(&mut out, 'l');
                push_char(&mut out, 'o');
                push_char(&mut out, 'c');
                push_char(&mut out, '(');
                push_str(&mut out, l.name());
                push_char(&mut out, ')');
            },
            Node::And(cs) => {
                push_char(&mut out, '(');
                let t = joined_texts(cs, true);
                push_str(&mut out, t.as_str());
                push_char(&mut out, ')');
            },
            Node::Or(cs) => {
                push_char(&mut out, '(');
                let t = joined_texts(cs, false);
                push_str(&mut out, t.as_str());
                push_char(&mut out, ')');
            },
        }
        assert(out@ =~= formula_text(self@));
        out
    }
}

} // verus!
