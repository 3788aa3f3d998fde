//! Canonical semantic keys: the antichain of minimal satisfying sets.

use vstd::prelude::*;

use crate::location::{
    contains_location, has_name, insert_sorted_location, lemma_names_contains, names_of, LocationId,
};
use crate::text::{
    lemma_names_lt_total, lemma_names_lt_transitive, names_lt, strictly_sorted,
};

verus! {

/// A clause (a set of names, listed) holds under `val` when all its names
/// are true.
pub open spec fn clause_holds(c: Seq<Seq<char>>, val: Set<Seq<char>>) -> bool {
    forall|j: int| 0 <= j < c.len() ==> val.contains(#[trigger] c[j])
}

/// Every name of clause `c` occurs in clause `d`.
pub open spec fn clause_subset(c: Seq<Seq<char>>, d: Seq<Seq<char>>) -> bool {
    forall|j: int| 0 <= j < c.len() ==> d.contains(#[trigger] c[j])
}

/// A list of clauses holds under `val` when one of its clauses does.
pub open spec fn key_holds(k: Seq<Seq<Seq<char>>>, val: Set<Seq<char>>) -> bool {
    exists|i: int| 0 <= i < k.len() && clause_holds(#[trigger] k[i], val)
}

/// No clause of `k` is contained in another one.
pub open spec fn antichain(k: Seq<Seq<Seq<char>>>) -> bool {
    forall|i: int, j: int|
        0 <= i < k.len() && 0 <= j < k.len() && i != j ==> !clause_subset(
            #[trigger] k[i],
            #[trigger] k[j],
        )
}

/// The canonical shape of a key: every clause sorted and duplicate-free, no
/// clause contained in another, clauses in strictly increasing lexicographic
/// order.
pub open spec fn canonical_key(k: Seq<Seq<Seq<char>>>) -> bool {
    &&& forall|i: int| 0 <= i < k.len() ==> strictly_sorted(#[trigger] k[i])
    &&& antichain(k)
    &&& forall|i: int, j: int| 0 <= i < j < k.len() ==> names_lt(#[trigger] k[i], #[trigger] k[j])
}

/// The names of a list of clauses.
pub open spec fn clauses_view(v: Seq<Vec<LocationId>>) -> Seq<Seq<Seq<char>>> {
    Seq::new(v.len(), |i: int| names_of(v[i]@))
}

/// Canonical semantic key for a positive Boolean formula.
///
/// The key is the antichain of minimal satisfying location sets: no clause
/// stands for `⊥`, one empty clause for `⊤`. Each clause is sorted and
/// duplicate-free, the clauses are sorted lexicographically and none contains
/// another. Its view is the list of clauses as name sequences.
#[derive(Debug, PartialEq, Eq, Hash, PartialOrd, Ord)]
pub struct MinimalModelKey {
    clauses: Vec<Vec<LocationId>>,
}

impl View for MinimalModelKey {
    type V = Seq<Seq<Seq<char>>>;

    closed spec fn view(&self) -> Seq<Seq<Seq<char>>> {
        clauses_view(self.clauses@)
    }
}

/// Two clauses with the same names hold under the same valuations and
/// contain the same clauses.
proof fn lemma_same_names(a: Seq<Seq<char>>, b: Seq<Seq<char>>)
    requires
        forall|n: Seq<char>| a.contains(n) <==> b.contains(n),
    ensures
        forall|val: Set<Seq<char>>| clause_holds(a, val) == clause_holds(b, val),
        forall|d: Seq<Seq<char>>| clause_subset(d, a) == clause_subset(d, b),
        forall|d: Seq<Seq<char>>| clause_subset(a, d) == clause_subset(b, d),
{
    assert forall|val: Set<Seq<char>>| clause_holds(a, val) == clause_holds(b, val) by {
        if clause_holds(a, val) {
            assert forall|j: int| 0 <= j < b.len() implies val.contains(#[trigger] b[j]) by {
                assert(b.contains(b[j]));
                let k = choose|k: int| 0 <= k < a.len() && a[k] == b[j];
            }
        }
        if clause_holds(b, val) {
            assert forall|j: int| 0 <= j < a.len() implies val.contains(#[trigger] a[j]) by {
                assert(a.contains(a[j]));
                let k = choose|k: int| 0 <= k < b.len() && b[k] == a[j];
            }
        }
    }
    assert forall|d: Seq<Seq<char>>| clause_subset(d, a) == clause_subset(d, b) by {}
    assert forall|d: Seq<Seq<char>>| clause_subset(a, d) == clause_subset(b, d) by {
        if clause_subset(a, d) {
            assert forall|j: int| 0 <= j < b.len() implies d.contains(#[trigger] b[j]) by {
                assert(b.contains(b[j]));
                let k = choose|k: int| 0 <= k < a.len() && a[k] == b[j];
            }
        }
        if clause_subset(b, d) {
            assert forall|j: int| 0 <= j < a.len() implies d.contains(#[trigger] a[j]) by {
                assert(a.contains(a[j]));
                let k = choose|k: int| 0 <= k < b.len() && b[k] == a[j];
            }
        }
    }
}

/// A clause contained in a holding clause holds.
proof fn lemma_subset_holds(c: Seq<Seq<char>>, d: Seq<Seq<char>>, val: Set<Seq<char>>)
    requires
        clause_subset(c, d),
        clause_holds(d, val),
    ensures
        clause_holds(c, val),
{
    assert forall|j: int| 0 <= j < c.len() implies val.contains(#[trigger] c[j]) by {
        assert(d.contains(c[j]));
        let k = choose|k: int| 0 <= k < d.len() && d[k] == c[j];
    }
}

/// An exact copy of a clause.
fn copy_clause(a: &Vec<LocationId>) -> (r: Vec<LocationId>)
    ensures
        r@ == a@,
{
    let mut r: Vec<LocationId> = Vec::new();
    let mut i: usize = 0;
    while i < a.len()
        invariant
            i <= a@.len(),
            r@ == a@.take(i as int),
        decreases a@.len() - i,
    {
        r.push(a[i].copy_id());
        proof {
            assert(a@.take(i + 1) =~= a@.take(i as int).push(a@[i as int]));
        }
        i = i + 1;
    }
    assert(a@.take(i as int) =~= a@);
    r
}

/// The clause with the names of `a` and of `b`, sorted and duplicate-free.
fn merge_clauses(a: &Vec<LocationId>, b: &Vec<LocationId>) -> (r: Vec<LocationId>)
    requires
        strictly_sorted(names_of(a@)),
    ensures
        strictly_sorted(names_of(r@)),
        forall|n: Seq<char>| has_name(r@, n) <==> (has_name(a@, n) || has_name(b@, n)),
{
    let mut r = copy_clause(a);
    let mut i: usize = 0;
    while i < b.len()
        invariant
            i <= b@.len(),
            strictly_sorted(names_of(r@)),
            forall|n: Seq<char>|
                has_name(r@, n) <==> (has_name(a@, n) || has_name(b@.take(i as int), n)),
        decreases b@.len() - i,
    {
        let ghost prev = r@;
        insert_sorted_location(&mut r, b[i].copy_id());
        proof {
            assert forall|n: Seq<char>|
                has_name(r@, n) <==> (has_name(a@, n) || has_name(b@.take(i + 1), n)) by {
                let t = b@.take(i + 1);
                if has_name(t, n) {
                    let j = choose|j: int| 0 <= j < t.len() && #[trigger] t[j]@ == n;
                    if j < i {
                        assert(b@.take(i as int)[j] == t[j]);
                    }
                }
                if has_name(b@.take(i as int), n) {
                    let j = choose|j: int|
                        0 <= j < b@.take(i as int).len() && #[trigger] b@.take(i as int)[j]@ == n;
                    assert(t[j] == b@.take(i as int)[j]);
                }
                if n == b@[i as int]@ {
                    assert(t[i as int]@ == n);
                }
            }
        }
        i = i + 1;
    }
    assert(b@.take(i as int) =~= b@);
    r
}

/// The names of `a`, sorted and duplicate-free.
fn sorted_clause(a: &Vec<LocationId>) -> (r: Vec<LocationId>)
    ensures
        strictly_sorted(names_of(r@)),
        forall|n: Seq<char>| has_name(r@, n) <==> has_name(a@, n),
{
    let e: Vec<LocationId> = Vec::new();
    assert(names_of(e@) =~= Seq::<Seq<char>>::empty());
    merge_clauses(&e, a)
}

/// `true` iff every name of `a` occurs in `b`.
fn clause_subset_exec(a: &Vec<LocationId>, b: &Vec<LocationId>) -> (r: bool)
    ensures
        r == clause_subset(names_of(a@), names_of(b@)),
{
    let mut i: usize = 0;
    while i < a.len()
        invariant
            i <= a@.len(),
            forall|j: int| 0 <= j < i ==> names_of(b@).contains(#[trigger] names_of(a@)[j]),
        decreases a@.len() - i,
    {
        let found = contains_location(b.as_slice(), &a[i]);
        proof {
            lemma_names_contains(b@, a@[i as int]@);
            assert(names_of(a@)[i as int] == a@[i as int]@);
        }
        if !found {
            return false;
        }
        i = i + 1;
    }
    true
}

/// `true` iff clause `a` precedes clause `b` lexicographically by name.
fn clause_lt(a: &Vec<LocationId>, b: &Vec<LocationId>) -> (r: bool)
    ensures
        r == names_lt(names_of(a@), names_of(b@)),
{
    let ghost na = names_of(a@);
    let ghost nb = names_of(b@);
    let mut i: usize = 0;
    assert(na.skip(0) =~= na);
    assert(nb.skip(0) =~= nb);
    while i < a.len() && i < b.len()
        invariant
            na == names_of(a@),
            nb == names_of(b@),
            i <= a@.len(),
            i <= b@.len(),
            names_lt(na, nb) == names_lt(na.skip(i as int), nb.skip(i as int)),
        decreases a@.len() - i,
    {
        proof {
            assert(na.skip(i as int).drop_first() =~= na.skip(i + 1));
            assert(nb.skip(i as int).drop_first() =~= nb.skip(i + 1));
            assert(na.skip(i as int)[0] == a@[i as int]@);
            assert(nb.skip(i as int)[0] == b@[i as int]@);
        }
        if !a[i].same(&b[i]) {
            return a[i].name_lt(&b[i]);
        }
        i = i + 1;
    }
    i == a.len() && i < b.len()
}

/// `kept` without the clauses that contain `c`, in the same order.
fn drop_supersets(kept: &Vec<Vec<LocationId>>, c: &Vec<LocationId>) -> (r: Vec<Vec<LocationId>>)
    requires
        canonical_key(clauses_view(kept@)),
    ensures
        canonical_key(clauses_view(r@)),
        forall|k: int| 0 <= k < r@.len() ==> !clause_subset(names_of(c@), #[trigger] clauses_view(r@)[k]),
        forall|k: int| 0 <= k < r@.len() ==> clauses_view(kept@).contains(#[trigger] clauses_view(r@)[k]),
        forall|val: Set<Seq<char>>|
            (key_holds(clauses_view(r@), val) || clause_holds(names_of(c@), val)) == (key_holds(
                clauses_view(kept@),
                val,
            ) || clause_holds(names_of(c@), val)),
{
    let ghost kv = clauses_view(kept@);
    let ghost cn = names_of(c@);
    let mut r: Vec<Vec<LocationId>> = Vec::new();
    let ghost mut idx: Seq<int> = Seq::empty();
    let mut i: usize = 0;
    while i < kept.len()
        invariant
            kv == clauses_view(kept@),
            cn == names_of(c@),
            canonical_key(kv),
            i <= kept@.len(),
            idx.len() == r@.len(),
            forall|k: int| 0 <= k < idx.len() ==> 0 <= #[trigger] idx[k] < i,
            forall|k: int, l: int| 0 <= k < l < idx.len() ==> #[trigger] idx[k] < #[trigger] idx[l],
            forall|k: int| 0 <= k < idx.len() ==> #[trigger] clauses_view(r@)[k] == kv[idx[k]],
            forall|k: int| 0 <= k < idx.len() ==> !clause_subset(cn, #[trigger] kv[idx[k]]),
            forall|j: int|
                0 <= j < i && !clause_subset(cn, #[trigger] kv[j]) ==> exists|k: int|
                    0 <= k < idx.len() && idx[k] == j,
        decreases kept@.len() - i,
    {
        let sup = clause_subset_exec(c, &kept[i]);
        let ghost old_idx = idx;
        if !sup {
            let ghost prev_r = r@;
            r.push(copy_clause(&kept[i]));
            proof {
                idx = idx.push(i as int);
                assert forall|k: int| 0 <= k < idx.len() implies #[trigger] clauses_view(r@)[k] == kv[idx[k]] by {
                    if k < prev_r.len() {
                        assert(r@[k] == prev_r[k]);
                        assert(clauses_view(r@)[k] == clauses_view(prev_r)[k]);
                    }
                }
                assert(idx[idx.len() - 1] == i);
            }
        }
        proof {
            assert forall|j: int|
                0 <= j < i + 1 && !clause_subset(cn, #[trigger] kv[j]) implies exists|k: int|
                    0 <= k < idx.len() && idx[k] == j by {
                if j < i {
                    let k = choose|k: int| 0 <= k < old_idx.len() && old_idx[k] == j;
                    assert(idx[k] == j);
                } else {
                    assert(kv[j] == names_of(kept@[j]@));
                    assert(idx[idx.len() - 1] == j);
                }
            }
        }
        i = i + 1;
    }
    proof {
        let rv = clauses_view(r@);
        assert forall|k: int| 0 <= k < rv.len() implies kv.contains(#[trigger] rv[k]) by {
            assert(kv[idx[k]] == rv[k]);
        }
        assert forall|a: int, b: int| 0 <= a < b < rv.len() implies names_lt(#[trigger] rv[a], #[trigger] rv[b]) by {
            assert(idx[a] < idx[b]);
            assert(rv[a] == kv[idx[a]]);
            assert(rv[b] == kv[idx[b]]);
        }
        assert forall|a: int, b: int| 0 <= a < rv.len() && 0 <= b < rv.len() && a != b implies !clause_subset(
            #[trigger] rv[a],
            #[trigger] rv[b],
        ) by {
            if a < b {
                assert(idx[a] < idx[b]);
            } else {
                assert(idx[b] < idx[a]);
            }
            assert(rv[a] == kv[idx[a]]);
            assert(rv[b] == kv[idx[b]]);
        }
        assert forall|a: int| 0 <= a < rv.len() implies strictly_sorted(#[trigger] rv[a]) by {
            assert(rv[a] == kv[idx[a]]);
        }
        assert forall|val: Set<Seq<char>>|
            (key_holds(rv, val) || clause_holds(cn, val)) == (key_holds(kv, val) || clause_holds(cn, val)) by {
            if key_holds(rv, val) {
                let k = choose|k: int| 0 <= k < rv.len() && clause_holds(#[trigger] rv[k], val);
                assert(rv[k] == kv[idx[k]]);
            }
            if key_holds(kv, val) && !clause_holds(cn, val) {
                let j = choose|j: int| 0 <= j < kv.len() && clause_holds(#[trigger] kv[j], val);
                if clause_subset(cn, kv[j]) {
                    lemma_subset_holds(cn, kv[j], val);
                } else {
                    let k = choose|k: int| 0 <= k < idx.len() && idx[k] == j;
                    assert(rv[k] == kv[j]);
                }
            }
        }
    }
    r
}

/// Insert clause `c` into `kept` at its lexicographic position.
fn insert_clause_sorted(kept: &mut Vec<Vec<LocationId>>, c: Vec<LocationId>)
    requires
        canonical_key(clauses_view(old(kept)@)),
        strictly_sorted(names_of(c@)),
        forall|k: int|
            0 <= k < old(kept)@.len() ==> !clause_subset(names_of(c@), #[trigger] clauses_view(old(kept)@)[k]),
        forall|k: int|
            0 <= k < old(kept)@.len() ==> !clause_subset(#[trigger] clauses_view(old(kept)@)[k], names_of(c@)),
    ensures
        canonical_key(clauses_view(final(kept)@)),
        forall|val: Set<Seq<char>>|
            #![trigger key_holds(clauses_view(final(kept)@), val)]
            key_holds(clauses_view(final(kept)@), val) == (key_holds(clauses_view(old(kept)@), val)
                || clause_holds(names_of(c@), val)),
{
    let ghost ov = clauses_view(kept@);
    let ghost cn = names_of(c@);
    let mut pos: usize = 0;
    while pos < kept.len() && clause_lt(&kept[pos], &c)
        invariant
            ov == clauses_view(kept@),
            pos <= kept@.len(),
            forall|j: int| 0 <= j < pos ==> names_lt(#[trigger] ov[j], cn),
            cn == names_of(c@),
        decreases kept@.len() - pos,
    {
        proof {
            assert(ov[pos as int] == names_of(kept@[pos as int]@));
        }
        pos = pos + 1;
    }
    let ghost cl = c;
    kept.insert(pos, c);
    proof {
        let nv = clauses_view(kept@);
        assert(kept@ == old(kept)@.insert(pos as int, cl));
        assert forall|j: int| 0 <= j < pos implies #[trigger] nv[j] == ov[j] by {
            assert(kept@[j] == old(kept)@[j]);
        }
        assert forall|j: int| pos < j < nv.len() implies #[trigger] nv[j] == ov[j - 1] by {
            assert(kept@[j] == old(kept)@[j - 1]);
        }
        assert(nv[pos as int] == cn);
        if pos < ov.len() {
            assert(!names_lt(ov[pos as int], cn));
            assert(ov[pos as int] != cn) by {
                if ov[pos as int] == cn {
                    assert(clause_subset(cn, ov[pos as int])) by {
                        assert forall|j: int| 0 <= j < cn.len() implies ov[pos as int].contains(#[trigger] cn[j]) by {
                            assert(ov[pos as int][j] == cn[j]);
                        }
                    }
                }
            }
            lemma_names_lt_total(ov[pos as int], cn);
        }
        assert forall|a: int, b: int| 0 <= a < b < nv.len() implies names_lt(#[trigger] nv[a], #[trigger] nv[b]) by {
            if a < pos {
                if b < pos {
                } else if b == pos {
                } else {
                    assert(names_lt(ov[a], ov[b - 1]));
                }
            } else if a == pos {
                if b - 1 > pos {
                    lemma_names_lt_transitive(cn, ov[pos as int], ov[b - 1]);
                }
            } else {
                assert(names_lt(ov[a - 1], ov[b - 1]));
            }
        }
        assert forall|a: int, b: int| 0 <= a < nv.len() && 0 <= b < nv.len() && a != b implies !clause_subset(
            #[trigger] nv[a],
            #[trigger] nv[b],
        ) by {
            let oa = if a < pos { a } else { a - 1 };
            let ob = if b < pos { b } else { b - 1 };
            if a == pos {
                assert(nv[b] == ov[ob]);
            } else if b == pos {
                assert(nv[a] == ov[oa]);
            } else {
                assert(nv[a] == ov[oa]);
                assert(nv[b] == ov[ob]);
            }
        }
        assert forall|a: int| 0 <= a < nv.len() implies strictly_sorted(#[trigger] nv[a]) by {
            if a < pos {
                assert(nv[a] == ov[a]);
            } else if a > pos {
                assert(nv[a] == ov[a - 1]);
            }
        }
        assert forall|val: Set<Seq<char>>|
            key_holds(nv, val) == (key_holds(ov, val) || clause_holds(cn, val)) by {
            if key_holds(nv, val) {
                let k = choose|k: int| 0 <= k < nv.len() && clause_holds(#[trigger] nv[k], val);
                if k < pos {
                    assert(nv[k] == ov[k]);
                } else if k > pos {
                    assert(nv[k] == ov[k - 1]);
                }
            }
            if key_holds(ov, val) {
                let k = choose|k: int| 0 <= k < ov.len() && clause_holds(#[trigger] ov[k], val);
                if k < pos {
                    assert(nv[k] == ov[k]);
                } else {
                    assert(nv[k + 1] == ov[k]);
                }
            }
            if clause_holds(cn, val) {
                assert(clause_holds(nv[pos as int], val));
            }
        }
    }
}

/// Add clause `c` to the canonical list `kept`: nothing changes when a clause
/// of `kept` is contained in `c`; otherwise the clauses containing `c` leave
/// and `c` takes its sorted place.
fn add_clause(kept: Vec<Vec<LocationId>>, c: Vec<LocationId>) -> (r: Vec<Vec<LocationId>>)
    requires
        canonical_key(clauses_view(kept@)),
        strictly_sorted(names_of(c@)),
    ensures
        canonical_key(clauses_view(r@)),
        forall|val: Set<Seq<char>>|
            key_holds(clauses_view(r@), val) == (key_holds(clauses_view(kept@), val) || clause_holds(
                names_of(c@),
                val,
            )),
{
    let ghost kv = clauses_view(kept@);
    let ghost cn = names_of(c@);
    let mut i: usize = 0;
    while i < kept.len()
        invariant
            kv == clauses_view(kept@),
            cn == names_of(c@),
            canonical_key(kv),
            i <= kept@.len(),
            forall|j: int| 0 <= j < i ==> !clause_subset(#[trigger] kv[j], cn),
        decreases kept@.len() - i,
    {
        if clause_subset_exec(&kept[i], &c) {
            proof {
                assert(kv[i as int] == names_of(kept@[i as int]@));
                assert forall|val: Set<Seq<char>>|
                    key_holds(kv, val) == (key_holds(kv, val) || clause_holds(cn, val)) by {
                    if clause_holds(cn, val) {
                        lemma_subset_holds(kv[i as int], cn, val);
                    }
                }
            }
            return kept;
        }
        proof {
            assert(kv[i as int] == names_of(kept@[i as int]@));
        }
        i = i + 1;
    }
    let mut r = drop_supersets(&kept, &c);
    proof {
        let rv = clauses_view(r@);
        assert forall|k: int| 0 <= k < rv.len() implies !clause_subset(#[trigger] rv[k], cn) by {
            assert(kv.contains(rv[k]));
            let j = choose|j: int| 0 <= j < kv.len() && kv[j] == rv[k];
        }
    }
    let ghost rd = clauses_view(r@);
    insert_clause_sorted(&mut r, c);
    proof {
        assert forall|val: Set<Seq<char>>|
            key_holds(clauses_view(r@), val) == (key_holds(kv, val) || clause_holds(cn, val)) by {
            assert(key_holds(clauses_view(r@), val) == (key_holds(rd, val) || clause_holds(cn, val)));
            assert((key_holds(rd, val) || clause_holds(cn, val)) == (key_holds(kv, val) || clause_holds(cn, val)));
        }
    }
    r
}

impl MinimalModelKey {
    /// Borrow the canonical minimal satisfying sets.
    pub fn clauses(&self) -> (r: &[Vec<LocationId>])
        ensures
            clauses_view(r@) == self@,
    {
        self.clauses.as_slice()
    }

    /// Canonical key for `⊥`: no clause.
    pub fn bot() -> (k: MinimalModelKey)
        ensures
            k@ == Seq::<Seq<Seq<char>>>::empty(),
            canonical_key(k@),
    {
        let clauses: Vec<Vec<LocationId>> = Vec::new();
        assert(clauses_view(clauses@) =~= Seq::<Seq<Seq<char>>>::empty());
        MinimalModelKey { clauses }
    }

    /// Canonical key for `⊤`: the empty clause.
    pub fn top() -> (k: MinimalModelKey)
        ensures
            k@ == seq![Seq::<Seq<char>>::empty()],
            canonical_key(k@),
    {
        let mut clauses: Vec<Vec<LocationId>> = Vec::new();
        clauses.push(Vec::new());
        assert(names_of(clauses@[0]@) =~= Seq::<Seq<char>>::empty());
        assert(clauses_view(clauses@) =~= seq![Seq::<Seq<char>>::empty()]);
        MinimalModelKey { clauses }
    }

    /// Canonical key for a single variable.
    pub fn var(v: LocationId) -> (k: MinimalModelKey)
        ensures
            k@ == seq![seq![v@]],
            canonical_key(k@),
    {
        let ghost n = v@;
        let mut clause: Vec<LocationId> = Vec::new();
        clause.push(v);
        let mut clauses: Vec<Vec<LocationId>> = Vec::new();
        clauses.push(clause);
        assert(names_of(clauses@[0]@) =~= seq![n]);
        assert(clauses_view(clauses@) =~= seq![seq![n]]);
        MinimalModelKey { clauses }
    }

    /// Build the canonical key of raw satisfying clauses: each clause sorted
    /// and deduplicated, clauses containing another one dropped, the rest in
    /// lexicographic order.
    pub fn from_clauses(clauses: Vec<Vec<LocationId>>) -> (k: MinimalModelKey)
        ensures
            canonical_key(k@),
            forall|val: Set<Seq<char>>| key_holds(k@, val) == key_holds(clauses_view(clauses@), val),
    {
        let ghost rv = clauses_view(clauses@);
        let mut kept: Vec<Vec<LocationId>> = Vec::new();
        let mut i: usize = 0;
        assert(clauses_view(kept@) =~= Seq::<Seq<Seq<char>>>::empty());
        while i < clauses.len()
            invariant
                rv == clauses_view(clauses@),
                i <= clauses@.len(),
                canonical_key(clauses_view(kept@)),
                forall|val: Set<Seq<char>>|
                    key_holds(clauses_view(kept@), val) == key_holds(rv.take(i as int), val),
            decreases clauses@.len() - i,
        {
            let c = sorted_clause(&clauses[i]);
            let ghost prev = clauses_view(kept@);
            proof {
                lemma_names_contains(c@, Seq::empty());
                assert forall|n: Seq<char>| names_of(c@).contains(n) <==> rv[i as int].contains(n) by {
                    lemma_names_contains(c@, n);
                    lemma_names_contains(clauses@[i as int]@, n);
                }
                lemma_same_names(names_of(c@), rv[i as int]);
            }
            kept = add_clause(kept, c);
            proof {
                assert forall|val: Set<Seq<char>>|
                    key_holds(clauses_view(kept@), val) == key_holds(rv.take(i + 1), val) by {
                    lemma_key_holds_take(rv, i as int, val);
                }
            }
            i = i + 1;
        }
        assert(rv.take(i as int) =~= rv);
        MinimalModelKey { clauses: kept }
    }

    /// The key of a disjunction: the canonical form of all clauses of `keys`.
    pub(crate) fn union_all(keys: Vec<MinimalModelKey>) -> (k: MinimalModelKey)
        ensures
            canonical_key(k@),
            forall|val: Set<Seq<char>>|
                key_holds(k@, val) == exists|i: int| 0 <= i < keys@.len() && key_holds(#[trigger] keys@[i]@, val),
    {
        let mut kept: Vec<Vec<LocationId>> = Vec::new();
        assert(clauses_view(kept@) =~= Seq::<Seq<Seq<char>>>::empty());
        let mut i: usize = 0;
        while i < keys.len()
            invariant
                i <= keys@.len(),
                canonical_key(clauses_view(kept@)),
                forall|val: Set<Seq<char>>|
                    key_holds(clauses_view(kept@), val) == exists|a: int| 0 <= a < i && key_holds(#[trigger] keys@[a]@, val),
            decreases keys@.len() - i,
        {
            let ghost prev = clauses_view(kept@);
            let ghost ii = i as int;
            kept = add_key_clauses(kept, &keys[i]);
            i = i + 1;
            proof {
                assert forall|val: Set<Seq<char>>|
                    key_holds(clauses_view(kept@), val) == exists|a: int| 0 <= a < i && key_holds(#[trigger] keys@[a]@, val) by {
                    assert(key_holds(prev, val) == exists|a: int| 0 <= a < ii && key_holds(#[trigger] keys@[a]@, val));
                    if exists|a: int| 0 <= a < i && key_holds(#[trigger] keys@[a]@, val) {
                        let a = choose|a: int| 0 <= a < i && key_holds(#[trigger] keys@[a]@, val);
                        if a < ii {
                            assert(key_holds(prev, val));
                        }
                    }
                    if key_holds(keys@[ii]@, val) {
                        assert(exists|a: int| 0 <= a < i && key_holds(#[trigger] keys@[a]@, val));
                    }
                    if key_holds(prev, val) {
                        let a = choose|a: int| 0 <= a < ii && key_holds(#[trigger] keys@[a]@, val);
                        assert(exists|a: int| 0 <= a < i && key_holds(#[trigger] keys@[a]@, val));
                    }
                }
            }
        }
        MinimalModelKey { clauses: kept }
    }

    /// The key of a conjunction: the canonical form of all pairwise unions
    /// of clauses; `⊤` for no keys.
    pub(crate) fn intersection_all(keys: Vec<MinimalModelKey>) -> (k: MinimalModelKey)
        ensures
            canonical_key(k@),
            forall|val: Set<Seq<char>>|
                key_holds(k@, val) == forall|i: int| 0 <= i < keys@.len() ==> key_holds(#[trigger] keys@[i]@, val),
    {
        if keys.len() == 0 {
            let t = MinimalModelKey::top();
            proof {
                assert forall|val: Set<Seq<char>>| key_holds(t@, val) by {
                    assert(clause_holds(t@[0], val));
                }
            }
            return t;
        }
        let k0 = &keys[0];
        proof {
            use_type_invariant(k0);
        }
        let mut current = copy_clauses(&k0.clauses);
        let mut i: usize = 1;
        while i < keys.len()
            invariant
                1 <= i <= keys@.len(),
                canonical_key(clauses_view(current@)),
                forall|val: Set<Seq<char>>|
                    key_holds(clauses_view(current@), val) == forall|a: int| 0 <= a < i ==> key_holds(#[trigger] keys@[a]@, val),
            decreases keys@.len() - i,
        {
            let ghost cur = clauses_view(current@);
            let ki = &keys[i];
            proof {
                use_type_invariant(ki);
            }
            let ghost kc = ki@;
            if current.len() == 0 || ki.clauses.len() == 0 {
                let b = MinimalModelKey::bot();
                proof {
                    assert forall|val: Set<Seq<char>>|
                        key_holds(b@, val) == forall|a: int| 0 <= a < keys@.len() ==> key_holds(#[trigger] keys@[a]@, val) by {
                        if forall|a: int| 0 <= a < keys@.len() ==> key_holds(#[trigger] keys@[a]@, val) {
                            assert(key_holds(keys@[i as int]@, val));
                            assert(forall|a: int| 0 <= a < i ==> key_holds(#[trigger] keys@[a]@, val));
                            assert(key_holds(cur, val));
                        }
                    }
                }
                return b;
            }
            let combined = product_clauses(&current, &ki.clauses);
            proof {
                assert forall|val: Set<Seq<char>>|
                    key_holds(clauses_view(combined@), val) == forall|a: int| 0 <= a < i + 1 ==> key_holds(#[trigger] keys@[a]@, val) by {
                    if forall|a: int| 0 <= a < i + 1 ==> key_holds(#[trigger] keys@[a]@, val) {
                        assert(forall|a: int| 0 <= a < i ==> key_holds(#[trigger] keys@[a]@, val));
                        assert(key_holds(keys@[i as int]@, val));
                    }
                    if key_holds(clauses_view(combined@), val) {
                        assert forall|a: int| 0 <= a < i + 1 implies key_holds(#[trigger] keys@[a]@, val) by {
                            if a < i {
                                assert(key_holds(cur, val));
                            }
                        }
                    }
                }
            }
            current = combined;
            i = i + 1;
        }
        MinimalModelKey { clauses: current }
    }
}

/// `kept` with every clause of key `k` added.
fn add_key_clauses(kept: Vec<Vec<LocationId>>, k: &MinimalModelKey) -> (r: Vec<Vec<LocationId>>)
    requires
        canonical_key(clauses_view(kept@)),
    ensures
        canonical_key(clauses_view(r@)),
        forall|val: Set<Seq<char>>|
            key_holds(clauses_view(r@), val) == (key_holds(clauses_view(kept@), val) || key_holds(k@, val)),
{
    proof {
        use_type_invariant(k);
    }
    let ghost before = clauses_view(kept@);
    let ghost kc = k@;
    let mut acc = kept;
    let mut j: usize = 0;
    while j < k.clauses.len()
        invariant
            kc == k@,
            canonical_key(kc),
            kc == clauses_view(k.clauses@),
            j <= kc.len(),
            canonical_key(clauses_view(acc@)),
            forall|val: Set<Seq<char>>|
                key_holds(clauses_view(acc@), val) == (key_holds(before, val) || key_holds(kc.take(j as int), val)),
        decreases kc.len() - j,
    {
        let c = copy_clause(&k.clauses[j]);
        proof {
            assert(names_of(c@) == kc[j as int]);
        }
        let ghost prev = clauses_view(acc@);
        let ghost jj = j as int;
        acc = add_clause(acc, c);
        j = j + 1;
        proof {
            assert forall|val: Set<Seq<char>>|
                key_holds(clauses_view(acc@), val) == (key_holds(before, val) || key_holds(kc.take(j as int), val)) by {
                lemma_key_holds_take(kc, jj, val);
                assert(key_holds(prev, val) == (key_holds(before, val) || key_holds(kc.take(jj), val)));
            }
        }
    }
    assert(kc.take(j as int) =~= kc);
    acc
}

impl Clone for MinimalModelKey {
    fn clone(&self) -> (r: Self)
        ensures
            r@ == self@,
    {
        proof {
            use_type_invariant(self);
        }
        MinimalModelKey { clauses: copy_clauses(&self.clauses) }
    }
}

impl MinimalModelKey {
    #[verifier::type_invariant]
    spec fn well_formed(&self) -> bool {
        canonical_key(self@)
    }
}

proof fn lemma_key_holds_take(k: Seq<Seq<Seq<char>>>, i: int, val: Set<Seq<char>>)
    requires
        0 <= i < k.len(),
    ensures
        key_holds(k.take(i + 1), val) == (key_holds(k.take(i), val) || clause_holds(k[i], val)),
{
    let a = k.take(i);
    let b = k.take(i + 1);
    if key_holds(b, val) {
        let j = choose|j: int| 0 <= j < b.len() && clause_holds(#[trigger] b[j], val);
        if j < i {
            assert(a[j] == b[j]);
        }
    }
    if key_holds(a, val) {
        let j = choose|j: int| 0 <= j < a.len() && clause_holds(#[trigger] a[j], val);
        assert(b[j] == a[j]);
    }
    if clause_holds(k[i], val) {
        assert(b[i] == k[i]);
    }
}

/// An exact copy of a list of clauses.
fn copy_clauses(v: &Vec<Vec<LocationId>>) -> (r: Vec<Vec<LocationId>>)
    ensures
        clauses_view(r@) == clauses_view(v@),
{
    let mut r: Vec<Vec<LocationId>> = Vec::new();
    let mut i: usize = 0;
    while i < v.len()
        invariant
            i <= v@.len(),
            r@.len() == i,
            forall|j: int| 0 <= j < i ==> #[trigger] r@[j]@ == v@[j]@,
        decreases v@.len() - i,
    {
        r.push(copy_clause(&v[i]));
        i = i + 1;
    }
    assert(clauses_view(r@) =~= clauses_view(v@));
    r
}

/// `kept` with the unions of clause `c` with every clause of `b` added.
fn add_products(kept: Vec<Vec<LocationId>>, c: &Vec<LocationId>, b: &Vec<Vec<LocationId>>) -> (r: Vec<
    Vec<LocationId>,
>)
    requires
        canonical_key(clauses_view(kept@)),
        strictly_sorted(names_of(c@)),
    ensures
        canonical_key(clauses_view(r@)),
        forall|val: Set<Seq<char>>|
            key_holds(clauses_view(r@), val) == (key_holds(clauses_view(kept@), val) || (clause_holds(
                names_of(c@),
                val,
            ) && key_holds(clauses_view(b@), val))),
{
    let ghost before = clauses_view(kept@);
    let ghost bv = clauses_view(b@);
    let ghost cn = names_of(c@);
    let mut acc = kept;
    let mut y: usize = 0;
    while y < b.len()
        invariant
            bv == clauses_view(b@),
            cn == names_of(c@),
            strictly_sorted(cn),
            y <= b@.len(),
            canonical_key(clauses_view(acc@)),
            forall|val: Set<Seq<char>>|
                key_holds(clauses_view(acc@), val) == (key_holds(before, val) || (clause_holds(cn, val)
                    && key_holds(bv.take(y as int), val))),
        decreases b@.len() - y,
    {
        let m = merge_clauses(c, &b[y]);
        let ghost prev = clauses_view(acc@);
        let ghost yy = y as int;
        acc = add_clause(acc, m);
        y = y + 1;
        proof {
            assert forall|val: Set<Seq<char>>|
                key_holds(clauses_view(acc@), val) == (key_holds(before, val) || (clause_holds(cn, val)
                    && key_holds(bv.take(y as int), val))) by {
                lemma_key_holds_take(bv, yy, val);
                lemma_merged_holds(m@, c@, b@[yy]@, val);
                assert(bv[yy] == names_of(b@[yy]@));
                assert(key_holds(prev, val) == (key_holds(before, val) || (clause_holds(cn, val)
                    && key_holds(bv.take(yy), val))));
            }
        }
    }
    assert(bv.take(y as int) =~= bv);
    acc
}

/// The canonical list of all unions of a clause of `a` with a clause of `b`.
fn product_clauses(a: &Vec<Vec<LocationId>>, b: &Vec<Vec<LocationId>>) -> (r: Vec<Vec<LocationId>>)
    requires
        canonical_key(clauses_view(a@)),
    ensures
        canonical_key(clauses_view(r@)),
        forall|val: Set<Seq<char>>|
            key_holds(clauses_view(r@), val) == (key_holds(clauses_view(a@), val) && key_holds(
                clauses_view(b@),
                val,
            )),
{
    let ghost av = clauses_view(a@);
    let ghost bv = clauses_view(b@);
    let mut kept: Vec<Vec<LocationId>> = Vec::new();
    assert(clauses_view(kept@) =~= Seq::<Seq<Seq<char>>>::empty());
    let mut x: usize = 0;
    while x < a.len()
        invariant
            av == clauses_view(a@),
            bv == clauses_view(b@),
            canonical_key(av),
            x <= a@.len(),
            canonical_key(clauses_view(kept@)),
            forall|val: Set<Seq<char>>|
                #![trigger key_holds(clauses_view(kept@), val)]
                key_holds(clauses_view(kept@), val) == (key_holds(av.take(x as int), val) && key_holds(bv, val)),
        decreases a@.len() - x,
    {
        proof {
            assert(av[x as int] == names_of(a@[x as int]@));
        }
        let ghost prev = clauses_view(kept@);
        let ghost xx = x as int;
        kept = add_products(kept, &a[x], b);
        x = x + 1;
        proof {
            assert forall|val: Set<Seq<char>>|
                key_holds(clauses_view(kept@), val) == (key_holds(av.take(x as int), val) && key_holds(bv, val)) by {
                lemma_key_holds_take(av, xx, val);
                assert(key_holds(prev, val) == (key_holds(av.take(xx), val) && key_holds(bv, val)));
            }
        }
    }
    assert(av.take(x as int) =~= av);
    kept
}

/// A merged clause holds exactly when both merged clauses hold.
proof fn lemma_merged_holds(m: Seq<LocationId>, a: Seq<LocationId>, b: Seq<LocationId>, val: Set<Seq<char>>)
    requires
        forall|n: Seq<char>| has_name(m, n) <==> (has_name(a, n) || has_name(b, n)),
    ensures
        clause_holds(names_of(m), val) == (clause_holds(names_of(a), val) && clause_holds(names_of(b), val)),
{
    if clause_holds(names_of(m), val) {
        assert forall|j: int| 0 <= j < names_of(a).len() implies val.contains(#[trigger] names_of(a)[j]) by {
            assert(has_name(a, a[j]@));
            let k = choose|k: int| 0 <= k < m.len() && #[trigger] m[k]@ == a[j]@;
            assert(names_of(m)[k] == m[k]@);
        }
        assert forall|j: int| 0 <= j < names_of(b).len() implies val.contains(#[trigger] names_of(b)[j]) by {
            assert(has_name(b, b[j]@));
            let k = choose|k: int| 0 <= k < m.len() && #[trigger] m[k]@ == b[j]@;
            assert(names_of(m)[k] == m[k]@);
        }
    }
    if clause_holds(names_of(a), val) && clause_holds(names_of(b), val) {
        assert forall|j: int| 0 <= j < names_of(m).len() implies val.contains(#[trigger] names_of(m)[j]) by {
            assert(has_name(m, m[j]@));
            if has_name(a, m[j]@) {
                let k = choose|k: int| 0 <= k < a.len() && #[trigger] a[k]@ == m[j]@;
                assert(names_of(a)[k] == a[k]@);
            } else {
                let k = choose|k: int| 0 <= k < b.len() && #[trigger] b[k]@ == m[j]@;
                assert(names_of(b)[k] == b[k]@);
            }
        }
    }
}


impl MinimalModelKey {
    /// `true` iff both keys have the same clauses.
    pub fn same_key(&self, other: &MinimalModelKey) -> (r: bool)
        ensures
            r == (self@ == other@),
    {
        let a = &self.clauses;
        let b = &other.clauses;
        if a.len() != b.len() {
            proof {
                assert(self@.len() != other@.len());
            }
            return false;
        }
        let mut i: usize = 0;
        while i < a.len()
            invariant
                a@.len() == b@.len(),
                i <= a@.len(),
                *a == self.clauses,
                *b == other.clauses,
                forall|j: int| 0 <= j < i ==> #[trigger] clauses_view(a@)[j] == clauses_view(b@)[j],
            decreases a@.len() - i,
        {
            let ca = &a[i];
            let cb = &b[i];
            if ca.len() != cb.len() {
                proof {
                    assert(clauses_view(a@)[i as int].len() != clauses_view(b@)[i as int].len());
                }
                return false;
            }
            let mut k: usize = 0;
            while k < ca.len()
                invariant
                    ca@.len() == cb@.len(),
                    i < a@.len(),
                    a@.len() == b@.len(),
                    *ca == a@[i as int],
                    *cb == b@[i as int],
                    *a == self.clauses,
                    *b == other.clauses,
                    k <= ca@.len(),
                    forall|j: int| 0 <= j < k ==> #[trigger] ca@[j]@ == cb@[j]@,
                decreases ca@.len() - k,
            {
                if !ca[k].same(&cb[k]) {
                    proof {
                        assert(names_of(ca@)[k as int] != names_of(cb@)[k as int]);
                        assert(clauses_view(a@)[i as int] == names_of(ca@));
                        assert(clauses_view(b@)[i as int] == names_of(cb@));
                        assert(self@[i as int] != other@[i as int]);
                    }
                    return false;
                }
                k = k + 1;
            }
            proof {
                assert(names_of(ca@) =~= names_of(cb@));
                assert(clauses_view(a@)[i as int] == names_of(ca@));
                assert(clauses_view(b@)[i as int] == names_of(cb@));
            }
            i = i + 1;
        }
        proof {
            assert(clauses_view(a@) =~= clauses_view(b@));
        }
        true
    }

    /// `true` iff this is the key of `⊥` (no clause).
    pub fn is_bot(&self) -> (r: bool)
        ensures
            r == (self@.len() == 0),
    {
        self.clauses.len() == 0
    }
}


/// Every clause of `k1` contains some clause of `k2`.
pub open spec fn subsumed(k1: Seq<Seq<Seq<char>>>, k2: Seq<Seq<Seq<char>>>) -> bool {
    forall|i: int| 0 <= i < k1.len() ==> #[trigger] clause_covered(k2, k1[i])
}

/// Some clause of `k` is contained in clause `c`.
pub open spec fn clause_covered(k: Seq<Seq<Seq<char>>>, c: Seq<Seq<char>>) -> bool {
    exists|j: int| 0 <= j < k.len() && #[trigger] clause_subset(k[j], c)
}

/// Subsumption is implication of the keys' meanings.
pub proof fn lemma_subsumed_implies(k1: Seq<Seq<Seq<char>>>, k2: Seq<Seq<Seq<char>>>)
    ensures
        subsumed(k1, k2) == forall|val: Set<Seq<char>>| #[trigger] key_holds(k1, val) ==> key_holds(k2, val),
{
    if subsumed(k1, k2) {
        assert forall|val: Set<Seq<char>>| #[trigger] key_holds(k1, val) implies key_holds(k2, val) by {
            let i = choose|i: int| 0 <= i < k1.len() && clause_holds(#[trigger] k1[i], val);
            assert(clause_covered(k2, k1[i]));
            let j = choose|j: int| 0 <= j < k2.len() && #[trigger] clause_subset(k2[j], k1[i]);
            lemma_subset_holds(k2[j], k1[i], val);
        }
    }
    if forall|val: Set<Seq<char>>| #[trigger] key_holds(k1, val) ==> key_holds(k2, val) {
        assert forall|i: int| 0 <= i < k1.len() implies #[trigger] clause_covered(k2, k1[i]) by {
            let c = k1[i];
            let val = Set::new(|n: Seq<char>| c.contains(n));
            assert(clause_holds(c, val)) by {
                assert forall|j: int| 0 <= j < c.len() implies val.contains(#[trigger] c[j]) by {
                    assert(c.contains(c[j]));
                }
            }
            assert(key_holds(k1, val));
            let j = choose|j: int| 0 <= j < k2.len() && clause_holds(#[trigger] k2[j], val);
            assert(clause_subset(k2[j], c));
        }
    }
}

impl MinimalModelKey {
    /// `true` iff both keys hold under exactly the same valuations.
    pub fn equivalent_to(&self, other: &MinimalModelKey) -> (r: bool)
        ensures
            r == forall|val: Set<Seq<char>>| #[trigger] key_holds(self@, val) == key_holds(other@, val),
    {
        let a = covers_all(&self.clauses, &other.clauses);
        let b = covers_all(&other.clauses, &self.clauses);
        proof {
            lemma_subsumed_implies(self@, other@);
            lemma_subsumed_implies(other@, self@);
            if forall|val: Set<Seq<char>>| #[trigger] key_holds(self@, val) == key_holds(other@, val) {
                assert(forall|val: Set<Seq<char>>| #[trigger] key_holds(self@, val) ==> key_holds(other@, val));
                assert(forall|val: Set<Seq<char>>| #[trigger] key_holds(other@, val) ==> key_holds(self@, val));
            }
        }
        a && b
    }
}

/// `true` iff every clause of `a` contains some clause of `b`.
fn covers_all(a: &Vec<Vec<LocationId>>, b: &Vec<Vec<LocationId>>) -> (r: bool)
    ensures
        r == subsumed(clauses_view(a@), clauses_view(b@)),
{
    let ghost av = clauses_view(a@);
    let ghost bv = clauses_view(b@);
    let mut i: usize = 0;
    while i < a.len()
        invariant
            av == clauses_view(a@),
            bv == clauses_view(b@),
            i <= a@.len(),
            forall|x: int| 0 <= x < i ==> #[trigger] clause_covered(bv, av[x]),
        decreases a@.len() - i,
    {
        let mut found = false;
        let mut j: usize = 0;
        while j < b.len() && !found
            invariant
                av == clauses_view(a@),
                bv == clauses_view(b@),
                i < a@.len(),
                j <= b@.len(),
                found ==> clause_covered(bv, av[i as int]),
                !found ==> forall|y: int| 0 <= y < j ==> !#[trigger] clause_subset(bv[y], av[i as int]),
            decreases b@.len() - j,
        {
            if clause_subset_exec(&b[j], &a[i]) {
                found = true;
                proof {
                    assert(clause_subset(bv[j as int], av[i as int]));
                }
            }
            j = j + 1;
        }
        if !found {
            proof {
                assert(!clause_covered(bv, av[i as int]));
            }
            return false;
        }
        i = i + 1;
    }
    true
}

} // verus!
