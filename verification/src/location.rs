//! Location (state) identifiers for ARTA.

use vstd::prelude::*;

use crate::text::{
    lemma_seq_lt_asymmetric, lemma_seq_lt_irreflexive, lemma_seq_lt_total, lemma_seq_lt_transitive,
    seq_lt, str_eq, str_lt, strictly_sorted,
};

verus! {

/// A location identifier, known by its unique name.
///
/// Its view is the name's character sequence.
#[derive(Debug, Clone, PartialEq, Eq, Hash, PartialOrd, Ord)]
pub struct LocationId(String);

impl View for LocationId {
    type V = Seq<char>;

    closed spec fn view(&self) -> Seq<char> {
        self.0@
    }
}

impl LocationId {
    /// Create a location identifier with the given name.
    pub fn new(name: &str) -> (r: LocationId)
        ensures
            r@ == name@,
    {
        LocationId(String::from_str(name))
    }

    /// Create a location identifier that takes ownership of `name`.
    pub fn from_string(name: String) -> (r: LocationId)
        ensures
            r@ == name@,
    {
        LocationId(name)
    }

    /// The name of this location.
    pub fn name(&self) -> (s: &str)
        ensures
            s@ == self@,
    {
        self.0.as_str()
    }

    /// An exact copy of this identifier.
    pub fn copy_id(&self) -> (r: LocationId)
        ensures
            r == *self,
            r@ == self@,
    {
        LocationId(self.0.clone())
    }

    /// `true` iff both identifiers have the same name.
    pub fn same(&self, other: &LocationId) -> (b: bool)
        ensures
            b == (self@ == other@),
    {
        str_eq(self.0.as_str(), other.0.as_str())
    }

    /// `true` iff this name precedes `other`'s in code-point order.
    pub fn name_lt(&self, other: &LocationId) -> (b: bool)
        ensures
            b == seq_lt(self@, other@),
    {
        str_lt(self.0.as_str(), other.0.as_str())
    }

    /// The name as an owned string (what `Display` shows).
    pub fn to_string(&self) -> (s: String)
        ensures
            s@ == self@,
    {
        self.0.clone()
    }
}

/// The names of a sequence of locations.
pub open spec fn names_of(s: Seq<LocationId>) -> Seq<Seq<char>> {
    Seq::new(s.len(), |i: int| s[i]@)
}

/// `true` iff some location in `s` has name `n`.
pub open spec fn has_name(s: Seq<LocationId>, n: Seq<char>) -> bool {
    exists|i: int| 0 <= i < s.len() && #[trigger] s[i]@ == n
}

/// A name is among the names of `s` exactly when some location of `s` has it.
pub proof fn lemma_names_contains(s: Seq<LocationId>, n: Seq<char>)
    ensures
        names_of(s).contains(n) == has_name(s, n),
{
    if has_name(s, n) {
        let i = choose|i: int| 0 <= i < s.len() && #[trigger] s[i]@ == n;
        assert(names_of(s)[i] == n);
    }
    if names_of(s).contains(n) {
        let i = choose|i: int| 0 <= i < names_of(s).len() && names_of(s)[i] == n;
        assert(s[i]@ == n);
    }
}

/// `true` iff some location in `s` is named `l`'s name.
pub fn contains_location(s: &[LocationId], l: &LocationId) -> (b: bool)
    ensures
        b == has_name(s@, l@),
{
    let mut i: usize = 0;
    while i < s.len()
        invariant
            i <= s@.len(),
            forall|j: int| 0 <= j < i ==> s@[j]@ != l@,
        decreases s@.len() - i,
    {
        if s[i].same(l) {
            return true;
        }
        i = i + 1;
    }
    false
}

/// Insert `x` into the name-sorted, duplicate-free `v` unless its name is
/// already present.
pub fn insert_sorted_location(v: &mut Vec<LocationId>, x: LocationId)
    requires
        strictly_sorted(names_of(old(v)@)),
    ensures
        strictly_sorted(names_of(final(v)@)),
        forall|n: Seq<char>| has_name(final(v)@, n) <==> (has_name(old(v)@, n) || n == x@),
{
    let ghost old_v = v@;
    let mut pos: usize = 0;
    while pos < v.len() && v[pos].name_lt(&x)
        invariant
            v@ == old_v,
            pos <= v@.len(),
            forall|j: int| 0 <= j < pos ==> seq_lt(#[trigger] v@[j]@, x@),
        decreases v@.len() - pos,
    {
        pos = pos + 1;
    }
    if pos < v.len() && v[pos].same(&x) {
        return;
    }
    let ghost xv = x@;
    let ghost xl = x;
    v.insert(pos, x);
    proof {
        assert(v@ == old_v.insert(pos as int, xl));
        assert forall|j: int| pos < j < v@.len() implies v@[j] == old_v[j - 1] by {}
        assert forall|j: int| 0 <= j < pos implies v@[j] == old_v[j] by {}
        assert forall|n: Seq<char>| has_name(v@, n) <==> (has_name(old_v, n) || n == xv) by {
            if has_name(v@, n) {
                let j = choose|j: int| 0 <= j < v@.len() && #[trigger] v@[j]@ == n;
                if j < pos {
                    assert(old_v[j]@ == n);
                } else if j > pos {
                    assert(old_v[j - 1]@ == n);
                }
            }
            if has_name(old_v, n) {
                let j = choose|j: int| 0 <= j < old_v.len() && #[trigger] old_v[j]@ == n;
                if j < pos {
                    assert(v@[j]@ == n);
                } else {
                    assert(v@[j + 1]@ == n);
                }
            }
            if n == xv {
                assert(v@[pos as int]@ == n);
            }
        }
        if pos < old_v.len() {
            assert(!seq_lt(old_v[pos as int]@, xv));
            assert(old_v[pos as int]@ != xv);
            lemma_seq_lt_total(old_v[pos as int]@, xv);
            assert(seq_lt(xv, old_v[pos as int]@));
        }
        let nv = names_of(v@);
        let ov = names_of(old_v);
        assert(strictly_sorted(ov));
        assert forall|i: int, j: int| 0 <= i < j < nv.len() implies seq_lt(nv[i], nv[j]) by {
            if i < pos {
                assert(nv[i] == ov[i]);
                assert(seq_lt(ov[i], xv));
                if j < pos {
                    assert(nv[j] == ov[j]);
                } else if j == pos {
                    assert(nv[j] == xv);
                } else {
                    assert(nv[j] == ov[j - 1]);
                    assert(seq_lt(ov[i], ov[j - 1]));
                }
            } else if i == pos {
                assert(nv[i] == xv);
                assert(nv[j] == ov[j - 1]);
                assert(seq_lt(xv, ov[pos as int]));
                if j - 1 > pos {
                    assert(seq_lt(ov[pos as int], ov[j - 1]));
                    lemma_seq_lt_transitive(xv, ov[pos as int], ov[j - 1]);
                }
            } else {
                assert(nv[i] == ov[i - 1]);
                assert(nv[j] == ov[j - 1]);
                assert(seq_lt(ov[i - 1], ov[j - 1]));
            }
        }
    }
}

} // verus!
