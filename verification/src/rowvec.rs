//! Bitset-backed row vectors for observation tables.
//!
//! A row vector is a truth vector over suffix-experiment columns, stored as
//! the set of indices whose value is `⊤`. Its view is the sequence of its
//! truth values.

use fixedbitset::FixedBitSet;
use vstd::prelude::*;

use crate::text::push_char;

verus! {

#[verifier::external_type_specification]
#[verifier::external_body]
pub struct ExFixedBitSet(FixedBitSet);

/// The bits that a fixed bit set holds, in index order; its length is the
/// set's length.
pub uninterp spec fn bitset_bits(b: FixedBitSet) -> Seq<bool>;

/// `FixedBitSet::with_capacity`: a set of `bits` bits, all clear.
#[verifier::external_body]
fn bitset_with_capacity(bits: usize) -> (r: FixedBitSet)
    ensures
        bitset_bits(r) == Seq::new(bits as nat, |i: int| false),
{
    FixedBitSet::with_capacity(bits)
}

/// `FixedBitSet::grow`: lengthen to `bits` bits with the new bits clear; a
/// set that is already that long is left alone.
#[verifier::external_body]
fn bitset_grow(b: &mut FixedBitSet, bits: usize)
    ensures
        bits > bitset_bits(*old(b)).len() ==> bitset_bits(*final(b)) == bitset_bits(*old(b)) + Seq::new(
            (bits - bitset_bits(*old(b)).len()) as nat,
            |i: int| false,
        ),
        bits <= bitset_bits(*old(b)).len() ==> bitset_bits(*final(b)) == bitset_bits(*old(b)),
{
    b.grow(bits)
}

/// `FixedBitSet::contains`: the bit at `bit`; bits past the end are clear.
#[verifier::external_body]
fn bitset_contains(b: &FixedBitSet, bit: usize) -> (r: bool)
    ensures
        r == (bit < bitset_bits(*b).len() && bitset_bits(*b)[bit as int]),
{
    b.contains(bit)
}

/// `FixedBitSet::set`: set the bit at `bit` to `enabled`; it panics past the
/// end, which `requires` rules out, and does not unwind otherwise.
#[verifier::external_body]
fn bitset_set(b: &mut FixedBitSet, bit: usize, enabled: bool)
    requires
        bit < bitset_bits(*old(b)).len(),
    ensures
        bitset_bits(*final(b)) == bitset_bits(*old(b)).update(bit as int, enabled),
    no_unwind
{
    b.set(bit, enabled)
}

/// `FixedBitSet::insert`: enable the bit at `bit`; it panics past the end,
/// which `requires` rules out.
#[verifier::external_body]
fn bitset_insert(b: &mut FixedBitSet, bit: usize)
    requires
        bit < bitset_bits(*old(b)).len(),
    ensures
        bitset_bits(*final(b)) == bitset_bits(*old(b)).update(bit as int, true),
{
    b.insert(bit)
}

/// `FixedBitSet::set_range` over the whole set with `true`: every bit enabled.
#[verifier::external_body]
fn bitset_enable_all(b: &mut FixedBitSet)
    ensures
        bitset_bits(*final(b)) == Seq::new(bitset_bits(*old(b)).len(), |i: int| true),
{
    b.set_range(.., true)
}

/// `FixedBitSet::intersect_with` on sets of the same length: pointwise `∧`.
#[verifier::external_body]
fn bitset_intersect_with(b: &mut FixedBitSet, other: &FixedBitSet)
    requires
        bitset_bits(*old(b)).len() == bitset_bits(*other).len(),
    ensures
        bitset_bits(*final(b)) == Seq::new(
            bitset_bits(*old(b)).len(),
            |i: int| bitset_bits(*old(b))[i] && bitset_bits(*other)[i],
        ),
{
    b.intersect_with(other)
}

/// `FixedBitSet::union_with` on sets of the same length: pointwise `∨`.
#[verifier::external_body]
fn bitset_union_with(b: &mut FixedBitSet, other: &FixedBitSet)
    requires
        bitset_bits(*old(b)).len() == bitset_bits(*other).len(),
    ensures
        bitset_bits(*final(b)) == Seq::new(
            bitset_bits(*old(b)).len(),
            |i: int| bitset_bits(*old(b))[i] || bitset_bits(*other)[i],
        ),
{
    b.union_with(other)
}

/// `FixedBitSet::ones`, collected: the indices of the enabled bits in
/// increasing order.
#[verifier::external_body]
fn bitset_ones(b: &FixedBitSet) -> (r: Vec<usize>)
    ensures
        r@ == ones_of(bitset_bits(*b)),
{
    b.ones().collect()
}

/// `FixedBitSet::clone`: a set with the same bits.
#[verifier::external_body]
fn bitset_clone(b: &FixedBitSet) -> (r: FixedBitSet)
    ensures
        bitset_bits(r) == bitset_bits(*b),
{
    b.clone()
}

/// The indices of the `true` entries of `s`, in increasing order.
pub open spec fn ones_of(s: Seq<bool>) -> Seq<usize>
    decreases s.len(),
{
    if s.len() == 0 {
        Seq::empty()
    } else if s[s.len() - 1] {
        ones_of(s.drop_last()).push((s.len() - 1) as usize)
    } else {
        ones_of(s.drop_last())
    }
}

/// Every index of `ones_of(s)` is a `true` position of `s`, they increase
/// strictly, and every `true` position is listed.
pub proof fn lemma_ones_of(s: Seq<bool>)
    requires
        s.len() <= usize::MAX + 1,
    ensures
        forall|j: int| 0 <= j < ones_of(s).len() ==> (#[trigger] ones_of(s)[j]) < s.len() && s[ones_of(s)[j] as int],
        forall|j: int, k: int| 0 <= j < k < ones_of(s).len() ==> ones_of(s)[j] < ones_of(s)[k],
        forall|i: int| 0 <= i < s.len() && s[i] ==> ones_of(s).contains(i as usize),
        ones_of(s).len() <= s.len(),
    decreases s.len(),
{
    if s.len() > 0 {
        let t = s.drop_last();
        lemma_ones_of(t);
        assert forall|i: int| 0 <= i < s.len() && s[i] implies ones_of(s).contains(i as usize) by {
            if i < s.len() - 1 {
                assert(t[i]);
                let j = choose|j: int| 0 <= j < ones_of(t).len() && ones_of(t)[j] == i as usize;
                assert(ones_of(s)[j] == i as usize);
            } else {
                assert(ones_of(s)[ones_of(s).len() - 1] == i as usize);
            }
        }
    }
}

/// Errors produced by [`RowVec`] operations.
#[derive(Debug, Clone, PartialEq, Eq, Structural)]
#[non_exhaustive]
pub enum RowVecError {
    /// Index is outside the row bounds.
    IndexOutOfBounds {
        /// Requested bit index.
        index: usize,
        /// Row width.
        len: usize,
    },
    /// Binary row operations require equal lengths.
    LengthMismatch {
        /// Left-hand row width.
        left: usize,
        /// Right-hand row width.
        right: usize,
    },
}

/// Bitset-backed row vector: `len` columns, each set bit denotes `⊤`.
#[derive(Debug)]
pub struct RowVec {
    len: usize,
    bits: FixedBitSet,
}

impl View for RowVec {
    type V = Seq<bool>;

    closed spec fn view(&self) -> Seq<bool> {
        bitset_bits(self.bits)
    }
}

/// The text of a row: `1` for `⊤` and `0` for `⊥`, in column order.
pub open spec fn row_text(s: Seq<bool>) -> Seq<char> {
    Seq::new(s.len(), |i: int| if s[i] { '1' } else { '0' })
}

impl RowVec {
    /// The bit set always has the row's length.
    #[verifier::type_invariant]
    spec fn inv(&self) -> bool {
        bitset_bits(self.bits).len() == self.len
    }

    /// Create a new row of length `len`, all `⊥`.
    pub fn new(len: usize) -> (r: RowVec)
        ensures
            r@ == Seq::new(len as nat, |i: int| false),
    {
        let mut bits = bitset_with_capacity(len);
        bitset_grow(&mut bits, len);
        RowVec { len, bits }
    }

    /// Create a new row of length `len`, all `⊤`.
    pub fn top(len: usize) -> (r: RowVec)
        ensures
            r@ == Seq::new(len as nat, |i: int| true),
    {
        let mut bits = bitset_with_capacity(len);
        bitset_grow(&mut bits, len);
        bitset_enable_all(&mut bits);
        RowVec { len, bits }
    }

    /// Create a new row of length `len`, all `⊥`.
    pub fn bot(len: usize) -> (r: RowVec)
        ensures
            r@ == Seq::new(len as nat, |i: int| false),
    {
        Self::new(len)
    }

    /// The row length.
    pub fn len(&self) -> (n: usize)
        ensures
            n == self@.len(),
    {
        proof {
            use_type_invariant(self);
        }
        self.len
    }

    /// `true` when the row has no columns.
    pub fn is_empty(&self) -> (b: bool)
        ensures
            b == (self@.len() == 0),
    {
        proof {
            use_type_invariant(self);
        }
        self.len == 0
    }

    /// The value at `i`, or `None` when out of bounds.
    pub fn get(&self, i: usize) -> (r: Option<bool>)
        ensures
            r == (if i < self@.len() { Some(self@[i as int]) } else { None::<bool> }),
    {
        proof {
            use_type_invariant(self);
        }
        if i >= self.len {
            return None;
        }
        Some(bitset_contains(&self.bits, i))
    }

    /// Set the value at `i`; an error, with the row unchanged, when `i` is
    /// out of bounds.
    pub fn set(&mut self, i: usize, v: bool) -> (r: Result<(), RowVecError>)
        ensures
            i < old(self)@.len() ==> r is Ok && final(self)@ == old(self)@.update(i as int, v),
            i >= old(self)@.len() ==> r == Err::<(), RowVecError>(
                RowVecError::IndexOutOfBounds { index: i, len: old(self)@.len() as usize },
            ) && final(self)@ == old(self)@,
    {
        proof {
            use_type_invariant(&*self);
        }
        if i >= self.len {
            return Err(RowVecError::IndexOutOfBounds { index: i, len: self.len });
        }
        bitset_set(&mut self.bits, i, v);
        Ok(())
    }

    /// Extend the row by one column holding `v`.
    pub fn push_bit(&mut self, v: bool)
        requires
            old(self)@.len() < usize::MAX,
        ensures
            final(self)@ == old(self)@.push(v),
    {
        proof {
            use_type_invariant(&*self);
        }
        let idx = self.len;
        let ghost before = self@;
        let mut bits = bitset_clone(&self.bits);
        bitset_grow(&mut bits, idx + 1);
        if v {
            bitset_insert(&mut bits, idx);
        }
        assert(bitset_bits(bits) =~= before.push(v));
        *self = RowVec { len: idx + 1, bits };
    }

    /// The indices whose values are `⊤`, in increasing order.
    pub fn ones(&self) -> (r: Vec<usize>)
        ensures
            r@ == ones_of(self@),
    {
        bitset_ones(&self.bits)
    }

    /// Pointwise conjunction with `other`; an error when the lengths differ.
    pub fn and(&self, other: &RowVec) -> (r: Result<RowVec, RowVecError>)
        ensures
            self@.len() == other@.len() ==> (r matches Ok(row) && row@ == Seq::new(
                self@.len(),
                |i: int| self@[i] && other@[i],
            )),
            self@.len() != other@.len() ==> r == Err::<RowVec, RowVecError>(
                RowVecError::LengthMismatch { left: self@.len() as usize, right: other@.len() as usize },
            ),
    {
        proof {
            use_type_invariant(self);
            use_type_invariant(other);
        }
        if self.len != other.len {
            return Err(RowVecError::LengthMismatch { left: self.len, right: other.len });
        }
        let mut bits = bitset_clone(&self.bits);
        bitset_intersect_with(&mut bits, &other.bits);
        Ok(RowVec { len: self.len, bits })
    }

    /// Pointwise disjunction with `other`; an error when the lengths differ.
    pub fn or(&self, other: &RowVec) -> (r: Result<RowVec, RowVecError>)
        ensures
            self@.len() == other@.len() ==> (r matches Ok(row) && row@ == Seq::new(
                self@.len(),
                |i: int| self@[i] || other@[i],
            )),
            self@.len() != other@.len() ==> r == Err::<RowVec, RowVecError>(
                RowVecError::LengthMismatch { left: self@.len() as usize, right: other@.len() as usize },
            ),
    {
        proof {
            use_type_invariant(self);
            use_type_invariant(other);
        }
        if self.len != other.len {
            return Err(RowVecError::LengthMismatch { left: self.len, right: other.len });
        }
        let mut bits = bitset_clone(&self.bits);
        bitset_union_with(&mut bits, &other.bits);
        Ok(RowVec { len: self.len, bits })
    }

    /// `true` iff every `⊤` entry of `self` is also `⊤` in `other`; an error
    /// when the lengths differ.
    pub fn is_subset_of(&self, other: &RowVec) -> (r: Result<bool, RowVecError>)
        ensures
            self@.len() == other@.len() ==> r == Ok::<bool, RowVecError>(
                forall|i: int| 0 <= i < self@.len() && self@[i] ==> other@[i],
            ),
            self@.len() != other@.len() ==> r == Err::<bool, RowVecError>(
                RowVecError::LengthMismatch { left: self@.len() as usize, right: other@.len() as usize },
            ),
    {
        proof {
            use_type_invariant(self);
            use_type_invariant(other);
        }
        if self.len != other.len {
            return Err(RowVecError::LengthMismatch { left: self.len, right: other.len });
        }
        let ones = self.ones();
        proof {
            lemma_ones_of(self@);
        }
        let mut k: usize = 0;
        while k < ones.len()
            invariant
                ones@ == ones_of(self@),
                k <= ones@.len(),
                self@.len() == other@.len(),
                forall|j: int| 0 <= j < ones@.len() ==> (#[trigger] ones@[j]) < self@.len() && self@[ones@[j] as int],
                forall|i: int| 0 <= i < self@.len() && self@[i] ==> ones@.contains(i as usize),
                forall|j: int| 0 <= j < k ==> other@[#[trigger] ones@[j] as int],
            decreases ones@.len() - k,
        {
            if !bitset_contains(&other.bits, ones[k]) {
                return Ok(false);
            }
            k = k + 1;
        }
        proof {
            assert forall|i: int| 0 <= i < self@.len() && self@[i] implies other@[i] by {
                let j = choose|j: int| 0 <= j < ones@.len() && ones@[j] == i as usize;
                assert(other@[ones@[j] as int]);
            }
        }
        Ok(true)
    }

    /// The values of this row, in column order.
    pub fn to_bools(&self) -> (r: Vec<bool>)
        ensures
            r@ == self@,
    {
        proof {
            use_type_invariant(self);
        }
        let mut out: Vec<bool> = Vec::new();
        let mut i: usize = 0;
        while i < self.len
            invariant
                i <= self.len,
                self.len == self@.len(),
                out@ == self@.take(i as int),
            decreases self.len - i,
        {
            out.push(bitset_contains(&self.bits, i));
            i = i + 1;
            assert(out@ =~= self@.take(i as int));
        }
        assert(self@.take(i as int) =~= self@);
        out
    }

    /// `true` iff both rows have the same length and values.
    pub fn same(&self, other: &RowVec) -> (b: bool)
        ensures
            b == (self@ == other@),
    {
        proof {
            use_type_invariant(self);
            use_type_invariant(other);
        }
        if self.len != other.len {
            return false;
        }
        let mut i: usize = 0;
        while i < self.len
            invariant
                i <= self.len,
                self.len == self@.len(),
                other@.len() == self@.len(),
                forall|j: int| 0 <= j < i ==> self@[j] == other@[j],
            decreases self.len - i,
        {
            if bitset_contains(&self.bits, i) != bitset_contains(&other.bits, i) {
                return false;
            }
            i = i + 1;
        }
        assert(self@ =~= other@);
        true
    }

    /// An exact copy of this row.
    pub fn duplicate(&self) -> (r: RowVec)
        ensures
            r@ == self@,
    {
        proof {
            use_type_invariant(self);
        }
        RowVec { len: self.len, bits: bitset_clone(&self.bits) }
    }

    /// The text of this row (what `Display` shows): `1` for `⊤`, `0` for `⊥`.
    pub fn to_string(&self) -> (r: String)
        ensures
            r@ == row_text(self@),
    {
        proof {
            use_type_invariant(self);
        }
        let mut out = String::new();
        let mut i: usize = 0;
        while i < self.len
            invariant
                i <= self.len,
                self.len == self@.len(),
                out@ == row_text(self@.take(i as int)),
            decreases self.len - i,
        {
            let c = if bitset_contains(&self.bits, i) { '1' } else { '0' };
            push_char(&mut out, c);
            i = i + 1;
            assert(out@ =~= row_text(self@.take(i as int)));
        }
        assert(self@.take(i as int) =~= self@);
        out
    }
}

impl Clone for RowVec {
    fn clone(&self) -> (r: Self)
        ensures
            r@ == self@,
    {
        self.duplicate()
    }
}

impl PartialEq for RowVec {
    fn eq(&self, other: &Self) -> (r: bool) {
        self.same(other)
    }
}

impl vstd::std_specs::cmp::PartialEqSpecImpl for RowVec {
    open spec fn obeys_eq_spec() -> bool {
        true
    }

    open spec fn eq_spec(&self, other: &RowVec) -> bool {
        self@ == other@
    }
}

impl Eq for RowVec {}

} // verus!
