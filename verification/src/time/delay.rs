//! Half-integer delay representation for exact time arithmetic.
//!
//! A [`DelayRep`] stores a delay as a count of half time units: the value `n`
//! stands for `n / 2`. Even counts are integers, odd counts half-integers, and
//! the sentinel `u32::MAX` stands for `+∞`.

use vstd::prelude::*;

verus! {

/// The raw value reserved for `+∞`.
pub const INFINITY_HALF_UNITS: u32 = 4294967295u32;

/// The largest finite half-unit count.
pub const MAX_FINITE_HALF_UNITS: u32 = 4294967294u32;

/// A delay in half time units; `u32::MAX` is `+∞`.
///
/// Its view is the raw half-unit count.
#[derive(Debug, Clone, Copy, PartialEq, Eq, PartialOrd, Ord, Hash, Structural)]
pub struct DelayRep(u32);

impl View for DelayRep {
    type V = u32;

    closed spec fn view(&self) -> u32 {
        self.0
    }
}

/// `true` when the raw count `h` is the `+∞` sentinel.
pub open spec fn half_is_infinite(h: u32) -> bool {
    h == INFINITY_HALF_UNITS
}

/// `true` when the raw count `h` denotes a finite integer delay.
pub open spec fn half_is_integer(h: u32) -> bool {
    !half_is_infinite(h) && h % 2 == 0
}

/// `true` when the raw count `h` denotes a finite half-integer delay.
pub open spec fn half_is_half_integer(h: u32) -> bool {
    !half_is_infinite(h) && h % 2 == 1
}

/// Two delays are equal exactly when their half-unit counts are.
pub broadcast proof fn lemma_delay_view_injective(a: DelayRep, b: DelayRep)
    ensures
        (#[trigger] a@ == #[trigger] b@) <==> a == b,
{
}

impl DelayRep {
    /// The `+∞` delay.
    pub fn infinity() -> (d: DelayRep)
        ensures
            d@ == INFINITY_HALF_UNITS,
    {
        DelayRep(INFINITY_HALF_UNITS)
    }

    /// The zero delay.
    pub fn zero() -> (d: DelayRep)
        ensures
            d@ == 0,
    {
        DelayRep(0)
    }

    /// Construct from a half-integer count directly.
    pub fn from_half_units(n: u32) -> (d: DelayRep)
        ensures
            d@ == n,
    {
        DelayRep(n)
    }

    /// Construct from an exact non-negative integer value; the doubling wraps
    /// around modulo `2^32`.
    pub fn from_integer(n: u32) -> (d: DelayRep)
        ensures
            d@ == (2 * n) % 0x1_0000_0000,
    {
        let doubled = n.wrapping_mul(2);
        DelayRep(doubled)
    }

    /// Construct `n + 0.5`; the arithmetic wraps around modulo `2^32`.
    pub fn from_floor_plus_half(n: u32) -> (d: DelayRep)
        ensures
            d@ == (2 * n + 1) % 0x1_0000_0000,
    {
        let doubled = n.wrapping_mul(2);
        let h = doubled.wrapping_add(1);
        DelayRep(h)
    }

    /// Returns the raw half-unit count.
    pub fn half_units(self) -> (h: u32)
        ensures
            h == self@,
    {
        self.0
    }

    /// Returns `true` if this delay represents `+∞`.
    pub fn is_infinity(self) -> (b: bool)
        ensures
            b == half_is_infinite(self@),
    {
        self.0 == INFINITY_HALF_UNITS
    }

    /// Returns `true` if this delay is a finite integer.
    pub fn is_integer(self) -> (b: bool)
        ensures
            b == half_is_integer(self@),
    {
        !self.is_infinity() && self.0 % 2 == 0
    }

    /// Returns `true` if this delay is a finite half-integer.
    pub fn is_half_integer(self) -> (b: bool)
        ensures
            b == half_is_half_integer(self@),
    {
        !self.is_infinity() && self.0 % 2 == 1
    }

    /// Returns the floor integer value, or `None` for `+∞`.
    pub fn floor_int(self) -> (r: Option<u32>)
        ensures
            r == (if half_is_infinite(self@) { None } else { Some((self@ / 2) as u32) }),
    {
        if self.is_infinity() {
            None
        } else {
            Some(self.0 / 2)
        }
    }

    /// Returns the ceiling integer value, or `None` for `+∞`.
    pub fn ceil_int(self) -> (r: Option<u32>)
        ensures
            r == (if half_is_infinite(self@) { None } else { Some(((self@ + 1) / 2) as u32) }),
    {
        if self.is_infinity() {
            None
        } else {
            Some(self.0 / 2 + self.0 % 2)
        }
    }

    /// Returns the least integer-valued delay greater than or equal to `self`;
    /// `+∞` is kept.
    pub fn ceil(self) -> (r: DelayRep)
        ensures
            r@ == (if half_is_infinite(self@) || self@ % 2 == 0 { self@ } else { (self@ + 1) as u32 }),
    {
        if self.is_infinity() || self.is_integer() {
            self
        } else {
            DelayRep(self.0 + 1)
        }
    }

    /// `true` iff `self` is strictly smaller than `other` as half-unit counts.
    pub fn lt(self, other: DelayRep) -> (b: bool)
        ensures
            b == (self@ < other@),
    {
        self.0 < other.0
    }

    /// `true` iff both delays have the same half-unit count.
    pub fn same(self, other: DelayRep) -> (b: bool)
        ensures
            b == (self@ == other@),
    {
        self.0 == other.0
    }
}

} // verus!
