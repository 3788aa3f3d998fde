//! Guard intervals over non-negative time.
//!
//! Endpoints are integers or `+∞`, and membership is decided exactly on the
//! half-unit lattice of [`DelayRep`]: an interval covers a contiguous range of
//! half-unit counts, which is how overlap, intersection and merging are
//! computed.

use vstd::prelude::*;

use crate::error::IntervalError;
use crate::text::{decimal, decimal_string, push_char, push_str};
use crate::time::delay::{half_is_infinite, DelayRep, MAX_FINITE_HALF_UNITS};

verus! {

/// An interval endpoint.
#[derive(Debug, Clone, Copy, PartialEq, Eq, Hash, Structural)]
pub enum Endpoint {
    /// A finite integer endpoint.
    Finite(u32),
    /// Positive infinity.
    Infinity,
}

/// Guard interval with integer endpoints or `+∞`.
///
/// Its view is an [`IntervalModel`] holding the same four components.
#[derive(Debug, Clone, Copy, PartialEq, Eq, Hash, Structural)]
pub struct Interval {
    lower: Endpoint,
    lower_inclusive: bool,
    upper: Endpoint,
    upper_inclusive: bool,
}

/// The mathematical content of an [`Interval`].
pub struct IntervalModel {
    pub lower: Endpoint,
    pub lower_inclusive: bool,
    pub upper: Endpoint,
    pub upper_inclusive: bool,
}

/// The largest finite half-unit count, as an integer.
pub open spec fn max_finite() -> int {
    MAX_FINITE_HALF_UNITS as int
}

impl IntervalModel {
    /// Least covered half-unit count (`u64::MAX` when the lower end is `+∞`).
    pub open spec fn lo(self) -> int {
        match self.lower {
            Endpoint::Finite(n) => 2 * n + if self.lower_inclusive { 0int } else { 1int },
            Endpoint::Infinity => 0xffff_ffff_ffff_ffffint,
        }
    }

    /// Greatest covered half-unit count; `None` when unbounded above.
    pub open spec fn hi(self) -> Option<int> {
        match self.upper {
            Endpoint::Infinity => None,
            Endpoint::Finite(u) => Some(
                if self.upper_inclusive {
                    2 * u
                } else if u == 0 {
                    0int
                } else {
                    2 * u - 1
                },
            ),
        }
    }

    /// The greatest element of the raw half-unit range (`Some(0)`, an empty
    /// range, when the lower end is `+∞`).
    pub open spec fn raw_hi(self) -> Option<int> {
        match self.lower {
            Endpoint::Infinity => Some(0int),
            Endpoint::Finite(_) => self.hi(),
        }
    }

    /// `true` iff the half-unit count `h` lies in this interval.
    pub open spec fn has(self, h: int) -> bool {
        &&& self.lower is Finite
        &&& self.lo() <= h
        &&& match self.hi() {
            Some(m) => h <= m,
            None => true,
        }
    }

    /// The shape every successfully constructed interval has.
    pub open spec fn wf(self) -> bool {
        &&& self.lower is Finite
        &&& match self.upper {
            Endpoint::Finite(u) => {
                &&& self.lower->Finite_0 <= u
                &&& (self.lower->Finite_0 == u ==> self.lower_inclusive && self.upper_inclusive)
            },
            Endpoint::Infinity => !self.upper_inclusive,
        }
    }

    /// `true` iff the interval holds a finite representable delay.
    pub open spec fn has_witness(self) -> bool {
        &&& self.lower is Finite
        &&& self.lo() <= max_finite()
        &&& match self.hi() {
            Some(m) => self.lo() <= m,
            None => true,
        }
    }
}

/// What `from_bounds` returns for the given bounds.
pub open spec fn spec_from_bounds(
    lower_inclusive: bool,
    l: u32,
    upper_inclusive: bool,
    upper: Option<u32>,
) -> Result<IntervalModel, IntervalError> {
    match upper {
        Some(u) => if l > u {
            Err(IntervalError::LowerExceedsUpper { lower: l, upper: u })
        } else if l == u && !(lower_inclusive && upper_inclusive) {
            Err(IntervalError::Empty)
        } else {
            Ok(
                IntervalModel {
                    lower: Endpoint::Finite(l),
                    lower_inclusive,
                    upper: Endpoint::Finite(u),
                    upper_inclusive,
                },
            )
        },
        None => if upper_inclusive {
            Err(IntervalError::InclusiveInfiniteUpper)
        } else {
            Ok(
                IntervalModel {
                    lower: Endpoint::Finite(l),
                    lower_inclusive,
                    upper: Endpoint::Infinity,
                    upper_inclusive: false,
                },
            )
        },
    }
}

/// A half-unit range given by its least element and optional greatest one.
pub open spec fn range_has(min: int, max: Option<int>, h: int) -> bool {
    &&& min <= h
    &&& match max {
        Some(m) => h <= m,
        None => true,
    }
}

/// `true` when the covered ranges of `a` and `b` touch or overlap, seen
/// from the one with the smaller least element.
pub open spec fn ranges_connected(a: IntervalModel, b: IntervalModel) -> bool {
    let (l, r) = if a.lo() > b.lo() { (b, a) } else { (a, b) };
    match l.hi() {
        None => true,
        Some(m) => m + 1 >= r.lo(),
    }
}

/// An inclusive half-unit range; `max == None` extends to `+∞`.
#[derive(Debug, Clone, Copy, PartialEq, Eq)]
pub struct HalfRange {
    pub min: u64,
    pub max: Option<u64>,
}

impl HalfRange {
    pub open spec fn max_int(self) -> Option<int> {
        match self.max {
            Some(m) => Some(m as int),
            None => None,
        }
    }
}

/// `true` when a range with least element `min` and greatest element `max`
/// can be written as an interval with `u32` endpoints.
pub open spec fn range_expressible(min: int, max: Option<int>) -> bool {
    &&& 0 <= min
    &&& min / 2 <= u32::MAX
    &&& match max {
        Some(m) => (m + 1) / 2 <= u32::MAX && min <= m,
        None => true,
    }
}

impl View for Interval {
    type V = IntervalModel;

    closed spec fn view(&self) -> IntervalModel {
        IntervalModel {
            lower: self.lower,
            lower_inclusive: self.lower_inclusive,
            upper: self.upper,
            upper_inclusive: self.upper_inclusive,
        }
    }
}

/// Membership in an interval is membership in its raw half-unit range.
pub proof fn lemma_has_is_range_has(m: IntervalModel, h: int)
    ensures
        m.has(h) <==> range_has(m.lo(), m.raw_hi(), h),
{
}

/// Two intervals are equal exactly when their views are.
pub proof fn lemma_interval_view_injective(a: Interval, b: Interval)
    ensures
        (a@ == b@) <==> a == b,
{
}

/// Two well-formed intervals that cover the same half-unit counts are equal.
pub proof fn lemma_interval_extensional(a: Interval, b: Interval)
    requires
        a@.wf(),
        b@.wf(),
        forall|h: int| a@.has(h) <==> b@.has(h),
    ensures
        a == b,
{
    let am = a@;
    let bm = b@;
    assert(am.has(am.lo()) && bm.has(bm.lo()));
    assert(am.lo() == bm.lo()) by {
        if am.lo() < bm.lo() {
            assert(!bm.has(am.lo()));
        } else if am.lo() > bm.lo() {
            assert(!am.has(bm.lo()));
        }
    }
    match (am.hi(), bm.hi()) {
        (Some(x), Some(y)) => {
            assert(am.has(x) && bm.has(y));
            if x < y {
                assert(!am.has(y));
            } else if y < x {
                assert(!bm.has(x));
            }
        },
        (Some(x), None) => {
            assert(bm.has(x + 1 + am.lo()));
        },
        (None, Some(y)) => {
            assert(am.has(y + 1 + bm.lo()));
        },
        (None, None) => {},
    }
}

impl Interval {
    /// Construct a closed interval `[l, u]`.
    pub fn closed(l: u32, u: u32) -> (r: Result<Interval, IntervalError>)
        ensures
            match (r, spec_from_bounds(true, l, true, Some(u))) {
                (Ok(iv), Ok(m)) => iv@ == m,
                (Err(e), Err(f)) => e == f,
                _ => false,
            },
    {
        Self::from_bounds(true, l, true, Some(u))
    }

    /// Construct an open interval `(l, u)`.
    pub fn open(l: u32, u: u32) -> (r: Result<Interval, IntervalError>)
        ensures
            match (r, spec_from_bounds(false, l, false, Some(u))) {
                (Ok(iv), Ok(m)) => iv@ == m,
                (Err(e), Err(f)) => e == f,
                _ => false,
            },
    {
        Self::from_bounds(false, l, false, Some(u))
    }

    /// Construct a half-open interval `[l, u)`.
    pub fn left_closed_right_open(l: u32, u: u32) -> (r: Result<Interval, IntervalError>)
        ensures
            match (r, spec_from_bounds(true, l, false, Some(u))) {
                (Ok(iv), Ok(m)) => iv@ == m,
                (Err(e), Err(f)) => e == f,
                _ => false,
            },
    {
        Self::from_bounds(true, l, false, Some(u))
    }

    /// Construct a half-open interval `(l, u]`.
    pub fn left_open_right_closed(l: u32, u: u32) -> (r: Result<Interval, IntervalError>)
        ensures
            match (r, spec_from_bounds(false, l, true, Some(u))) {
                (Ok(iv), Ok(m)) => iv@ == m,
                (Err(e), Err(f)) => e == f,
                _ => false,
            },
    {
        Self::from_bounds(false, l, true, Some(u))
    }

    /// Construct an interval from explicit bound flags; `upper = None` encodes
    /// `+∞`, which must be open.
    pub fn from_bounds(lower_inclusive: bool, l: u32, upper_inclusive: bool, upper: Option<u32>) -> (r:
        Result<Interval, IntervalError>)
        ensures
            match (r, spec_from_bounds(lower_inclusive, l, upper_inclusive, upper)) {
                (Ok(iv), Ok(m)) => iv@ == m,
                (Err(e), Err(f)) => e == f,
                _ => false,
            },
            r is Ok ==> r->Ok_0@.wf(),
    {
        match upper {
            Some(u) => {
                if l > u {
                    return Err(IntervalError::LowerExceedsUpper { lower: l, upper: u });
                }
                if l == u && !(lower_inclusive && upper_inclusive) {
                    return Err(IntervalError::Empty);
                }
                Ok(
                    Interval {
                        lower: Endpoint::Finite(l),
                        lower_inclusive,
                        upper: Endpoint::Finite(u),
                        upper_inclusive,
                    },
                )
            },
            None => {
                if upper_inclusive {
                    return Err(IntervalError::InclusiveInfiniteUpper);
                }
                Ok(
                    Interval {
                        lower: Endpoint::Finite(l),
                        lower_inclusive,
                        upper: Endpoint::Infinity,
                        upper_inclusive: false,
                    },
                )
            },
        }
    }

    /// The half-unit range this interval covers.
    pub fn to_half_range(&self) -> (r: HalfRange)
        ensures
            r.min == self@.lo(),
            r.max_int() == self@.raw_hi(),
    {
        let lower: u64 = match self.lower {
            Endpoint::Finite(n) => n as u64,
            Endpoint::Infinity => {
                return HalfRange { min: 0xffff_ffff_ffff_ffffu64, max: Some(0u64) };
            },
        };
        let min: u64 = lower * 2 + if self.lower_inclusive {
            0u64
        } else {
            1u64
        };
        let max: Option<u64> = match self.upper {
            Endpoint::Infinity => None,
            Endpoint::Finite(u) => {
                let base: u64 = u as u64 * 2;
                Some(
                    if self.upper_inclusive {
                        base
                    } else if base == 0 {
                        0u64
                    } else {
                        base - 1
                    },
                )
            },
        };
        HalfRange { min, max }
    }

    /// Validate this interval, re-checking the construction invariants and
    /// that it holds a representable delay.
    pub fn validate(&self) -> (r: Result<(), IntervalError>)
        ensures
            match self@.lower {
                Endpoint::Infinity => r == Err::<(), IntervalError>(IntervalError::Empty),
                Endpoint::Finite(l) => match spec_from_bounds(
                    self@.lower_inclusive,
                    l,
                    self@.upper_inclusive,
                    match self@.upper {
                        Endpoint::Finite(u) => Some(u),
                        Endpoint::Infinity => None,
                    },
                ) {
                    Err(e) => r == Err::<(), IntervalError>(e),
                    Ok(_) => r == if self@.has_witness() {
                        Ok::<(), IntervalError>(())
                    } else {
                        Err(IntervalError::Empty)
                    },
                },
            },
            r is Ok <==> (self@.wf() && self@.has_witness()),
    {
        let lower = match self.lower {
            Endpoint::Finite(v) => v,
            Endpoint::Infinity => return Err(IntervalError::Empty),
        };
        let upper = match self.upper {
            Endpoint::Finite(v) => Some(v),
            Endpoint::Infinity => None,
        };
        match Self::from_bounds(self.lower_inclusive, lower, self.upper_inclusive, upper) {
            Err(e) => return Err(e),
            Ok(_) => {},
        }
        if self.pick_witness().is_none() {
            return Err(IntervalError::Empty);
        }
        Ok(())
    }

    /// Returns `true` iff `d` belongs to this interval; `+∞` never does.
    pub fn contains(&self, d: DelayRep) -> (b: bool)
        ensures
            b == (!half_is_infinite(d@) && self@.has(d@ as int)),
    {
        if d.is_infinity() {
            return false;
        }
        let range = self.to_half_range();
        let value: u64 = d.half_units() as u64;
        if value < range.min {
            return false;
        }
        match range.max {
            Some(max) => value <= max,
            None => true,
        }
    }

    /// The overlap of the two half-unit ranges, or `None` when it is empty.
    pub fn overlap_range(&self, other: &Interval) -> (r: Option<HalfRange>)
        ensures
            match r {
                Some(o) => {
                    &&& range_has(o.min as int, o.max_int(), o.min as int)
                    &&& o.min == if self@.lo() > other@.lo() {
                        self@.lo()
                    } else {
                        other@.lo()
                    }
                    &&& forall|h: int|
                        range_has(o.min as int, o.max_int(), h) <==> (range_has(
                            self@.lo(),
                            self@.raw_hi(),
                            h,
                        ) && range_has(other@.lo(), other@.raw_hi(), h))
                    &&& (o.max is Some <==> (self@.raw_hi() is Some
                        || other@.raw_hi() is Some))
                },
                None => forall|h: int|
                    !(range_has(self@.lo(), self@.raw_hi(), h) && range_has(
                        other@.lo(),
                        other@.raw_hi(),
                        h,
                    )),
            },
    {
        let a = self.to_half_range();
        let b = other.to_half_range();
        let min = if a.min > b.min {
            a.min
        } else {
            b.min
        };
        let max = match (a.max, b.max) {
            (Some(x), Some(y)) => Some(
                if x < y {
                    x
                } else {
                    y
                },
            ),
            (Some(x), None) => Some(x),
            (None, Some(x)) => Some(x),
            (None, None) => None,
        };
        match max {
            Some(m) => {
                if min > m {
                    return None;
                }
            },
            None => {},
        }
        Some(HalfRange { min, max })
    }

    /// Build the interval covering exactly the half-unit range `range`, or
    /// `None` when no interval with `u32` endpoints covers it.
    pub fn from_half_range(range: HalfRange) -> (r: Option<Interval>)
        ensures
            r is Some <==> range_expressible(range.min as int, range.max_int()),
            r is Some ==> {
                &&& r->Some_0@.wf()
                &&& r->Some_0@.lo() == range.min
                &&& r->Some_0@.hi() == range.max_int()
            },
    {
        let (lower_inclusive, lower_u64) = if range.min % 2 == 0 {
            (true, range.min / 2)
        } else {
            (false, (range.min - 1) / 2)
        };
        if lower_u64 > 0xffff_ffffu64 {
            return None;
        }
        let lower = lower_u64 as u32;
        match range.max {
            None => match Interval::from_bounds(lower_inclusive, lower, false, None) {
                Ok(iv) => Some(iv),
                Err(_) => None,
            },
            Some(max) => {
                let (upper_inclusive, upper_u64) = if max % 2 == 0 {
                    (true, max / 2)
                } else {
                    (false, max / 2 + 1)
                };
                if upper_u64 > 0xffff_ffffu64 {
                    return None;
                }
                let upper = upper_u64 as u32;
                match Interval::from_bounds(lower_inclusive, lower, upper_inclusive, Some(upper)) {
                    Ok(iv) => Some(iv),
                    Err(_) => None,
                }
            },
        }
    }

    /// Compute the overlap between two intervals, restricted to representable
    /// finite delays; `None` when it holds none.
    pub fn intersection(&self, other: &Interval) -> (r: Option<Interval>)
        ensures
            r is Some <==> exists|h: int|
                0 <= h <= max_finite() && #[trigger] self@.has(h) && other@.has(h),
            r is Some ==> r->Some_0@.wf(),
            r is Some ==> forall|h: int|
                #[trigger] r->Some_0@.has(h) <==> (0 <= h <= max_finite() && self@.has(h) && other@.has(
                    h,
                )),
    {
        let overlap = match self.overlap_range(other) {
            Some(o) => o,
            None => {
                assert forall|h: int|
                    0 <= h <= max_finite() && #[trigger] self@.has(h) implies !other@.has(h) by {
                    lemma_has_is_range_has(self@, h);
                    lemma_has_is_range_has(other@, h);
                    assert(!(range_has(self@.lo(), self@.raw_hi(), h) && range_has(
                        other@.lo(),
                        other@.raw_hi(),
                        h,
                    )));
                }
                return None;
            },
        };
        let min = overlap.min;
        if min > MAX_FINITE_HALF_UNITS as u64 {
            assert forall|h: int|
                0 <= h <= max_finite() && #[trigger] self@.has(h) implies !other@.has(h) by {}
            return None;
        }
        let capped_max: u64 = match overlap.max {
            Some(max) => if max < MAX_FINITE_HALF_UNITS as u64 {
                max
            } else {
                MAX_FINITE_HALF_UNITS as u64
            },
            None => MAX_FINITE_HALF_UNITS as u64,
        };
        let effective = HalfRange { min, max: Some(capped_max) };
        assert(range_has(overlap.min as int, overlap.max_int(), min as int));
        let r = Self::from_half_range(effective);
        proof {
            assert(self@.has(min as int) && other@.has(min as int));
            if let Some(iv) = r {
                assert forall|h: int|
                    #[trigger] iv@.has(h) <==> (0 <= h <= max_finite() && self@.has(h) && other@.has(
                        h,
                    )) by {
                    lemma_has_is_range_has(self@, h);
                    lemma_has_is_range_has(other@, h);
                    lemma_has_is_range_has(iv@, h);
                    assert(iv@.raw_hi() == Some(capped_max as int));
                    assert(iv@.has(h) <==> (min as int <= h && h <= capped_max as int));
                    if 0 <= h <= max_finite() && self@.has(h) && other@.has(h) {
                        assert(range_has(
                            self@.lo(),
                            self@.raw_hi(),
                            h,
                        ));
                        assert(range_has(other@.lo(), other@.raw_hi(), h));
                    }
                    if iv@.has(h) {
                        assert(range_has(overlap.min as int, overlap.max_int(), h));
                    }
                }
            }
        }
        r
    }

    /// Returns `true` iff this interval intersects `other` at a representable
    /// finite delay.
    pub fn intersects(&self, other: &Interval) -> (b: bool)
        ensures
            b <==> exists|h: int| 0 <= h <= max_finite() && #[trigger] self@.has(h) && other@.has(h),
    {
        self.intersection(other).is_some()
    }

    /// Returns `true` iff this interval is disjoint from `other`.
    pub fn is_disjoint(&self, other: &Interval) -> (b: bool)
        ensures
            b <==> !exists|h: int| 0 <= h <= max_finite() && #[trigger] self@.has(h) && other@.has(h),
    {
        !self.intersects(other)
    }

    /// Pick the least representable finite delay in this interval.
    pub fn pick_witness(&self) -> (r: Option<DelayRep>)
        ensures
            r is Some <==> self@.has_witness(),
            r is Some ==> r->Some_0@ == self@.lo() && self@.has(self@.lo()),
    {
        let range = self.to_half_range();
        if range.min > MAX_FINITE_HALF_UNITS as u64 {
            return None;
        }
        let max: u64 = match range.max {
            Some(upper) => if upper < MAX_FINITE_HALF_UNITS as u64 {
                upper
            } else {
                MAX_FINITE_HALF_UNITS as u64
            },
            None => MAX_FINITE_HALF_UNITS as u64,
        };
        if range.min > max {
            return None;
        }
        Some(DelayRep::from_half_units(range.min as u32))
    }

    /// Try to merge two overlapping or touching intervals into one; `None`
    /// when their union is not a single interval.
    pub fn try_merge_adjacent(&self, other: &Interval) -> (r: Option<Interval>)
        requires
            self@.wf(),
            other@.wf(),
        ensures
            r is Some <==> ranges_connected(self@, other@),
            r is Some ==> r->Some_0@.wf(),
            r is Some ==> forall|h: int|
                #[trigger] r->Some_0@.has(h) <==> (self@.has(h) || other@.has(h)),
    {
        let mut left = self.to_half_range();
        let mut right = other.to_half_range();
        let ghost (lm, rm) = if self@.lo() > other@.lo() {
            (other@, self@)
        } else {
            (self@, other@)
        };
        if left.min > right.min {
            let tmp = left;
            left = right;
            right = tmp;
        }
        let connected = match left.max {
            None => true,
            Some(left_max) => (if left_max == 0xffff_ffff_ffff_ffffu64 {
                left_max
            } else {
                left_max + 1
            }) >= right.min,
        };
        if !connected {
            return None;
        }
        let merged = HalfRange {
            min: left.min,
            max: match (left.max, right.max) {
                (Some(a), Some(b)) => Some(
                    if a < b {
                        b
                    } else {
                        a
                    },
                ),
                _ => None,
            },
        };
        let r = Self::from_half_range(merged);
        proof {
            if let Some(iv) = r {
                assert forall|h: int| #[trigger] iv@.has(h) <==> (self@.has(h) || other@.has(h)) by {
                    if iv@.has(h) && !lm.has(h) {
                        assert(rm.has(h));
                    }
                }
            }
        }
        r
    }

    /// Ordering key based on the covered half-unit range; unbounded intervals
    /// sort after bounded ones with the same least element.
    pub fn sort_key(&self) -> (k: (u64, u64))
        ensures
            k.0 == self@.lo(),
            k.1 == match self@.lower {
                Endpoint::Infinity => 0int,
                Endpoint::Finite(_) => match self@.hi() {
                    Some(m) => m,
                    None => 0xffff_ffff_ffff_ffffint,
                },
            },
    {
        let range = self.to_half_range();
        let hi: u64 = match range.max {
            Some(m) => m,
            None => 0xffff_ffff_ffff_ffffu64,
        };
        (range.min, hi)
    }

    /// The representable half-unit range covered by this interval, as
    /// inclusive `u32` counts; `None` for the end means `+∞`.
    pub fn representable_half_range(&self) -> (r: Option<(u32, Option<u32>)>)
        ensures
            r is Some <==> self@.has_witness(),
            r is Some ==> {
                let (start, end) = r->Some_0;
                &&& start == self@.lo()
                &&& match (end, self@.hi()) {
                    (Some(e), Some(m)) => e == if m < max_finite() {
                        m
                    } else {
                        max_finite()
                    },
                    (None, None) => true,
                    _ => false,
                }
            },
    {
        let range = self.to_half_range();
        if range.min > MAX_FINITE_HALF_UNITS as u64 {
            return None;
        }
        let start = range.min as u32;
        let end = match range.max {
            Some(max) => {
                let capped: u64 = if max < MAX_FINITE_HALF_UNITS as u64 {
                    max
                } else {
                    MAX_FINITE_HALF_UNITS as u64
                };
                if range.min > capped {
                    return None;
                }
                Some(capped as u32)
            },
            None => None,
        };
        Some((start, end))
    }

    /// Construct an interval from an inclusive representable half-unit range;
    /// `end = None` extends to `+∞`.
    pub fn from_representable_half_range(start: u32, end: Option<u32>) -> (r: Option<Interval>)
        ensures
            r is Some <==> match end {
                Some(e) => start <= e,
                None => true,
            },
            r is Some ==> {
                &&& r->Some_0@.wf()
                &&& r->Some_0@.lo() == start
                &&& r->Some_0@.hi() == match end {
                    Some(e) => Some(e as int),
                    None => None::<int>,
                }
            },
    {
        let max: Option<u64> = match end {
            Some(e) => Some(e as u64),
            None => None,
        };
        Self::from_half_range(HalfRange { min: start as u64, max })
    }

    /// Finite integer lower endpoint (`0` if the lower end were `+∞`).
    pub fn lower_bound(&self) -> (v: u32)
        ensures
            v == match self@.lower {
                Endpoint::Finite(n) => n,
                Endpoint::Infinity => 0,
            },
    {
        match self.lower {
            Endpoint::Finite(v) => v,
            Endpoint::Infinity => 0,
        }
    }

    /// Finite integer upper endpoint, `None` for `+∞`.
    pub fn upper_bound(&self) -> (v: Option<u32>)
        ensures
            v == match self@.upper {
                Endpoint::Finite(n) => Some(n),
                Endpoint::Infinity => None::<u32>,
            },
    {
        match self.upper {
            Endpoint::Finite(v) => Some(v),
            Endpoint::Infinity => None,
        }
    }

    /// Whether the lower endpoint is included.
    pub fn is_lower_inclusive(&self) -> (b: bool)
        ensures
            b == self@.lower_inclusive,
    {
        self.lower_inclusive
    }

    /// Whether the upper endpoint is included.
    pub fn is_upper_inclusive(&self) -> (b: bool)
        ensures
            b == self@.upper_inclusive,
    {
        self.upper_inclusive
    }
}

/// The text of an endpoint: its decimal digits, or `∞`.
pub open spec fn endpoint_text(e: Endpoint) -> Seq<char> {
    match e {
        Endpoint::Finite(n) => decimal(n as nat),
        Endpoint::Infinity => seq!['∞'],
    }
}

/// The text of an interval, such as `[0,1)` or `(2,∞)`.
pub open spec fn interval_text(m: IntervalModel) -> Seq<char> {
    seq![if m.lower_inclusive { '[' } else { '(' }] + endpoint_text(m.lower) + seq![','] + endpoint_text(
        m.upper,
    ) + seq![if m.upper_inclusive { ']' } else { ')' }]
}

impl Endpoint {
    /// The text of this endpoint (what `Display` shows).
    pub fn to_string(&self) -> (r: String)
        ensures
            r@ == endpoint_text(*self),
    {
        match self {
            Endpoint::Finite(n) => decimal_string(*n as u64),
            Endpoint::Infinity => {
                let mut s = String::new();
                push_char(&mut s, '∞');
                assert(s@ =~= endpoint_text(*self));
                s
            },
        }
    }
}

impl Interval {
    /// The text of this interval (what `Display` shows).
    pub fn to_string(&self) -> (r: String)
        ensures
            r@ == interval_text(self@),
    {
        let mut s = String::new();
        push_char(&mut s, if self.lower_inclusive { '[' } else { '(' });
        let lo = self.lower.to_string();
        push_str(&mut s, lo.as_str());
        push_char(&mut s, ',');
        let hi = self.upper.to_string();
        push_str(&mut s, hi.as_str());
        push_char(&mut s, if self.upper_inclusive { ']' } else { ')' });
        assert(s@ =~= interval_text(self@));
        s
    }
}

/// `true` iff `c` is a Unicode white-space character (what `trim`
/// removes).
pub open spec fn is_white_space(c: char) -> bool {
    ||| '\t' <= c <= '\r'
    ||| c == ' '
    ||| c == '\u{85}'
    ||| c == '\u{a0}'
    ||| c == '\u{1680}'
    ||| '\u{2000}' <= c <= '\u{200a}'
    ||| c == '\u{2028}'
    ||| c == '\u{2029}'
    ||| c == '\u{202f}'
    ||| c == '\u{205f}'
    ||| c == '\u{3000}'
}

/// `s` without its leading white space.
pub open spec fn trim_start(s: Seq<char>) -> Seq<char>
    decreases s.len(),
{
    if s.len() > 0 && is_white_space(s[0]) {
        trim_start(s.drop_first())
    } else {
        s
    }
}

/// `s` without its trailing white space.
pub open spec fn trim_end(s: Seq<char>) -> Seq<char>
    decreases s.len(),
{
    if s.len() > 0 && is_white_space(s.last()) {
        trim_end(s.drop_last())
    } else {
        s
    }
}

/// `s` without leading and trailing white space.
pub open spec fn trimmed(s: Seq<char>) -> Seq<char> {
    trim_end(trim_start(s))
}

/// The value of a sequence of decimal digits.
pub open spec fn digits_value(s: Seq<char>) -> int
    decreases s.len(),
{
    if s.len() == 0 {
        0
    } else {
        10 * digits_value(s.drop_last()) + (s.last() as int - '0' as int)
    }
}

/// `true` iff every character of `s` is an ASCII digit.
pub open spec fn all_digits(s: Seq<char>) -> bool {
    forall|i: int| 0 <= i < s.len() ==> '0' <= #[trigger] s[i] <= '9'
}

/// `s` without one leading `+`.
pub open spec fn unsigned_part(s: Seq<char>) -> Seq<char> {
    if s.len() > 0 && s[0] == '+' {
        s.drop_first()
    } else {
        s
    }
}

/// The value of a non-empty digit string that fits a `u32`.
pub open spec fn parsed_digits(d: Seq<char>) -> Option<u32> {
    if d.len() > 0 && all_digits(d) && digits_value(d) <= u32::MAX {
        Some(digits_value(d) as u32)
    } else {
        None
    }
}

/// What parsing `s` as a `u32` gives: an optional `+`, then at least one
/// digit, with a value that fits.
pub open spec fn parsed_u32(s: Seq<char>) -> Option<u32> {
    parsed_digits(unsigned_part(s))
}

/// The position of the first comma of `s`, if any.
#[verifier::opaque]
pub open spec fn first_comma(s: Seq<char>) -> Option<int> {
    if exists|i: int| 0 <= i < s.len() && s[i] == ',' {
        Some(choose|i: int| 0 <= i < s.len() && s[i] == ',' && forall|j: int| 0 <= j < i ==> s[j] != ',')
    } else {
        None
    }
}

/// The bounds written in an interval text such as `[0,1)`, `(2,+)` or
/// `[3,∞)`, white space around the text and around each bound allowed;
/// `None` when the text is not of that form.
pub open spec fn parsed_bounds(input: Seq<char>) -> Option<(bool, u32, bool, Option<u32>)> {
    bounds_of(trimmed(input))
}

/// The bounds written in `t`, which has no surrounding white space.
pub open spec fn bounds_of(t: Seq<char>) -> Option<(bool, u32, bool, Option<u32>)> {
    if t.len() < 2 || !(t[0] == '[' || t[0] == '(') || !(t.last() == ']' || t.last() == ')') {
        None
    } else {
        match body_bounds(t.subrange(1, t.len() - 1)) {
            None => None,
            Some((l, u)) => Some((t[0] == '[', l, t.last() == ']', u)),
        }
    }
}

/// The bound `upper` stands for: `None` for `+` or `∞`, else a number.
pub open spec fn upper_bound_of(upper: Seq<char>) -> Option<Option<u32>> {
    if upper == seq!['+'] || upper == seq!['∞'] {
        Some(None)
    } else {
        match parsed_u32(upper) {
            None => None,
            Some(u) => Some(Some(u)),
        }
    }
}

/// The two bounds of the text between the brackets.
pub open spec fn body_bounds(body: Seq<char>) -> Option<(u32, Option<u32>)> {
    match first_comma(body) {
        None => None,
        Some(k) => match (
            parsed_u32(trimmed(body.subrange(0, k))),
            upper_bound_of(trimmed(body.subrange(k + 1, body.len() as int))),
        ) {
            (Some(l), Some(u)) => Some((l, u)),
            _ => None,
        },
    }
}

/// `true` iff `c` is white space.
fn white_space(c: char) -> (b: bool)
    ensures
        b == is_white_space(c),
{
    ('\t' <= c && c <= '\r') || c == ' ' || c == '\u{85}' || c == '\u{a0}' || c == '\u{1680}' || ('\u{2000}'
        <= c && c <= '\u{200a}') || c == '\u{2028}' || c == '\u{2029}' || c == '\u{202f}' || c == '\u{205f}'
        || c == '\u{3000}'
}

/// The characters of `s`.
fn chars_of(s: &str) -> (r: Vec<char>)
    ensures
        r@ == s@,
{
    let n = s.unicode_len();
    let mut r: Vec<char> = Vec::new();
    let mut i: usize = 0;
    while i < n
        invariant
            n == s@.len(),
            i <= n,
            r@ == s@.take(i as int),
        decreases n - i,
    {
        r.push(s.get_char(i));
        assert(s@.take(i + 1) =~= s@.take(i as int).push(s@[i as int]));
        i = i + 1;
    }
    assert(s@.take(n as int) =~= s@);
    r
}

proof fn lemma_trim_start_skip(s: Seq<char>, i: int)
    requires
        0 <= i <= s.len(),
        forall|j: int| 0 <= j < i ==> is_white_space(#[trigger] s[j]),
    ensures
        trim_start(s) == trim_start(s.skip(i)),
    decreases i,
{
    if i > 0 {
        assert(s.drop_first().skip(i - 1) =~= s.skip(i));
        lemma_trim_start_skip(s.drop_first(), i - 1);
    } else {
        assert(s.skip(0) =~= s);
    }
}

proof fn lemma_trim_end_take(s: Seq<char>, i: int)
    requires
        0 <= i <= s.len(),
        forall|j: int| i <= j < s.len() ==> is_white_space(#[trigger] s[j]),
    ensures
        trim_end(s) == trim_end(s.take(i)),
    decreases s.len() - i,
{
    if i < s.len() {
        assert(s.drop_last().take(i) =~= s.take(i));
        lemma_trim_end_take(s.drop_last(), i);
    } else {
        assert(s.take(i) =~= s);
    }
}

/// The bounds `(from, to)` of `s[lo..hi]` without surrounding white space.
fn trim_range(s: &Vec<char>, lo: usize, hi: usize) -> (r: (usize, usize))
    requires
        lo <= hi <= s@.len(),
    ensures
        lo <= r.0 <= r.1 <= hi,
        s@.subrange(r.0 as int, r.1 as int) == trimmed(s@.subrange(lo as int, hi as int)),
{
    let ghost w = s@.subrange(lo as int, hi as int);
    let mut a = lo;
    while a < hi && white_space(s[a])
        invariant
            lo <= a <= hi <= s@.len(),
            w == s@.subrange(lo as int, hi as int),
            forall|j: int| lo <= j < a ==> is_white_space(#[trigger] s@[j]),
        decreases hi - a,
    {
        a = a + 1;
    }
    proof {
        assert forall|j: int| 0 <= j < a - lo implies is_white_space(#[trigger] w[j]) by {
            assert(w[j] == s@[lo + j]);
        }
        lemma_trim_start_skip(w, a - lo);
        assert(w.skip(a - lo) =~= s@.subrange(a as int, hi as int));
        let v = s@.subrange(a as int, hi as int);
        if a < hi {
            assert(v[0] == s@[a as int]);
        }
        assert(trim_start(v) == v);
    }
    let mut b = hi;
    while b > a && white_space(s[b - 1])
        invariant
            lo <= a <= b <= hi <= s@.len(),
            forall|j: int| b <= j < hi ==> is_white_space(#[trigger] s@[j]),
        decreases b - a,
    {
        b = b - 1;
    }
    proof {
        let v = s@.subrange(a as int, hi as int);
        assert forall|j: int| b - a <= j < v.len() implies is_white_space(#[trigger] v[j]) by {
            assert(v[j] == s@[a + j]);
        }
        lemma_trim_end_take(v, b - a);
        assert(v.take(b - a) =~= s@.subrange(a as int, b as int));
        let u = s@.subrange(a as int, b as int);
        if a < b {
            assert(u.last() == s@[b - 1]);
        }
        assert(trim_end(u) == u);
    }
    (a, b)
}

proof fn lemma_digits_value_push(s: Seq<char>, c: char)
    ensures
        digits_value(s.push(c)) == 10 * digits_value(s) + (c as int - '0' as int),
{
    assert(s.push(c).drop_last() =~= s);
}

proof fn lemma_digits_value_nonneg(s: Seq<char>)
    requires
        all_digits(s),
    ensures
        digits_value(s) >= 0,
    decreases s.len(),
{
    if s.len() > 0 {
        assert(all_digits(s.drop_last())) by {
            assert forall|i: int| 0 <= i < s.drop_last().len() implies '0' <= #[trigger] s.drop_last()[i] <= '9' by {
                assert(s.drop_last()[i] == s[i]);
            }
        }
        lemma_digits_value_nonneg(s.drop_last());
    }
}

/// `s[lo..hi]` parsed as a `u32`.
fn parse_u32_range(s: &Vec<char>, lo: usize, hi: usize) -> (r: Option<u32>)
    requires
        lo <= hi <= s@.len(),
    ensures
        r == parsed_u32(s@.subrange(lo as int, hi as int)),
{
    let ghost w = s@.subrange(lo as int, hi as int);
    if lo < hi && s[lo] == '+' {
        assert(w[0] == '+');
        assert(w.drop_first() =~= s@.subrange(lo + 1, hi as int));
        parse_digits_range(s, lo + 1, hi)
    } else {
        assert(w =~= unsigned_part(w));
        parse_digits_range(s, lo, hi)
    }
}

/// `s[start..hi]` parsed as a string of decimal digits.
fn parse_digits_range(s: &Vec<char>, start: usize, hi: usize) -> (r: Option<u32>)
    requires
        start <= hi <= s@.len(),
    ensures
        r == parsed_digits(s@.subrange(start as int, hi as int)),
{
    let ghost d = s@.subrange(start as int, hi as int);
    if start >= hi {
        assert(d.len() == 0);
        return None;
    }
    let mut v: u64 = 0;
    let mut i = start;
    assert(s@.subrange(start as int, start as int) =~= Seq::<char>::empty());
    while i < hi
        invariant
            start <= i <= hi <= s@.len(),
            d == s@.subrange(start as int, hi as int),
            all_digits(s@.subrange(start as int, i as int)),
            v == digits_value(s@.subrange(start as int, i as int)),
            v <= u32::MAX,
        decreases hi - i,
    {
        let c = s[i];
        if !('0' <= c && c <= '9') {
            proof {
                assert(d[i - start] == c);
                assert(!all_digits(d));
            }
            return None;
        }
        let digit = (c as u32 - '0' as u32) as u64;
        proof {
            let p = s@.subrange(start as int, i as int);
            assert(s@.subrange(start as int, i + 1) =~= p.push(c));
            lemma_digits_value_push(p, c);
            assert(all_digits(p.push(c))) by {
                assert forall|j: int| 0 <= j < p.push(c).len() implies '0' <= #[trigger] p.push(c)[j] <= '9' by {
                    if j < p.len() {
                        assert(p.push(c)[j] == p[j]);
                    }
                }
            }
        }
        v = v * 10 + digit;
        if v > 0xffff_ffffu64 {
            proof {
                let q = s@.subrange(start as int, i + 1);
                assert(d.take(q.len() as int) =~= q);
                lemma_digits_prefix_bound(d, q.len() as int);
            }
            return None;
        }
        i = i + 1;
    }
    assert(s@.subrange(start as int, i as int) =~= d);
    Some(v as u32)
}

/// A digit string is at least as large as any of its prefixes.
proof fn lemma_digits_prefix_bound(d: Seq<char>, k: int)
    requires
        0 <= k <= d.len(),
        all_digits(d.take(k)),
    ensures
        all_digits(d) ==> digits_value(d) >= digits_value(d.take(k)),
    decreases d.len() - k,
{
    if k == d.len() {
        assert(d.take(k) =~= d);
    }
    if all_digits(d) && k < d.len() {
        let t = d.take(k + 1);
        assert(t.drop_last() =~= d.take(k));
        assert(all_digits(t)) by {
            assert forall|j: int| 0 <= j < t.len() implies '0' <= #[trigger] t[j] <= '9' by {
                assert(t[j] == d[j]);
            }
        }
        lemma_digits_value_nonneg(d.take(k));
        lemma_digits_prefix_bound(d, k + 1);
    }
}

/// The position of the first comma of `s[lo..hi]`, relative to `lo`.
fn find_comma(s: &Vec<char>, lo: usize, hi: usize) -> (r: Option<usize>)
    requires
        lo <= hi <= s@.len(),
    ensures
        match (r, first_comma(s@.subrange(lo as int, hi as int))) {
            (Some(k), Some(j)) => k as int == j,
            (None, None) => true,
            _ => false,
        },
        r matches Some(k) ==> lo + k < hi,
{
    reveal(first_comma);
    let ghost w = s@.subrange(lo as int, hi as int);
    let mut i = lo;
    while i < hi
        invariant
            lo <= i <= hi <= s@.len(),
            w == s@.subrange(lo as int, hi as int),
            forall|j: int| 0 <= j < i - lo ==> w[j] != ',',
        decreases hi - i,
    {
        if s[i] == ',' {
            proof {
                reveal(first_comma);
                let k = (i - lo) as int;
                assert(w[k] == ',');
                assert(0 <= k < w.len() && w[k] == ',' && forall|j: int| 0 <= j < k ==> w[j] != ',');
                let c = choose|c: int| 0 <= c < w.len() && w[c] == ',' && forall|j: int| 0 <= j < c ==> w[j] != ',';
                if c < k {
                } else if c > k {
                    assert(w[k] != ',');
                }
            }
            return Some(i - lo);
        }
        proof {
            assert(w[i - lo] == s@[i as int]);
        }
        i = i + 1;
    }
    proof {
        reveal(first_comma);
    }
    None
}

/// The characters `s[a..b]` as a string.
fn string_of_range(s: &Vec<char>, a: usize, b: usize) -> (r: String)
    requires
        a <= b <= s@.len(),
    ensures
        r@ == s@.subrange(a as int, b as int),
{
    let mut text = String::new();
    let mut i = a;
    while i < b
        invariant
            a <= i <= b <= s@.len(),
            text@ == s@.subrange(a as int, i as int),
        decreases b - i,
    {
        crate::text::push_char(&mut text, s[i]);
        assert(s@.subrange(a as int, i + 1) =~= s@.subrange(a as int, i as int).push(s@[i as int]));
        i = i + 1;
    }
    text
}

impl Interval {
    /// Parse an interval text such as `[0,1)`, `(2,+)` or `[3,∞)`; white
    /// space around the text and around each bound is ignored. Malformed
    /// text gives `InvalidSyntax` with the trimmed text; well-formed text
    /// gives what `from_bounds` gives for its bounds.
    #[verifier::rlimit(60)]
    pub fn parse(input: &str) -> (r: Result<Interval, IntervalError>)
        ensures
            match parsed_bounds(input@) {
                None => r matches Err(IntervalError::InvalidSyntax(t)) && t@ == trimmed(input@),
                Some((li, l, ui, u)) => match (r, spec_from_bounds(li, l, ui, u)) {
                    (Ok(iv), Ok(m)) => iv@ == m,
                    (Err(e), Err(f)) => e == f,
                    _ => false,
                },
            },
    {
        let s = chars_of(input);
        let (a, b) = trim_range(&s, 0, s.len());
        assert(s@.subrange(0, s@.len() as int) =~= input@);
        let ghost t = trimmed(input@);
        let text = string_of_range(&s, a, b);
        if b - a < 2 {
            return Err(IntervalError::InvalidSyntax(text));
        }
        let first = s[a];
        let last = s[b - 1];
        proof {
            assert(t[0] == first);
            assert(t.last() == last);
        }
        if !(first == '[' || first == '(') || !(last == ']' || last == ')') {
            return Err(IntervalError::InvalidSyntax(text));
        }
        let ghost body = t.subrange(1, t.len() - 1);
        assert(body =~= s@.subrange(a + 1, b - 1));
        match parse_body(&s, a + 1, b - 1) {
            None => Err(IntervalError::InvalidSyntax(text)),
            Some((lower, upper)) => Interval::from_bounds(first == '[', lower, last == ']', upper),
        }
    }
}

/// The upper bound written in `s[lo..hi]`, white space around it allowed.
fn parse_upper(s: &Vec<char>, lo: usize, hi: usize) -> (r: Option<Option<u32>>)
    requires
        lo <= hi <= s@.len(),
    ensures
        r == upper_bound_of(trimmed(s@.subrange(lo as int, hi as int))),
{
    let (u0, u1) = trim_range(s, lo, hi);
    let ghost uv = s@.subrange(u0 as int, u1 as int);
    let is_inf = u1 - u0 == 1 && (s[u0] == '+' || s[u0] == '∞');
    proof {
        if u1 == u0 + 1 {
            assert(uv =~= seq![s@[u0 as int]]);
        }
        if uv == seq!['+'] || uv == seq!['∞'] {
            assert(uv.len() == 1 && uv[0] == s@[u0 as int]);
        }
    }
    if is_inf {
        Some(None)
    } else {
        match parse_u32_range(s, u0, u1) {
            Some(u) => Some(Some(u)),
            None => None,
        }
    }
}

/// The two bounds written between the brackets, `s[lo..hi]`.
fn parse_body(s: &Vec<char>, lo: usize, hi: usize) -> (r: Option<(u32, Option<u32>)>)
    requires
        lo <= hi <= s@.len(),
    ensures
        r == body_bounds(s@.subrange(lo as int, hi as int)),
{
    let ghost body = s@.subrange(lo as int, hi as int);
    let k = match find_comma(s, lo, hi) {
        Some(k) => k,
        None => {
            return None;
        },
    };
    let comma = lo + k;
    let (l0, l1) = trim_range(s, lo, comma);
    proof {
        assert(body.subrange(0, k as int) =~= s@.subrange(lo as int, comma as int));
        assert(body.subrange(k + 1, body.len() as int) =~= s@.subrange(comma + 1, hi as int));
    }
    let lower = parse_u32_range(s, l0, l1);
    let upper = parse_upper(s, comma + 1, hi);
    match (lower, upper) {
        (Some(l), Some(u)) => Some((l, u)),
        _ => None,
    }
}

impl std::str::FromStr for Interval {
    type Err = IntervalError;

    fn from_str(input: &str) -> (r: Result<Interval, IntervalError>)
        ensures
            match parsed_bounds(input@) {
                None => r matches Err(IntervalError::InvalidSyntax(t)) && t@ == trimmed(input@),
                Some((li, l, ui, u)) => match (r, spec_from_bounds(li, l, ui, u)) {
                    (Ok(iv), Ok(m)) => iv@ == m,
                    (Err(e), Err(f)) => e == f,
                    _ => false,
                },
            },
    {
        Interval::parse(input)
    }
}

} // verus!
