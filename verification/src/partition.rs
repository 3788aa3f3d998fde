//! Guard-partition construction from observed delays.
//!
//! From a finite, strictly increasing delay sequence this builds one interval
//! per delay. Interval `i` covers exactly the half-unit counts from just after
//! delay `i - 1` up to delay `i` (the first starts at `0`, the last extends to
//! `+∞`), so together they partition the non-negative time line and each one
//! holds its own delay.

use vstd::prelude::*;

use crate::time::delay::{half_is_infinite, DelayRep};
use crate::time::interval::{spec_from_bounds, Interval, IntervalModel};

verus! {

/// Errors returned by [`infer_guard_intervals_from_delays`].
#[derive(Debug, Clone, PartialEq, Eq)]
#[non_exhaustive]
pub enum PartitionError {
    /// Empty delay list.
    EmptyInput,
    /// Delay `+∞` is not allowed in partition input.
    InfiniteDelay {
        /// Index of the offending delay.
        index: usize,
    },
    /// Delays are not strictly increasing.
    NotStrictlyIncreasing {
        /// Index of the right element in the violating pair.
        index: usize,
        /// Previous delay.
        prev: DelayRep,
        /// Next delay.
        next: DelayRep,
    },
    /// Same-floor observations violate the allowed integer-then-half-integer
    /// pattern.
    NotFloorDistinct {
        /// Duplicated floor value.
        floor: u32,
        /// First index where this floor appears.
        first_index: usize,
        /// Second index where this floor appears.
        second_index: usize,
    },
    /// One step of the construction produced an invalid interval.
    InvalidInterval {
        /// Index of the interval in the output.
        index: usize,
        /// Human-readable invalidity reason.
        details: String,
    },
}

/// `true` iff every delay in `d` is finite.
pub open spec fn all_finite(d: Seq<DelayRep>) -> bool {
    forall|i: int| 0 <= i < d.len() ==> !half_is_infinite(#[trigger] d[i]@)
}

/// `true` iff `d` is strictly increasing.
pub open spec fn strictly_increasing(d: Seq<DelayRep>) -> bool {
    forall|i: int| 0 < i < d.len() ==> d[i - 1]@ < #[trigger] d[i]@
}

/// The inputs the partition accepts.
pub open spec fn valid_delays(d: Seq<DelayRep>) -> bool {
    &&& d.len() > 0
    &&& all_finite(d)
    &&& strictly_increasing(d)
}

/// The least half-unit count covered by partition interval `i`.
pub open spec fn cell_lo(d: Seq<DelayRep>, i: int) -> int {
    if i == 0 {
        0
    } else {
        d[i - 1]@ + 1
    }
}

/// The greatest half-unit count covered by partition interval `i`.
pub open spec fn cell_hi(d: Seq<DelayRep>, i: int) -> Option<int> {
    if i == d.len() - 1 {
        None
    } else {
        Some(d[i]@ as int)
    }
}

/// `true` iff the intervals cover consecutive half-unit ranges from `0` to
/// `+∞` without gaps or overlaps.
pub open spec fn consecutive_cells(v: Seq<IntervalModel>) -> bool {
    &&& v.len() > 0
    &&& v[0].lo() == 0
    &&& forall|i: int| 0 <= i < v.len() - 1 ==> #[trigger] v[i].hi() == Some(v[i + 1].lo() - 1)
    &&& forall|i: int| 0 <= i < v.len() ==> #[trigger] v[i].wf()
    &&& forall|i: int| 0 <= i < v.len() ==> v[i].lo() <= match #[trigger] v[i].hi() {
        Some(m) => m,
        None => v[i].lo(),
    }
    &&& v[v.len() - 1].hi() is None
}

/// Consecutive cells partition the time line: every non-negative half-unit
/// count lies in exactly one of them.
pub proof fn lemma_consecutive_cells_partition(v: Seq<IntervalModel>, h: int)
    requires
        consecutive_cells(v),
        0 <= h,
    ensures
        exists|i: int| 0 <= i < v.len() && #[trigger] v[i].has(h),
        forall|i: int, j: int| 0 <= i < v.len() && 0 <= j < v.len() && v[i].has(h) && v[j].has(h) ==> i == j,
    decreases v.len(),
{
    let n = v.len();
    // Every cell starts after the end of all earlier ones.
    assert forall|i: int, j: int| 0 <= i < j < n implies #[trigger] v[i].hi() is Some && v[i].hi()->Some_0
        < #[trigger] v[j].lo() by {
        lemma_cells_ordered(v, i, j);
    }
    if n == 1 {
        assert(v[0].wf());
        assert(v[0].has(h));
    } else {
        let last = n - 1;
        if h >= v[last].lo() {
            assert(v[last].wf());
            assert(v[last].has(h));
        } else {
            // The cell containing h is found among the first `last` cells.
            let k = choose_cell(v, h, last);
            assert(v[k].has(h));
        }
    }
    assert forall|i: int, j: int|
        0 <= i < n && 0 <= j < n && v[i].has(h) && v[j].has(h) implies i == j by {
        if i < j {
            lemma_cells_ordered(v, i, j);
        } else if j < i {
            lemma_cells_ordered(v, j, i);
        }
    }
}

/// Finds the cell among the first `bound` ones that holds `h`, when `h` lies
/// below the start of cell `bound`.
proof fn choose_cell(v: Seq<IntervalModel>, h: int, bound: int) -> (k: int)
    requires
        consecutive_cells(v),
        0 <= h,
        0 < bound < v.len(),
        h < v[bound].lo(),
    ensures
        0 <= k < bound,
        v[k].has(h),
    decreases bound,
{
    let p = bound - 1;
    assert(v[p].hi() == Some(v[p + 1].lo() - 1));
    assert(v[p].wf());
    if h >= v[p].lo() {
        p
    } else {
        assert(p > 0);
        choose_cell(v, h, p)
    }
}

/// In consecutive cells, an earlier cell ends before a later one starts.
proof fn lemma_cells_ordered(v: Seq<IntervalModel>, i: int, j: int)
    requires
        consecutive_cells(v),
        0 <= i < j < v.len(),
    ensures
        v[i].hi() is Some,
        v[i].hi()->Some_0 < v[j].lo(),
    decreases j - i,
{
    assert(v[i].hi() == Some(v[i + 1].lo() - 1));
    if j > i + 1 {
        lemma_cells_ordered(v, i + 1, j);
        assert(v[i + 1].lo() <= v[i + 1].hi()->Some_0);
    }
}

/// The first validation error for `delays`, if any.
fn validate_delays(delays: &[DelayRep]) -> (r: Result<(), PartitionError>)
    ensures
        r is Ok <==> valid_delays(delays@),
        r matches Err(PartitionError::EmptyInput) <==> delays@.len() == 0,
        r matches Err(PartitionError::InfiniteDelay { index }) ==> {
            &&& index < delays@.len()
            &&& half_is_infinite(delays@[index as int]@)
            &&& forall|j: int| 0 <= j < index ==> !half_is_infinite(#[trigger] delays@[j]@)
        },
        r matches Err(PartitionError::NotStrictlyIncreasing { index, prev, next }) ==> {
            &&& all_finite(delays@)
            &&& 0 < index < delays@.len()
            &&& prev == delays@[index - 1]
            &&& next == delays@[index as int]
            &&& delays@[index - 1]@ >= delays@[index as int]@
            &&& forall|j: int| 0 < j < index ==> delays@[j - 1]@ < #[trigger] delays@[j]@
        },
        r is Err ==> (r matches Err(PartitionError::EmptyInput) || r matches Err(
            PartitionError::InfiniteDelay { .. },
        ) || r matches Err(PartitionError::NotStrictlyIncreasing { .. })),
{
    let n = delays.len();
    if n == 0 {
        return Err(PartitionError::EmptyInput);
    }
    let mut idx: usize = 0;
    while idx < n
        invariant
            n == delays@.len(),
            idx <= n,
            forall|j: int| 0 <= j < idx ==> !half_is_infinite(#[trigger] delays@[j]@),
        decreases n - idx,
    {
        if delays[idx].is_infinity() {
            return Err(PartitionError::InfiniteDelay { index: idx });
        }
        idx = idx + 1;
    }
    let mut i: usize = 1;
    while i < n
        invariant
            n == delays@.len(),
            1 <= i <= n,
            all_finite(delays@),
            forall|j: int| 0 < j < i ==> delays@[j - 1]@ < #[trigger] delays@[j]@,
        decreases n - i,
    {
        let prev = delays[i - 1];
        let next = delays[i];
        if !prev.lt(next) {
            return Err(PartitionError::NotStrictlyIncreasing { index: i, prev, next });
        }
        i = i + 1;
    }
    // Two delays with the same floor can only be `k` followed by `k + 0.5`,
    // which is the allowed pattern; anything else was already rejected above.
    let mut k: usize = 1;
    while k < n
        invariant
            n == delays@.len(),
            1 <= k <= n,
            all_finite(delays@),
            strictly_increasing(delays@),
        decreases n - k,
    {
        let prev = delays[k - 1];
        let next = delays[k];
        if prev.half_units() / 2 == next.half_units() / 2 && !(prev.is_integer() && next.is_half_integer()) {
            return Err(
                PartitionError::NotFloorDistinct {
                    floor: next.half_units() / 2,
                    first_index: k - 1,
                    second_index: k,
                },
            );
        }
        k = k + 1;
    }
    Ok(())
}

/// The interval with the given integer bounds, as the partition needs it.
fn build_interval(
    index: usize,
    lower_inclusive: bool,
    lower: u32,
    upper_inclusive: bool,
    upper: Option<u32>,
) -> (r: Result<Interval, PartitionError>)
    ensures
        match (r, spec_from_bounds(lower_inclusive, lower, upper_inclusive, upper)) {
            (Ok(iv), Ok(m)) => iv@ == m && m.wf(),
            (Err(_), Err(_)) => true,
            _ => false,
        },
{
    match Interval::from_bounds(lower_inclusive, lower, upper_inclusive, upper) {
        Ok(iv) => Ok(iv),
        Err(_) => Err(
            PartitionError::InvalidInterval {
                index,
                details: String::from_str("bounds do not form a non-empty interval"),
            },
        ),
    }
}

/// The partition interval with index `i`, from the delays around it.
fn cell_interval(delays: &[DelayRep], i: usize) -> (r: Result<Interval, PartitionError>)
    requires
        valid_delays(delays@),
        i < delays@.len(),
    ensures
        r is Ok,
        r->Ok_0@.wf(),
        r->Ok_0@.lo() == cell_lo(delays@, i as int),
        r->Ok_0@.hi() == cell_hi(delays@, i as int),
{
    let n = delays.len();
    let last = i + 1 == n;
    if i == 0 {
        if last {
            return build_interval(0, true, 0, false, None);
        }
        let d = delays[0];
        let h = d.half_units();
        if d.is_integer() {
            build_interval(0, true, 0, true, Some(h / 2))
        } else {
            build_interval(0, true, 0, false, Some(h / 2 + 1))
        }
    } else {
        let p = delays[i - 1].half_units();
        let prev_integer = delays[i - 1].is_integer();
        assert(delays@[i - 1]@ < delays@[i as int]@);
        let (li, l) = if prev_integer {
            (false, p / 2)
        } else {
            (true, p / 2 + 1)
        };
        if last {
            return build_interval(i, li, l, false, None);
        }
        let c = delays[i].half_units();
        assert(c < 0xffff_ffffu32);
        if delays[i].is_integer() {
            build_interval(i, li, l, true, Some(c / 2))
        } else {
            build_interval(i, li, l, false, Some(c / 2 + 1))
        }
    }
}

/// Infer guard-partition intervals from an ordered delay sequence.
///
/// The input must be non-empty, finite and strictly increasing. Interval `i`
/// covers the half-unit counts from `delays[i - 1] + 1` (from `0` when
/// `i == 0`) up to `delays[i]`, the last one up to `+∞`.
pub fn infer_guard_intervals_from_delays(delays: &[DelayRep]) -> (r: Result<Vec<Interval>, PartitionError>)
    ensures
        r is Ok <==> valid_delays(delays@),
        r matches Err(PartitionError::EmptyInput) <==> delays@.len() == 0,
        r matches Err(PartitionError::InfiniteDelay { index }) ==> {
            &&& index < delays@.len()
            &&& half_is_infinite(delays@[index as int]@)
            &&& forall|j: int| 0 <= j < index ==> !half_is_infinite(#[trigger] delays@[j]@)
        },
        r matches Err(PartitionError::NotStrictlyIncreasing { index, prev, next }) ==> {
            &&& all_finite(delays@)
            &&& 0 < index < delays@.len()
            &&& prev == delays@[index - 1]
            &&& next == delays@[index as int]
            &&& delays@[index - 1]@ >= delays@[index as int]@
            &&& forall|j: int| 0 < j < index ==> delays@[j - 1]@ < #[trigger] delays@[j]@
        },
        r is Err ==> (r matches Err(PartitionError::EmptyInput) || r matches Err(
            PartitionError::InfiniteDelay { .. },
        ) || r matches Err(PartitionError::NotStrictlyIncreasing { .. })),
        r matches Ok(v) ==> {
            &&& v@.len() == delays@.len()
            &&& forall|i: int| 0 <= i < v@.len() ==> (#[trigger] v@[i])@.wf()
            &&& forall|i: int| 0 <= i < v@.len() ==> (#[trigger] v@[i])@.lo() == cell_lo(delays@, i)
            &&& forall|i: int| 0 <= i < v@.len() ==> (#[trigger] v@[i])@.hi() == cell_hi(delays@, i)
            &&& forall|i: int| 0 <= i < v@.len() ==> (#[trigger] v@[i])@.has(delays@[i]@ as int)
            &&& consecutive_cells(v@.map_values(|iv: Interval| iv@))
        },
{
    match validate_delays(delays) {
        Err(e) => return Err(e),
        Ok(()) => {},
    }
    let n = delays.len();
    let mut out: Vec<Interval> = Vec::new();
    let mut i: usize = 0;
    while i < n
        invariant
            n == delays@.len(),
            valid_delays(delays@),
            i <= n,
            out@.len() == i,
            forall|k: int| 0 <= k < i ==> (#[trigger] out@[k])@.wf(),
            forall|k: int| 0 <= k < i ==> (#[trigger] out@[k])@.lo() == cell_lo(delays@, k),
            forall|k: int| 0 <= k < i ==> (#[trigger] out@[k])@.hi() == cell_hi(delays@, k),
        decreases n - i,
    {
        let iv = match cell_interval(delays, i) {
            Ok(iv) => iv,
            Err(e) => return Err(e),
        };
        out.push(iv);
        i = i + 1;
    }
    proof {
        let v = out@.map_values(|iv: Interval| iv@);
        assert forall|k: int| 0 <= k < out@.len() implies (#[trigger] out@[k])@.has(delays@[k]@ as int) by {
            if k > 0 {
                assert(delays@[k - 1]@ < delays@[k]@);
            }
        }
        assert forall|k: int| 0 <= k < v.len() - 1 implies #[trigger] v[k].hi() == Some(v[k + 1].lo() - 1) by {
            assert(v[k] == out@[k]@);
            assert(v[k + 1] == out@[k + 1]@);
        }
        assert forall|k: int| 0 <= k < v.len() implies v[k].lo() <= match #[trigger] v[k].hi() {
            Some(m) => m,
            None => v[k].lo(),
        } by {
            assert(v[k] == out@[k]@);
            if k > 0 && k < v.len() - 1 {
                assert(delays@[k - 1]@ < delays@[k]@);
            }
        }
        assert forall|k: int| 0 <= k < v.len() implies #[trigger] v[k].wf() by {
            assert(v[k] == out@[k]@);
        }
        assert(v[0] == out@[0]@);
        assert(v[v.len() - 1] == out@[v.len() - 1]@);
    }
    Ok(out)
}

} // verus!
