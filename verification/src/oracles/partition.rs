//! Guard-membership classes of delays, in half units.

use vstd::prelude::*;

use crate::time::delay::{DelayRep, MAX_FINITE_HALF_UNITS};
use crate::time::interval::{max_finite, Interval};

verus! {

/// An inclusive range of half-unit counts; `end = None` extends to `+∞`.
#[derive(Debug, Clone, Copy, PartialEq, Eq)]
pub struct HalfUnitRange {
    /// Least half-unit count in the range.
    pub start: u64,
    /// Greatest half-unit count in the range, if bounded.
    pub end: Option<u64>,
}

/// `true` iff range `r` holds half-unit count `h`.
pub open spec fn range_holds(r: HalfUnitRange, h: int) -> bool {
    &&& r.start <= h
    &&& match r.end {
        Some(e) => h <= e,
        None => true,
    }
}

/// The greatest count strictly below `x`, capped at the largest finite one.
pub open spec fn cap_below(x: u64) -> u64 {
    if x - 1 < max_finite() {
        (x - 1) as u64
    } else {
        max_finite() as u64
    }
}

/// `x + 1`, saturating at `u64::MAX`.
pub open spec fn sat_succ(x: u64) -> u64 {
    if x == 0xffff_ffff_ffff_ffffu64 {
        x
    } else {
        (x + 1) as u64
    }
}

/// The cell between boundaries `b[k]` and `b[k + 1]`.
pub open spec fn window_cell(b: Seq<u64>, k: int) -> HalfUnitRange {
    HalfUnitRange { start: b[k], end: Some(cap_below(b[k + 1])) }
}

/// `cells` partitions the representable half-unit counts into consecutive
/// non-empty cells, sorted by start, on each of which every range of
/// `input` holds everywhere or nowhere.
pub open spec fn partition_ok(input: Seq<HalfUnitRange>, cells: Seq<HalfUnitRange>) -> bool {
    &&& cells.len() > 0
    &&& forall|i: int| 0 <= i < cells.len() ==> (#[trigger] cells[i]).start <= max_finite() && match cells[i].end {
        Some(e) => cells[i].start <= e <= max_finite(),
        None => true,
    }
    &&& forall|i: int, j: int|
        0 <= i < j < cells.len() ==> (#[trigger] cells[i]).end is Some && cells[i].end->Some_0 < (
        #[trigger] cells[j]).start
    &&& forall|h: int| 0 <= h <= max_finite() ==> #[trigger] covered(cells, h)
    &&& forall|i: int, r: int, h1: int, h2: int|
        0 <= i < cells.len() && 0 <= r < input.len() && 0 <= h1 <= max_finite() && 0 <= h2 <= max_finite()
            ==> #[trigger] uniform_on(cells[i], input[r], h1, h2)
}

/// Range `r` holds both or neither of two counts of `cell`.
pub open spec fn uniform_on(cell: HalfUnitRange, r: HalfUnitRange, h1: int, h2: int) -> bool {
    range_holds(cell, h1) && range_holds(cell, h2) ==> range_holds(r, h1) == range_holds(r, h2)
}

/// Some cell holds `h`.
pub open spec fn covered(cells: Seq<HalfUnitRange>, h: int) -> bool {
    exists|i: int| 0 <= i < cells.len() && range_holds(#[trigger] cells[i], h)
}

/// The half-unit counts of `interval` that a delay can take, with a `+∞`
/// upper end kept open; `None` when it holds no representable delay.
pub open spec fn interval_half_range(iv: crate::time::interval::IntervalModel) -> Option<HalfUnitRange> {
    let lower = match iv.lower {
        crate::time::interval::Endpoint::Finite(n) => n as int,
        crate::time::interval::Endpoint::Infinity => 0int,
    };
    let start = 2 * lower + if iv.has((2 * lower) % 0x1_0000_0000) && (2 * lower) % 0x1_0000_0000 != 0xffff_ffff {
        0int
    } else {
        1int
    };
    let end = match iv.upper {
        crate::time::interval::Endpoint::Finite(u) => {
            let raw = 2 * u;
            let inc = iv.has((2 * u) % 0x1_0000_0000) && (2 * u) % 0x1_0000_0000 != 0xffff_ffff;
            let e = if inc { raw } else if raw == 0 { 0 } else { raw - 1 };
            Some(if e < max_finite() { e } else { max_finite() })
        },
        crate::time::interval::Endpoint::Infinity => None,
    };
    if start > max_finite() {
        None
    } else {
        match end {
            Some(e) => if e < start {
                None
            } else {
                Some(HalfUnitRange { start: start as u64, end: Some(e as u64) })
            },
            None => Some(HalfUnitRange { start: start as u64, end: None }),
        }
    }
}

impl HalfUnitRange {
    /// `true` iff this range holds `half_units`.
    pub fn contains_half_units(&self, half_units: u64) -> (b: bool)
        ensures
            b == range_holds(*self, half_units as int),
    {
        if half_units < self.start {
            return false;
        }
        match self.end {
            Some(end) => half_units <= end,
            None => true,
        }
    }

    /// The preferred witness delay of this cell: its greatest count when
    /// bounded, its least count for an unbounded tail; `None` when that count
    /// does not fit a delay.
    pub fn descending_preference_delay(&self) -> (d: Option<DelayRep>)
        ensures
            ({
                let h = match self.end {
                    Some(e) => e,
                    None => self.start,
                };
                match d {
                    Some(x) => h <= u32::MAX && x@ == h,
                    None => h > u32::MAX,
                }
            }),
    {
        let half_units = match self.end {
            Some(end) => end,
            None => self.start,
        };
        if half_units > 0xffff_ffffu64 {
            return None;
        }
        Some(DelayRep::from_half_units(half_units as u32))
    }
}

/// The half-unit range a delay in `interval` can take, capped at the
/// largest finite count; `None` when no representable delay lies in it.
pub fn interval_to_half_unit_range(interval: &Interval) -> (r: Option<HalfUnitRange>)
    ensures
        r == interval_half_range(interval@),
{
    let lower_bound = interval.lower_bound();
    let lower_in = interval.contains(DelayRep::from_integer(lower_bound));
    let start: u64 = (lower_bound as u64) * 2 + if lower_in {
        0u64
    } else {
        1u64
    };
    proof {
        assert((2 * lower_bound) % 0x1_0000_0000 <= 0xffff_ffff);
    }
    if start > MAX_FINITE_HALF_UNITS as u64 {
        return None;
    }
    let end: Option<u64> = match interval.upper_bound() {
        Some(upper_bound) => {
            let upper_in = interval.contains(DelayRep::from_integer(upper_bound));
            let raw_end: u64 = (upper_bound as u64) * 2;
            let e: u64 = if upper_in {
                raw_end
            } else if raw_end == 0 {
                0
            } else {
                raw_end - 1
            };
            Some(
                if e < MAX_FINITE_HALF_UNITS as u64 {
                    e
                } else {
                    MAX_FINITE_HALF_UNITS as u64
                },
            )
        },
        None => None,
    };
    match end {
        Some(e) => if e < start {
            None
        } else {
            Some(HalfUnitRange { start, end: Some(e) })
        },
        None => Some(HalfUnitRange { start, end: None }),
    }
}

/// `v` with `x` inserted in strictly increasing order, unless present.
#[verifier::spinoff_prover]
fn insert_boundary(v: Vec<u64>, x: u64) -> (r: Vec<u64>)
    requires
        forall|i: int, j: int| 0 <= i < j < v@.len() ==> v@[i] < v@[j],
    ensures
        forall|i: int, j: int| 0 <= i < j < r@.len() ==> r@[i] < r@[j],
        forall|y: u64| r@.contains(y) <==> (v@.contains(y) || y == x),
{
    let ghost v0 = v@;
    let mut pos: usize = 0;
    while pos < v.len() && v[pos] < x
        invariant
            pos <= v@.len(),
            forall|i: int| 0 <= i < pos ==> v@[i] < x,
        decreases v@.len() - pos,
    {
        pos = pos + 1;
    }
    if pos < v.len() && v[pos] == x {
        proof {
            assert forall|y: u64| v0.contains(y) <==> (v0.contains(y) || y == x) by {
                if y == x {
                    assert(v0[pos as int] == y);
                }
            }
        }
        return v;
    }
    let mut r = v;
    let ghost old_r = r@;
    assert(old_r == v0);
    r.insert(pos, x);
    proof {
        assert forall|i: int, j: int| 0 <= i < j < r@.len() implies r@[i] < r@[j] by {
            if i < pos && j < pos {
                assert(r@[i] == old_r[i] && r@[j] == old_r[j]);
            } else if i < pos && j == pos {
                assert(r@[i] == old_r[i]);
            } else if i < pos {
                assert(r@[i] == old_r[i] && r@[j] == old_r[j - 1]);
            } else if i == pos {
                assert(r@[j] == old_r[j - 1]);
                assert(old_r[pos as int] >= x);
            } else {
                assert(r@[i] == old_r[i - 1] && r@[j] == old_r[j - 1]);
            }
        }
        assert forall|y: u64| #[trigger] r@.contains(y) <==> (v0.contains(y) || y == x) by {
            if r@.contains(y) {
                let k = choose|k: int| 0 <= k < r@.len() && r@[k] == y;
                if k < pos {
                    assert(old_r[k] == y);
                } else if k > pos {
                    assert(old_r[k - 1] == y);
                }
            }
            if old_r.contains(y) {
                let k = choose|k: int| 0 <= k < old_r.len() && old_r[k] == y;
                if k < pos {
                    assert(r@[k] == y);
                } else {
                    assert(r@[k + 1] == y);
                }
            }
            if y == x {
                assert(r@[pos as int] == y);
            }
        }
    }
    r
}

/// The boundaries of the membership classes of `ranges`: `0`, every start,
/// and every successor of a bounded end, sorted.
fn range_boundaries(ranges: &[HalfUnitRange]) -> (b: Vec<u64>)
    ensures
        forall|i: int, j: int| 0 <= i < j < b@.len() ==> b@[i] < b@[j],
        b@.contains(0),
        forall|r: int| 0 <= r < ranges@.len() ==> b@.contains(#[trigger] ranges@[r].start),
        forall|r: int|
            0 <= r < ranges@.len() && ranges@[r].end is Some ==> b@.contains(sat_succ(#[trigger] ranges@[r].end->Some_0)),
{
    let mut b: Vec<u64> = Vec::new();
    b.push(0);
    assert(b@[0] == 0);
    let mut i: usize = 0;
    while i < ranges.len()
        invariant
            i <= ranges@.len(),
            forall|x: int, y: int| 0 <= x < y < b@.len() ==> b@[x] < b@[y],
            b@.contains(0),
            forall|r: int| 0 <= r < i ==> b@.contains(#[trigger] ranges@[r].start),
            forall|r: int|
                0 <= r < i && ranges@[r].end is Some ==> b@.contains(sat_succ(#[trigger] ranges@[r].end->Some_0)),
        decreases ranges@.len() - i,
    {
        let range = ranges[i];
        b = insert_boundary(b, range.start);
        match range.end {
            Some(end) => {
                let next: u64 = if end == 0xffff_ffff_ffff_ffffu64 {
                    end
                } else {
                    end + 1
                };
                b = insert_boundary(b, next);
            },
            None => {},
        }
        i = i + 1;
    }
    b
}

/// Partition the representable half-unit counts into the classes on which
/// membership in every range of `guard_ranges` is constant: one cell per
/// pair of consecutive boundaries, then an unbounded tail; a single cell
/// `[0, ∞)` without ranges.
pub fn partition_half_unit_ranges(guard_ranges: &[HalfUnitRange]) -> (cells: Vec<HalfUnitRange>)
    ensures
        partition_ok(guard_ranges@, cells@),
        guard_ranges@.len() == 0 ==> cells@ == seq![HalfUnitRange { start: 0, end: None }],
{
    if guard_ranges.len() == 0 {
        let mut cells: Vec<HalfUnitRange> = Vec::new();
        cells.push(HalfUnitRange { start: 0, end: None });
        proof {
            assert forall|h: int| 0 <= h <= max_finite() implies #[trigger] covered(cells@, h) by {
                assert(range_holds(cells@[0], h));
            }
        }
        return cells;
    }
    let b = range_boundaries(guard_ranges);
    proof {
        let k = choose|k: int| 0 <= k < b@.len() && b@[k] == 0u64;
        if k > 0 {
            assert(b@[0] < b@[k]);
        }
    }
    let mut cells: Vec<HalfUnitRange> = Vec::new();
    let mut k: usize = 0;
    let n = b.len();
    while k < n - 1
        invariant
            n == b@.len(),
            b@.len() > 0,
            b@[0] == 0,
            forall|x: int, y: int| 0 <= x < y < b@.len() ==> b@[x] < b@[y],
            k < b@.len(),
            cells@.len() <= k,
            forall|i: int| 0 <= i < cells@.len() ==> #[trigger] cells@[i] == window_cell(b@, i) && b@[i] <= max_finite(),
            cells@.len() < k ==> b@[cells@.len() as int] > max_finite(),
        decreases b@.len() - k,
    {
        let start = b[k];
        if start <= MAX_FINITE_HALF_UNITS as u64 {
            let next = b[k + 1];
            let end: u64 = if next - 1 < MAX_FINITE_HALF_UNITS as u64 {
                next - 1
            } else {
                MAX_FINITE_HALF_UNITS as u64
            };
            proof {
                if cells@.len() < k {
                    assert(b@[cells@.len() as int] < b@[k as int]);
                }
            }
            cells.push(HalfUnitRange { start, end: Some(end) });
        }
        k = k + 1;
    }
    let last = b[b.len() - 1];
    let ghost windows = cells@;
    if last <= MAX_FINITE_HALF_UNITS as u64 {
        proof {
            if cells@.len() < k {
                assert(b@[cells@.len() as int] <= b@[k as int]);
            }
        }
        cells.push(HalfUnitRange { start: last, end: None });
    }
    proof {
        lemma_partition_windows(guard_ranges@, b@, windows, cells@);
    }
    cells
}

/// The index of the last boundary at or below `h`.
proof fn lemma_window_of(b: Seq<u64>, h: int) -> (k: int)
    requires
        b.len() > 0,
        b[0] == 0,
        0 <= h,
        forall|x: int, y: int| 0 <= x < y < b.len() ==> b[x] < b[y],
    ensures
        0 <= k < b.len(),
        b[k] <= h,
        k == b.len() - 1 || h < b[k + 1],
    decreases b.len(),
{
    if b[b.len() - 1] <= h {
        b.len() - 1
    } else {
        let c = b.drop_last();
        assert forall|x: int, y: int| 0 <= x < y < c.len() implies c[x] < c[y] by {
            assert(c[x] == b[x] && c[y] == b[y]);
        }
        let k = lemma_window_of(c, h);
        assert(c[k] == b[k]);
        if k < c.len() - 1 {
            assert(c[k + 1] == b[k + 1]);
        }
        k
    }
}

/// The cells built from strictly sorted boundaries holding `0`, every start
/// and every successor of a bounded end form a partition of the ranges.
proof fn lemma_partition_windows(
    input: Seq<HalfUnitRange>,
    b: Seq<u64>,
    windows: Seq<HalfUnitRange>,
    cells: Seq<HalfUnitRange>,
)
    requires
        b.len() > 0,
        b[0] == 0,
        forall|x: int, y: int| 0 <= x < y < b.len() ==> b[x] < b[y],
        forall|r: int| 0 <= r < input.len() ==> b.contains(#[trigger] input[r].start),
        forall|r: int| 0 <= r < input.len() && input[r].end is Some ==> b.contains(sat_succ(#[trigger] input[r].end->Some_0)),
        windows.len() <= b.len() - 1,
        forall|i: int| 0 <= i < windows.len() ==> #[trigger] windows[i] == window_cell(b, i) && b[i] <= max_finite(),
        windows.len() < b.len() - 1 ==> b[windows.len() as int] > max_finite(),
        b[b.len() - 1] <= max_finite() ==> cells == windows.push(HalfUnitRange { start: b[b.len() - 1], end: None }),
        b[b.len() - 1] > max_finite() ==> cells == windows,
    ensures
        partition_ok(input, cells),
{
    let last = b.len() - 1;
    // Every cell lies between two consecutive boundaries.
    assert forall|i: int| 0 <= i < cells.len() implies (#[trigger] cells[i]).start == b[i] && (i < last ==> cells[i].end == Some(cap_below(b[i + 1]))) && (i == last ==> cells[i].end is None) && b[i] <= max_finite() by {
        if i < windows.len() {
            assert(cells[i] == windows[i]);
        } else {
            assert(windows.len() == last) by {
                if windows.len() < last {
                    assert(b[windows.len() as int] <= b[last]);
                }
            }
        }
    }
    if cells.len() == 0 {
        assert(windows.len() == 0);
        assert(b[0] <= max_finite());
        if last > 0 {
            assert(b[windows.len() as int] > max_finite());
        }
    }
    assert forall|i: int, j: int| 0 <= i < j < cells.len() implies (#[trigger] cells[i]).end is Some && cells[i].end->Some_0 < (
    #[trigger] cells[j]).start by {
        assert(cells[i].start == b[i] && cells[j].start == b[j]);
        assert(i < last);
        assert(b[i + 1] <= b[j]);
    }
    assert forall|h: int| 0 <= h <= max_finite() implies #[trigger] covered(cells, h) by {
        let k = lemma_window_of(b, h);
        if k < last {
            if windows.len() <= k {
                if windows.len() < last {
                    assert(b[windows.len() as int] <= b[k]);
                }
            }
            assert(cells[k] == windows[k]);
        } else {
            if windows.len() < last {
                assert(b[windows.len() as int] <= b[k]);
            }
        }
        assert(cells[k].start == b[k]);
        assert(range_holds(cells[k], h));
    }
    assert forall|i: int, r: int, h1: int, h2: int|
        0 <= i < cells.len() && 0 <= r < input.len() && 0 <= h1 <= max_finite() && 0 <= h2 <= max_finite()
            && range_holds(cells[i], h1) && range_holds(cells[i], h2) implies #[trigger] uniform_on(cells[i], input[r], h1, h2) by {
        let (lo, hi) = if h1 <= h2 { (h1, h2) } else { (h2, h1) };
        if range_holds(input[r], lo) != range_holds(input[r], hi) {
            let x: int = if range_holds(input[r], lo) {
                input[r].end->Some_0 + 1
            } else {
                input[r].start as int
            };
            assert(lo < x <= hi);
            if range_holds(input[r], lo) {
                assert(sat_succ(input[r].end->Some_0) == x);
            }
            assert(b.contains(x as u64));
            let m = choose|m: int| 0 <= m < b.len() && b[m] == x;
            assert(b[i] <= lo);
            assert(b[i] < b[m]);
            if m <= i {
                if m < i {
                    assert(b[m] < b[i]);
                }
            } else if i < last {
                assert(b[i + 1] <= b[m]);
                assert(hi <= cap_below(b[i + 1]));
            }
        }
    }
}

} // verus!
