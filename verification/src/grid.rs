//! Crane collision grids: for each vertical offset `dy` between a moving and
//! a fixed block, the horizontal offsets `dx` at which the moving block's
//! crane path hits the fixed block, kept as sorted rows of intervals.
use vstd::prelude::*;

use crate::model::coord_ok;
use crate::window::{
    all_nonempty, apart, covered, ends_from, is_left_end, is_right_end, merge_sorted_intervals, sort_intervals,
    Interval,
};

verus! {

/// Range of offsets that a grid stores.
#[derive(Clone, Copy, Debug, PartialEq, Eq, Structural)]
pub struct DeltaRange {
    pub min_dx: i64,
    pub max_dx: i64,
    pub min_dy: i64,
    pub max_dy: i64,
}

impl DeltaRange {
    /// Offsets within the coordinate limit, at least one row, and a row
    /// count that fits in `usize`.
    pub open spec fn wf(&self) -> bool {
        &&& coord_ok(self.min_dx as int)
        &&& coord_ok(self.max_dx as int)
        &&& coord_ok(self.min_dy as int)
        &&& coord_ok(self.max_dy as int)
        &&& self.min_dy <= self.max_dy
        &&& self.height() < usize::MAX
    }

    /// Number of rows.
    pub open spec fn height(&self) -> int {
        self.max_dy - self.min_dy + 1
    }

    /// `(dy, dx)` lies in the stored range.
    pub open spec fn in_window(&self, dy: int, dx: int) -> bool {
        self.min_dy <= dy <= self.max_dy && self.min_dx <= dx <= self.max_dx
    }
}

/// Every interval lies within the dx range of `d`.
pub open spec fn within_dx(ivs: Seq<Interval>, d: DeltaRange) -> bool {
    forall|i: int| 0 <= i < ivs.len() ==> d.min_dx <= #[trigger] ivs[i].0 && ivs[i].1 <= d.max_dx
}

/// Rows of merged intervals stored back to back; row `r` (offset
/// `min_dy + r`) is `intervals[row_offsets[r]..row_offsets[r + 1]]`.
#[derive(Clone, Debug)]
pub struct CollisionGrid {
    pub delta: DeltaRange,
    pub row_offsets: Vec<usize>,
    pub intervals: Vec<Interval>,
}

impl CollisionGrid {
    pub open spec fn wf(&self) -> bool {
        &&& self.delta.wf()
        &&& self.row_offsets@.len() == self.delta.height() + 1
        &&& forall|i: int, j: int| 0 <= i <= j <= self.delta.height() ==> self.row_offsets@[i] <= self.row_offsets@[j]
        &&& self.row_offsets@[0] == 0
        &&& self.row_offsets@[self.delta.height()] == self.intervals@.len()
        &&& all_nonempty(self.intervals@)
        &&& within_dx(self.intervals@, self.delta)
        &&& forall|dy: int| #[trigger] apart(self.row(dy))
    }

    /// The intervals of offset `dy`; empty outside the stored range.
    pub open spec fn row(&self, dy: int) -> Seq<Interval> {
        if self.delta.min_dy <= dy <= self.delta.max_dy {
            let r = dy - self.delta.min_dy;
            self.intervals@.subrange(self.row_offsets@[r] as int, self.row_offsets@[r + 1] as int)
        } else {
            Seq::empty()
        }
    }

    /// The moving block hits the fixed one at offset `(dx, dy)`.
    pub open spec fn hits(&self, dy: int, dx: int) -> bool {
        covered(self.row(dy), dx)
    }

    /// The dx intervals of row `dy`.
    pub fn dx_intervals(&self, dy: i64) -> (res: &[Interval])
        requires
            self.wf(),
        ensures
            res@ == self.row(dy as int),
    {
        let all = self.intervals.as_slice();
        if dy < self.delta.min_dy || self.delta.max_dy < dy {
            return &all[0..0];
        }
        let row = (dy - self.delta.min_dy) as usize;
        let begin = self.row_offsets[row];
        let end = self.row_offsets[row + 1];
        &all[begin..end]
    }
}

/// A grid under construction: one unsorted list of intervals per row.
pub struct CollisionGridBuilder {
    pub delta: DeltaRange,
    pub rows: Vec<Vec<Interval>>,
}

impl CollisionGridBuilder {
    pub open spec fn wf(&self) -> bool {
        &&& self.delta.wf()
        &&& self.rows@.len() == self.delta.height()
        &&& forall|r: int| 0 <= r < self.rows@.len() ==> all_nonempty(#[trigger] self.rows@[r]@)
        &&& forall|r: int| 0 <= r < self.rows@.len() ==> within_dx(#[trigger] self.rows@[r]@, self.delta)
    }

    /// The intervals added so far at offset `dy`.
    pub open spec fn row(&self, dy: int) -> Seq<Interval> {
        if self.delta.min_dy <= dy <= self.delta.max_dy {
            self.rows@[dy - self.delta.min_dy]@
        } else {
            Seq::empty()
        }
    }

    /// Some added interval holds `(dx, dy)`.
    pub open spec fn hits(&self, dy: int, dx: int) -> bool {
        covered(self.row(dy), dx)
    }

    /// An empty builder for the offsets of `range`.
    pub fn new(range: DeltaRange) -> (res: Self)
        requires
            range.wf(),
        ensures
            res.wf(),
            res.delta == range,
            forall|dy: int, dx: int| !res.hits(dy, dx),
    {
        let height = (range.max_dy - range.min_dy + 1) as usize;
        let mut rows: Vec<Vec<Interval>> = Vec::new();
        let mut i: usize = 0;
        while i < height
            invariant
                i <= height,
                height == range.height(),
                rows@.len() == i,
                forall|r: int| 0 <= r < i ==> (#[trigger] rows@[r])@.len() == 0,
            decreases height - i,
        {
            rows.push(Vec::new());
            i += 1;
        }
        let res = CollisionGridBuilder { delta: range, rows };
        proof {
            assert forall|dy: int, dx: int| !res.hits(dy, dx) by {
                if range.min_dy <= dy <= range.max_dy {
                    assert(res.rows@[dy - range.min_dy]@.len() == 0);
                }
            }
        }
        res
    }

    /// Adds the interval `[min_dx, max_dx]` at offset `dy`, clipped to the
    /// stored range.
    pub fn add_x_interval(&mut self, dy: i64, min_dx: i64, max_dx: i64)
        requires
            old(self).wf(),
        ensures
            final(self).wf(),
            final(self).delta == old(self).delta,
            forall|y: int, x: int| #[trigger] final(self).hits(y, x) <==> (old(self).hits(y, x) || (y == dy
                && final(self).delta.in_window(y, x) && min_dx <= x <= max_dx)),
    {
        let ghost before = *self;
        if dy < self.delta.min_dy || self.delta.max_dy < dy {
            return;
        }
        let lo = if min_dx >= self.delta.min_dx { min_dx } else { self.delta.min_dx };
        let hi = if max_dx <= self.delta.max_dx { max_dx } else { self.delta.max_dx };
        if lo > hi {
            proof {
                assert forall|y: int, x: int| #[trigger] self.hits(y, x) <==> (before.hits(y, x) || (y == dy
                    && self.delta.in_window(y, x) && min_dx <= x <= max_dx)) by {}
            }
            return;
        }
        let r = (dy - self.delta.min_dy) as usize;
        self.rows[r].push((lo, hi));
        proof {
            let ri = r as int;
            assert(self.rows@[ri]@ == before.rows@[ri]@.push((lo, hi)));
            assert forall|q: int| 0 <= q < self.rows@.len() && q != ri implies self.rows@[q] == before.rows@[q] by {}
            assert forall|q: int| 0 <= q < self.rows@.len() implies all_nonempty(#[trigger] self.rows@[q]@) by {
                if q != ri {
                    assert(self.rows@[q] == before.rows@[q]);
                }
            }
            assert forall|q: int| 0 <= q < self.rows@.len() implies within_dx(#[trigger] self.rows@[q]@, self.delta) by {
                if q != ri {
                    assert(self.rows@[q] == before.rows@[q]);
                } else {
                    assert(within_dx(before.rows@[q]@, self.delta));
                    assert forall|i: int| 0 <= i < self.rows@[q]@.len() implies self.delta.min_dx <= #[trigger] self.rows@[q]@[i].0 && self.rows@[q]@[i].1 <= self.delta.max_dx by {
                        if i < before.rows@[q]@.len() {
                            assert(self.rows@[q]@[i] == before.rows@[q]@[i]);
                        }
                    }
                }
            }
            assert forall|y: int, x: int| #[trigger] self.hits(y, x) <==> (before.hits(y, x) || (y == dy
                && self.delta.in_window(y, x) && min_dx <= x <= max_dx)) by {
                if self.delta.min_dy <= y <= self.delta.max_dy && y != dy {
                    assert(self.row(y) == before.row(y));
                }
                if y == dy {
                    let a = before.row(y);
                    let b = self.row(y);
                    assert(b == a.push((lo, hi)));
                    if covered(b, x) {
                        let i = choose|i: int| 0 <= i < b.len() && #[trigger] b[i].0 <= x <= b[i].1;
                        if i < a.len() {
                            assert(a[i] == b[i]);
                        }
                    }
                    if covered(a, x) {
                        let i = choose|i: int| 0 <= i < a.len() && #[trigger] a[i].0 <= x <= a[i].1;
                        assert(b[i] == a[i]);
                    }
                    if lo <= x <= hi {
                        assert(b[a.len() as int] == (lo, hi));
                    }
                }
            }
        }
    }

    /// Adds every interval of `grid`, clipped to the stored range.
    pub fn add_grid(&mut self, grid: &CollisionGrid)
        requires
            old(self).wf(),
            grid.wf(),
        ensures
            final(self).wf(),
            final(self).delta == old(self).delta,
            forall|y: int, x: int| #[trigger] final(self).hits(y, x) <==> (old(self).hits(y, x) || (grid.hits(y, x)
                && final(self).delta.in_window(y, x))),
    {
        let ghost start = *self;
        let height = (grid.delta.max_dy - grid.delta.min_dy + 1) as usize;
        let mut row: usize = 0;
        while row < height
            invariant
                height == grid.delta.height(),
                row <= height,
                grid.wf(),
                self.wf(),
                self.delta == start.delta,
                forall|y: int, x: int| #[trigger] self.hits(y, x) <==> (start.hits(y, x) || (grid.delta.min_dy <= y
                    < grid.delta.min_dy + row && grid.hits(y, x) && self.delta.in_window(y, x))),
            decreases height - row,
        {
            let dy = grid.delta.min_dy + row as i64;
            let begin = grid.row_offsets[row];
            let end = grid.row_offsets[row + 1];
            let all = grid.intervals.as_slice();
            let ivs = &all[begin..end];
            proof {
                assert(ivs@ == grid.row(dy as int));
            }
            let ghost before_row = *self;
            let mut k: usize = 0;
            while k < ivs.len()
                invariant
                    ivs@ == grid.row(dy as int),
                    dy == grid.delta.min_dy + row,
                    k <= ivs@.len(),
                    self.wf(),
                    self.delta == start.delta,
                    forall|y: int, x: int| #[trigger] self.hits(y, x) <==> (before_row.hits(y, x) || (y == dy
                        && covered(ivs@.take(k as int), x) && self.delta.in_window(y, x))),
                decreases ivs@.len() - k,
            {
                let (lo, hi) = ivs[k];
                let ghost mid = *self;
                self.add_x_interval(dy, lo, hi);
                proof {
                    assert forall|y: int, x: int| #[trigger] self.hits(y, x) <==> (before_row.hits(y, x) || (y == dy
                        && covered(ivs@.take(k as int + 1), x) && self.delta.in_window(y, x))) by {
                        let a = ivs@.take(k as int);
                        let b = ivs@.take(k as int + 1);
                        assert(b == a.push((lo, hi)));
                        assert(mid.hits(y, x) == (before_row.hits(y, x) || (y == dy && covered(a, x) && self.delta.in_window(y, x))));
                        if covered(b, x) {
                            let i = choose|i: int| 0 <= i < b.len() && #[trigger] b[i].0 <= x <= b[i].1;
                            if i < a.len() {
                                assert(a[i] == b[i]);
                            }
                        }
                        if covered(a, x) {
                            let i = choose|i: int| 0 <= i < a.len() && #[trigger] a[i].0 <= x <= a[i].1;
                            assert(b[i] == a[i]);
                        }
                        if lo <= x <= hi {
                            assert(b[k as int] == (lo, hi));
                        }
                    }
                }
                k += 1;
            }
            proof {
                assert(ivs@.take(ivs@.len() as int) =~= ivs@);
            }
            row += 1;
        }
    }

    /// Adds every interval of `grid` with both offsets negated: the grid of
    /// the fixed block moving over the moving one.
    pub fn add_reversed_grid(&mut self, grid: &CollisionGrid)
        requires
            old(self).wf(),
            grid.wf(),
        ensures
            final(self).wf(),
            final(self).delta == old(self).delta,
            forall|y: int, x: int| #[trigger] final(self).hits(y, x) <==> (old(self).hits(y, x) || (grid.hits(-y, -x)
                && final(self).delta.in_window(y, x))),
    {
        let ghost start = *self;
        let height = (grid.delta.max_dy - grid.delta.min_dy + 1) as usize;
        let mut row: usize = 0;
        while row < height
            invariant
                height == grid.delta.height(),
                row <= height,
                grid.wf(),
                self.wf(),
                self.delta == start.delta,
                forall|y: int, x: int| #[trigger] self.hits(y, x) <==> (start.hits(y, x) || (grid.delta.min_dy <= -y
                    < grid.delta.min_dy + row && grid.hits(-y, -x) && self.delta.in_window(y, x))),
            decreases height - row,
        {
            let dy = grid.delta.min_dy + row as i64;
            let begin = grid.row_offsets[row];
            let end = grid.row_offsets[row + 1];
            let all = grid.intervals.as_slice();
            let ivs = &all[begin..end];
            proof {
                assert(ivs@ == grid.row(dy as int));
                assert forall|i: int| 0 <= i < ivs@.len() implies grid.delta.min_dx <= #[trigger] ivs@[i].0 && ivs@[i].1 <= grid.delta.max_dx by {
                    assert(ivs@[i] == grid.intervals@[begin as int + i]);
                }
            }
            let ghost before_row = *self;
            let mut k: usize = 0;
            while k < ivs.len()
                invariant
                    ivs@ == grid.row(dy as int),
                    grid.wf(),
                    forall|i: int| 0 <= i < ivs@.len() ==> grid.delta.min_dx <= #[trigger] ivs@[i].0 && ivs@[i].1 <= grid.delta.max_dx,
                    dy == grid.delta.min_dy + row,
                    coord_ok(dy as int),
                    k <= ivs@.len(),
                    self.wf(),
                    self.delta == start.delta,
                    forall|y: int, x: int| #[trigger] self.hits(y, x) <==> (before_row.hits(y, x) || (y == -dy
                        && covered(ivs@.take(k as int), -x) && self.delta.in_window(y, x))),
                decreases ivs@.len() - k,
            {
                let (lo, hi) = ivs[k];
                let ghost mid = *self;
                self.add_x_interval(-dy, -hi, -lo);
                proof {
                    assert forall|y: int, x: int| #[trigger] self.hits(y, x) <==> (before_row.hits(y, x) || (y == -dy
                        && covered(ivs@.take(k as int + 1), -x) && self.delta.in_window(y, x))) by {
                        let a = ivs@.take(k as int);
                        let b = ivs@.take(k as int + 1);
                        assert(b == a.push((lo, hi)));
                        assert(mid.hits(y, x) == (before_row.hits(y, x) || (y == -dy && covered(a, -x) && self.delta.in_window(y, x))));
                        if covered(b, -x) {
                            let i = choose|i: int| 0 <= i < b.len() && #[trigger] b[i].0 <= -x <= b[i].1;
                            if i < a.len() {
                                assert(a[i] == b[i]);
                            }
                        }
                        if covered(a, -x) {
                            let i = choose|i: int| 0 <= i < a.len() && #[trigger] a[i].0 <= -x <= a[i].1;
                            assert(b[i] == a[i]);
                        }
                        if lo <= -x <= hi {
                            assert(b[k as int] == (lo, hi));
                        }
                    }
                }
                k += 1;
            }
            proof {
                assert(ivs@.take(ivs@.len() as int) =~= ivs@);
            }
            row += 1;
        }
    }
}

/// Two sequences with the same multiset hold the same elements.
proof fn lemma_same_elements(a: Seq<Interval>, b: Seq<Interval>)
    requires
        a.to_multiset() == b.to_multiset(),
    ensures
        forall|x: Interval| a.contains(x) <==> b.contains(x),
{
    broadcast use vstd::seq_lib::group_to_multiset_ensures;
    assert forall|x: Interval| a.contains(x) <==> b.contains(x) by {
        assert(a.contains(x) <==> a.to_multiset().count(x) > 0);
        assert(b.contains(x) <==> b.to_multiset().count(x) > 0);
    }
}

impl CollisionGridBuilder {
    /// Sorts and merges each row: the grid hits exactly where the added
    /// intervals do.
    pub fn finish(self) -> (res: CollisionGrid)
        requires
            self.wf(),
        ensures
            res.wf(),
            res.delta == self.delta,
            forall|y: int, x: int| #[trigger] res.hits(y, x) <==> self.hits(y, x),
    {
        let delta = self.delta;
        let ghost orig = self.rows@;
        let mut rows = self.rows;
        let height = rows.len();
        let mut row_offsets: Vec<usize> = Vec::new();
        let mut intervals: Vec<Interval> = Vec::new();
        row_offsets.push(0);
        let mut r: usize = 0;
        while r < height
            invariant
                height == orig.len(),
                height == delta.height(),
                delta.wf(),
                r <= height,
                rows@.len() == height,
                forall|q: int| r <= q < height ==> rows@[q] == orig[q],
                forall|q: int| 0 <= q < height ==> all_nonempty(#[trigger] orig[q]@),
                forall|q: int| 0 <= q < height ==> within_dx(#[trigger] orig[q]@, delta),
                row_offsets@.len() == r + 1,
                row_offsets@[0] == 0,
                forall|i: int, j: int| 0 <= i <= j <= r ==> row_offsets@[i] <= row_offsets@[j],
                row_offsets@[r as int] == intervals@.len(),
                all_nonempty(intervals@),
                within_dx(intervals@, delta),
                forall|q: int| #![trigger row_offsets@[q]] 0 <= q < r ==> {
                    let seg = intervals@.subrange(row_offsets@[q] as int, row_offsets@[q + 1] as int);
                    &&& apart(seg)
                    &&& forall|t: int| covered(seg, t) <==> covered(orig[q]@, t)
                },
            decreases height - r,
        {
            let mut row: Vec<Interval> = Vec::new();
            std::mem::swap(&mut row, &mut rows[r]);
            let ghost unsorted = row@;
            sort_intervals(&mut row);
            let ghost before = intervals@;
            proof {
                assert(unsorted == orig[r as int]@);
                lemma_same_elements(row@, unsorted);
                assert forall|i: int| 0 <= i < row@.len() implies row@[i].0 <= row@[i].1 && delta.min_dx <= #[trigger] row@[i].0
                    && row@[i].1 <= delta.max_dx by {
                    assert(row@.contains(row@[i]));
                    assert(unsorted.contains(row@[i]));
                    let j = choose|j: int| 0 <= j < unsorted.len() && unsorted[j] == row@[i];
                    assert(all_nonempty(orig[r as int]@));
                    assert(within_dx(orig[r as int]@, delta));
                    assert(unsorted[j].0 <= unsorted[j].1);
                    assert(delta.min_dx <= unsorted[j].0);
                }
                assert forall|t: int| covered(row@, t) <==> covered(unsorted, t) by {
                    if covered(row@, t) {
                        let i = choose|i: int| 0 <= i < row@.len() && #[trigger] row@[i].0 <= t <= row@[i].1;
                        assert(row@.contains(row@[i]));
                        let j = choose|j: int| 0 <= j < unsorted.len() && unsorted[j] == row@[i];
                        assert(unsorted[j].0 <= t <= unsorted[j].1);
                    }
                    if covered(unsorted, t) {
                        let j = choose|j: int| 0 <= j < unsorted.len() && #[trigger] unsorted[j].0 <= t <= unsorted[j].1;
                        assert(unsorted.contains(unsorted[j]));
                        let i = choose|i: int| 0 <= i < row@.len() && row@[i] == unsorted[j];
                        assert(row@[i].0 <= t <= row@[i].1);
                    }
                }
            }
            merge_sorted_intervals(row.as_slice(), &mut intervals);
            row_offsets.push(intervals.len());
            proof {
                let s = row@;
                let seg = intervals@.subrange(before.len() as int, intervals@.len() as int);
                assert(seg == intervals@.skip(before.len() as int));
                assert forall|i: int| 0 <= i < intervals@.len() implies intervals@[i].0 <= intervals@[i].1
                    && delta.min_dx <= #[trigger] intervals@[i].0 && intervals@[i].1 <= delta.max_dx by {
                    if i < before.len() {
                        assert(intervals@[i] == intervals@.subrange(0, before.len() as int)[i]);
                        assert(intervals@[i] == before[i]);
                    } else {
                        let m = intervals@.skip(before.len() as int);
                        assert(intervals@[i] == m[i - before.len()]);
                        assert(is_left_end(s, m[i - before.len()].0));
                        assert(is_right_end(s, m[i - before.len()].1));
                        let a = choose|a: int| 0 <= a < s.len() && #[trigger] s[a].0 == m[i - before.len()].0;
                        let b = choose|b: int| 0 <= b < s.len() && #[trigger] s[b].1 == m[i - before.len()].1;
                        assert(delta.min_dx <= s[a].0);
                        assert(s[b].0 <= s[b].1);
                        assert(s[b].1 <= delta.max_dx);
                    }
                }
                assert forall|q: int| #![trigger row_offsets@[q]] 0 <= q < r + 1 implies {
                    let seg_q = intervals@.subrange(row_offsets@[q] as int, row_offsets@[q + 1] as int);
                    &&& apart(seg_q)
                    &&& forall|t: int| covered(seg_q, t) <==> covered(orig[q]@, t)
                } by {
                    if q < r {
                        let lo_q = row_offsets@[q] as int;
                        let hi_q = row_offsets@[q + 1] as int;
                        assert(hi_q <= before.len());
                        assert(intervals@.subrange(lo_q, hi_q) =~= before.subrange(lo_q, hi_q)) by {
                            assert forall|i: int| 0 <= i < hi_q - lo_q implies intervals@.subrange(lo_q, hi_q)[i] == before.subrange(lo_q, hi_q)[i] by {
                                assert(intervals@[lo_q + i] == intervals@.subrange(0, before.len() as int)[lo_q + i]);
                            }
                        }
                    } else {
                        assert(row_offsets@[q] == before.len());
                        assert(row_offsets@[q + 1] == intervals@.len());
                        assert(seg == intervals@.subrange(row_offsets@[q] as int, row_offsets@[q + 1] as int));
                    }
                }
                assert forall|q: int| r + 1 <= q < height implies rows@[q] == orig[q] by {}
            }
            r += 1;
        }
        let res = CollisionGrid { delta, row_offsets, intervals };
        proof {
            assert forall|y: int| #[trigger] apart(res.row(y)) by {
                if delta.min_dy <= y <= delta.max_dy {
                    let q = y - delta.min_dy;
                    assert(res.row_offsets@[q] == res.row_offsets@[q]);
                } else {
                    assert(res.row(y) =~= Seq::<Interval>::empty());
                }
            }
            assert forall|y: int, x: int| #[trigger] res.hits(y, x) <==> self.hits(y, x) by {
                if delta.min_dy <= y <= delta.max_dy {
                    let q = y - delta.min_dy;
                    assert(res.row_offsets@[q] == res.row_offsets@[q]);
                    assert(self.row(y) == orig[q]@);
                }
            }
        }
        res
    }
}

} // verus!
