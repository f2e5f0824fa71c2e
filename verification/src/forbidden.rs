//! Entry times that an already scheduled block forbids to a new block, as a
//! function of which crane directions collide.
use vstd::prelude::*;

use crate::model::{coord_ok, ScheduledBlock};
use crate::window::{covered, all_nonempty, apart, separated, Interval};

verus! {

/// The new block, entering at `t` for `p` steps, shares time with an old
/// block occupying `[a, b)`.
pub open spec fn overlaps(a: int, b: int, p: int, t: int) -> bool {
    t < b && a < t + p
}

/// The new block's stay lies strictly inside the old block's stay.
pub open spec fn new_inside_old(a: int, b: int, p: int, t: int) -> bool {
    a < t && t + p < b
}

/// The old block's stay lies strictly inside the new block's stay.
pub open spec fn old_inside_new(a: int, b: int, p: int, t: int) -> bool {
    t < a && b < t + p
}

/// Entering at `t` is refused: the stays overlap and a crane movement that
/// the time order requires collides. When the new block's stay lies inside
/// the old one's, only the new block moves over the old one; when the old
/// stay lies inside the new one's, only the old block moves over the new
/// one; otherwise both movements happen.
pub open spec fn conflict(a: int, b: int, p: int, t: int, new_old_hit: bool, old_new_hit: bool) -> bool {
    &&& overlaps(a, b, p, t)
    &&& ((!old_inside_new(a, b, p, t) && new_old_hit) || (!new_inside_old(a, b, p, t) && old_new_hit))
}

/// The time data of an old block as seen by a new block with processing
/// time `new_process_time`, restricted to the window of entry times.
#[derive(Clone, Copy, Debug)]
pub struct OldTimeInfo {
    pub old_entry_time: i64,
    pub old_exit_time: i64,
    pub new_process_time: i64,
    pub overlap_entry_time_min: i64,
    pub overlap_entry_time_max: i64,
}

/// `info` describes the entry times in `[min_t, max_t]` at which a new block
/// of processing time `p` overlaps the old stay `[a, b)`.
pub open spec fn info_matches(info: OldTimeInfo, a: int, b: int, p: int, min_t: int, max_t: int) -> bool {
    &&& info.old_entry_time == a
    &&& info.old_exit_time == b
    &&& info.new_process_time == p
    &&& info.overlap_entry_time_min == if a - p + 1 >= min_t { a - p + 1 } else { min_t }
    &&& info.overlap_entry_time_max == if b - 1 <= max_t { b - 1 } else { max_t }
    &&& info.overlap_entry_time_min <= info.overlap_entry_time_max
}

/// The fields of `info` stay within the coordinate limit and its range is
/// the overlapping part of a window.
pub open spec fn info_wf(info: OldTimeInfo) -> bool {
    let a = info.old_entry_time as int;
    let b = info.old_exit_time as int;
    let p = info.new_process_time as int;
    &&& coord_ok(a)
    &&& coord_ok(b)
    &&& coord_ok(p)
    &&& a - p + 1 <= info.overlap_entry_time_min
    &&& info.overlap_entry_time_min <= info.overlap_entry_time_max
    &&& info.overlap_entry_time_max <= b - 1
}

/// Overlap data of `old` for a new block of processing time `process_t`
/// entering within `[min_t, max_t]`; `None` when no entry time of the
/// window overlaps the old stay.
pub fn old_time_info(old: ScheduledBlock, process_t: i64, min_t: i64, max_t: i64) -> (res: Option<OldTimeInfo>)
    requires
        coord_ok(old.entry_time as int),
        coord_ok(old.exit_time as int),
        coord_ok(process_t as int),
    ensures
        match res {
            Some(info) => {
                &&& info_matches(info, old.entry_time as int, old.exit_time as int, process_t as int, min_t as int, max_t as int)
                &&& info_wf(info)
            },
            None => forall|t: int| min_t <= t <= max_t ==> !overlaps(old.entry_time as int, old.exit_time as int, process_t as int, t),
        },
{
    let a = old.entry_time;
    let b = old.exit_time;
    let lo = a - process_t + 1;
    let ol = if lo >= min_t { lo } else { min_t };
    let hi = b - 1;
    let or = if hi <= max_t { hi } else { max_t };
    if ol <= or {
        Some(OldTimeInfo {
            old_entry_time: a,
            old_exit_time: b,
            new_process_time: process_t,
            overlap_entry_time_min: ol,
            overlap_entry_time_max: or,
        })
    } else {
        None
    }
}

/// At most two intervals, kept in a fixed array.
#[derive(Clone, Copy, Debug)]
pub struct IntervalSet {
    pub intervals: [Interval; 2],
    pub len: u8,
}

impl IntervalSet {
    pub open spec fn wf(&self) -> bool {
        self.len <= 2
    }

    /// The intervals held, in order.
    pub open spec fn view(&self) -> Seq<Interval> {
        self.intervals@.subrange(0, self.len as int)
    }

    /// The empty set.
    pub fn empty() -> (res: Self)
        ensures
            res.wf(),
            res.view().len() == 0,
    {
        IntervalSet { intervals: [(0, 0), (0, 0)], len: 0 }
    }

    /// Appends one interval.
    pub fn push(&mut self, interval: Interval)
        requires
            old(self).wf(),
            old(self).len < 2,
        ensures
            final(self).wf(),
            final(self).view() == old(self).view().push(interval),
    {
        let ghost before = self.view();
        let idx = self.len as usize;
        self.intervals[idx] = interval;
        self.len = self.len + 1;
        assert(self.view() =~= before.push(interval));
    }

    /// The intervals held, as a slice.
    pub fn as_slice(&self) -> (res: &[Interval])
        requires
            self.wf(),
        ensures
            res@ == self.view(),
    {
        let all = self.intervals.as_slice();
        &all[0..self.len as usize]
    }
}

impl Default for IntervalSet {
    fn default() -> (res: Self)
        ensures
            res.wf(),
            res.view().len() == 0,
    {
        IntervalSet::empty()
    }
}

/// The entry times of the overlap range `[ol, or]` left allowed when only
/// one crane movement collides: with the new block's stay inside the old
/// one's when only old-over-new collides, with the old stay inside the new
/// one's when only new-over-old collides.
pub open spec fn allowed_window(info: OldTimeInfo, new_old_hit: bool) -> (int, int) {
    let a = info.old_entry_time as int;
    let b = info.old_exit_time as int;
    let p = info.new_process_time as int;
    let ol = info.overlap_entry_time_min as int;
    let or = info.overlap_entry_time_max as int;
    let (l0, r0) = if !new_old_hit { (a + 1, b - p - 1) } else { (b - p + 1, a - 1) };
    (if l0 >= ol { l0 } else { ol }, if r0 <= or { r0 } else { or })
}

/// The forbidden entry times as intervals: none without a collision, the
/// whole overlap range with both, and otherwise the overlap range with the
/// allowed window cut out (the parts before and after it that are left).
pub open spec fn forbidden_intervals(info: OldTimeInfo, new_old_hit: bool, old_new_hit: bool) -> Seq<Interval> {
    let ol = info.overlap_entry_time_min;
    let or = info.overlap_entry_time_max;
    if !new_old_hit && !old_new_hit {
        Seq::empty()
    } else if new_old_hit && old_new_hit {
        seq![(ol, or)]
    } else {
        let (l, r) = allowed_window(info, new_old_hit);
        if l > r {
            seq![(ol, or)]
        } else {
            (if ol < l { seq![(ol, (l - 1) as i64)] } else { Seq::empty() })
                + (if r < or { seq![((r + 1) as i64, or)] } else { Seq::empty() })
        }
    }
}

/// The entry times of `[ol, or]` that the old block forbids, given whether
/// the new-over-old and old-over-new crane movements collide.
pub fn forbidden_interval_set(info: OldTimeInfo, new_old_hit: bool, old_new_hit: bool) -> (result: IntervalSet)
    requires
        info_wf(info),
    ensures
        result.wf(),
        result.view() == forbidden_intervals(info, new_old_hit, old_new_hit),
        all_nonempty(result.view()),
        separated(result.view()),
        apart(result.view()),
        forall|t: int| #![trigger covered(result.view(), t)]
            covered(result.view(), t) <==> (info.overlap_entry_time_min <= t <= info.overlap_entry_time_max
                && conflict(info.old_entry_time as int, info.old_exit_time as int, info.new_process_time as int, t, new_old_hit, old_new_hit)),
{
    let ghost a = info.old_entry_time as int;
    let ghost b = info.old_exit_time as int;
    let ghost p = info.new_process_time as int;
    let mut result = IntervalSet::empty();
    let new_old_clear = !new_old_hit;
    let old_new_clear = !old_new_hit;
    let ol = info.overlap_entry_time_min;
    let or = info.overlap_entry_time_max;
    if new_old_clear && old_new_clear {
        return result;
    }
    if !new_old_clear && !old_new_clear {
        result.push((ol, or));
        assert(result.view()[0] == (ol, or));
        assert forall|t: int| #![trigger covered(result.view(), t)]
            covered(result.view(), t) <==> (ol <= t <= or && conflict(a, b, p, t, new_old_hit, old_new_hit)) by {
            if ol <= t <= or {
                assert(result.view()[0].0 <= t <= result.view()[0].1);
            }
        }
        return result;
    }
    let (allow_l, allow_r) = if new_old_clear {
        let l0 = info.old_entry_time + 1;
        let r0 = info.old_exit_time - info.new_process_time - 1;
        (if l0 >= ol { l0 } else { ol }, if r0 <= or { r0 } else { or })
    } else {
        let l0 = info.old_exit_time - info.new_process_time + 1;
        let r0 = info.old_entry_time - 1;
        (if l0 >= ol { l0 } else { ol }, if r0 <= or { r0 } else { or })
    };
    if allow_l > allow_r {
        result.push((ol, or));
        assert(result.view()[0] == (ol, or));
        assert forall|t: int| #![trigger covered(result.view(), t)]
            covered(result.view(), t) <==> (ol <= t <= or && conflict(a, b, p, t, new_old_hit, old_new_hit)) by {
            if ol <= t <= or {
                assert(result.view()[0].0 <= t <= result.view()[0].1);
            }
        }
        return result;
    }
    assert(result.view().len() == 0);
    if ol < allow_l {
        result.push((ol, allow_l - 1));
    }
    let ghost first = result.view();
    assert(result.view().len() <= 1);
    if allow_r < or {
        result.push((allow_r + 1, or));
    }
    proof {
        let lefts = if ol < allow_l { seq![(ol, (allow_l - 1) as i64)] } else { Seq::<Interval>::empty() };
        let rights = if allow_r < or { seq![((allow_r + 1) as i64, or)] } else { Seq::<Interval>::empty() };
        assert(first =~= lefts);
        assert(result.view() =~= lefts + rights);
    }
    assert forall|t: int| #![trigger covered(result.view(), t)]
        covered(result.view(), t) <==> (ol <= t <= or && conflict(a, b, p, t, new_old_hit, old_new_hit)) by {
        if ol <= t <= or && conflict(a, b, p, t, new_old_hit, old_new_hit) {
            if t < allow_l {
                assert(result.view()[0] == (ol, (allow_l - 1) as i64));
                assert(result.view()[0].0 <= t <= result.view()[0].1);
            } else {
                let k = result.view().len() - 1;
                assert(result.view()[k] == ((allow_r + 1) as i64, or));
                assert(result.view()[k].0 <= t <= result.view()[k].1);
            }
        }
    }
    result
}

} // verus!
