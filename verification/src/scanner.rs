//! The x-sweep that places a new block in a bay row by row: for a fixed
//! orientation and y, it walks the x positions where a crane collision with
//! an old block starts or ends, keeps per old block the hit state of both
//! crane movements, and at each such x reports the earliest entry time that
//! no old block forbids.
use vstd::prelude::*;

use crate::collision::{fit_range_ok, BlockOrient, CollisionPrecompute, OrientPairCollision};
use crate::events::{
    apply_x_event, counting_sort_x_events, hit_state_index, interval_events, push_x_event, sorted_by_offset, HitState,
    XEvent,
};
use crate::forbidden::{conflict, info_matches, info_wf, old_time_info, overlaps, OldTimeInfo};
use crate::grid::CollisionGrid;
use crate::model::{coord_ok, placed_ok, Boundsi, Problem, ScheduledBlock, COORD_LIMIT};
use crate::slot_table::{build_forbidden_slot_precompute, precompute_matches, state_forbids, ForbiddenSlotPrecompute};
use crate::slots::ActiveIntervalSlots;
use crate::sweep::{changes_at, edge_event, edge_events, hit_at, mirrored, push_row_events, shifted};
use crate::slots::ForbiddenIntervals;
use crate::trace::{ranks_before, sort_blockers, PlacementBlocker, PlacementTrace};
use crate::window::{covered, is_first_free, Interval};

verus! {

/// One scanned x position and the earliest entry time there that no old
/// block forbids.
#[derive(Clone, Copy, Debug, PartialEq, Eq, Structural)]
pub struct XScan {
    pub x: i64,
    pub entry_time: Option<i64>,
}

/// What `old_time_info` gives for `old`.
pub open spec fn info_for(info: Option<OldTimeInfo>, old: ScheduledBlock, p: int, min_t: int, max_t: int) -> bool {
    match info {
        Some(i) => info_matches(i, old.entry_time as int, old.exit_time as int, p, min_t, max_t) && info_wf(i),
        None => forall|t: int| min_t <= t <= max_t ==> !overlaps(old.entry_time as int, old.exit_time as int, p, t),
    }
}

/// State of the placement of one block in one bay against the blocks
/// already scheduled there, with buffers reused from one row to the next.
pub struct PlacementXScanner<'a> {
    pub pre: &'a CollisionPrecompute,
    pub block_id: usize,
    pub bay_id: usize,
    pub process_t: i64,
    pub min_t: i64,
    pub max_t: i64,
    pub bay_old_blocks: Vec<ScheduledBlock>,
    pub old_time_infos: Vec<Option<OldTimeInfo>>,
    pub forbidden_slots: ForbiddenSlotPrecompute,
    pub active_slots: ActiveIntervalSlots,
    pub events: Vec<XEvent>,
    pub event_sort_scratch: Vec<XEvent>,
    pub event_counts: Vec<usize>,
    pub states: Vec<HitState>,
    pub event_group_seen: Vec<u64>,
    pub event_group_generation: u64,
    pub touched_old_ids: Vec<usize>,
    pub crane_pair_cache: Vec<Option<(&'a OrientPairCollision, &'a OrientPairCollision)>>,
    pub prepared_orient_idx: Option<usize>,
}

impl<'a> PlacementXScanner<'a> {
    pub open spec fn n_old(&self) -> int {
        self.bay_old_blocks@.len() as int
    }

    /// The published grids of the new orientation over old block `o` and of
    /// `o` over the new orientation, when both exist.
    pub open spec fn pair_grids(&self, orient_idx: int, o: int) -> Option<(CollisionGrid, CollisionGrid)> {
        let old = self.bay_old_blocks@[o];
        let new_orient = BlockOrient { block_id: self.block_id, orient_idx: orient_idx as usize };
        let old_orient = BlockOrient { block_id: old.block_id, orient_idx: old.orient_idx };
        match (self.pre.crane_grid(new_orient, old_orient), self.pre.crane_grid(old_orient, new_orient)) {
            (Some(a), Some(b)) => Some((a, b)),
            _ => None,
        }
    }

    /// With the new block at `(x, y)`, its crane movement over old block
    /// `o` collides (`k == 0`), or that of `o` over it does (`k == 1`).
    pub open spec fn crane_hit(&self, orient_idx: int, o: int, k: int, x: int, y: int) -> bool {
        let old = self.bay_old_blocks@[o];
        match self.pair_grids(orient_idx, o) {
            Some((a, b)) => if k == 0 {
                a.hits(old.y - y, old.x - x)
            } else {
                b.hits(y - old.y, x - old.x)
            },
            None => false,
        }
    }

    /// Entering at `t` with the new block at `(x, y)` conflicts with old
    /// block `o`.
    pub open spec fn conflicts(&self, orient_idx: int, o: int, x: int, y: int, t: int) -> bool {
        let old = self.bay_old_blocks@[o];
        conflict(old.entry_time as int, old.exit_time as int, self.process_t as int, t,
            self.crane_hit(orient_idx, o, 0, x, y), self.crane_hit(orient_idx, o, 1, x, y))
    }

    /// Some old block of the bay forbids entering at `t` with the new block
    /// at `(x, y)`.
    pub open spec fn blocked(&self, orient_idx: int, x: int, y: int, t: int) -> bool {
        exists|o: int| 0 <= o < self.n_old() && #[trigger] self.conflicts(orient_idx, o, x, y, t)
    }

    /// The hit state index of old block `o` with the new block at `(x, y)`:
    /// bit 0 for a new-over-old hit, bit 1 for an old-over-new hit; zero for
    /// old blocks without overlap data.
    pub open spec fn hit_state(&self, oi: int, o: int, x: int, y: int) -> int {
        if self.old_time_infos@[o] is Some {
            (if self.crane_hit(oi, o, 0, x, y) { 1int } else { 0int }) + (if self.crane_hit(oi, o, 1, x, y) { 2int } else { 0int })
        } else {
            0
        }
    }

    /// The crane cache holds, for each old block with overlap data, the
    /// published grids of both directions for orientation `oi`.
    pub open spec fn cache_ok(&self, oi: int) -> bool {
        &&& self.crane_pair_cache@.len() == self.n_old()
        &&& forall|o: int| 0 <= o < self.n_old() ==> match #[trigger] self.crane_pair_cache@[o] {
            Some((a, b)) => {
                &&& self.old_time_infos@[o] is Some
                &&& self.pair_grids(oi, o) == Some((a.crane, b.crane))
                &&& a.crane.wf()
                &&& b.crane.wf()
            },
            None => self.old_time_infos@[o] is None || self.pair_grids(oi, o) is None,
        }
    }

    /// The data fixed at construction: overlap data of each old block, the
    /// slot numbering of their forbidden intervals, and the crane cache of
    /// the prepared orientation.
    pub open spec fn core_wf(&self) -> bool {
        &&& self.pre.wf()
        &&& self.min_t <= self.max_t
        &&& coord_ok(self.min_t as int)
        &&& coord_ok(self.process_t as int)
        &&& self.n_old() * 8 <= u32::MAX
        &&& self.old_time_infos@.len() == self.n_old()
        &&& forall|o: int| 0 <= o < self.n_old() ==> placed_ok(#[trigger] self.bay_old_blocks@[o])
        &&& forall|o: int| 0 <= o < self.n_old() ==> info_for(#[trigger] self.old_time_infos@[o], self.bay_old_blocks@[o],
            self.process_t as int, self.min_t as int, self.max_t as int)
        &&& precompute_matches(&self.forbidden_slots, self.old_time_infos@)
        &&& match self.prepared_orient_idx {
            Some(oi) => self.cache_ok(oi as int),
            None => true,
        }
    }

    pub open spec fn wf(&self) -> bool {
        &&& self.core_wf()
        &&& self.states@.len() == self.n_old()
        &&& self.event_group_seen@.len() == self.n_old()
        &&& self.active_slots.wf()
        &&& self.active_slots.capacity() >= self.forbidden_slots.intervals@.len()
        &&& forall|o: int| 0 <= o < self.n_old() ==> #[trigger] self.event_group_seen@[o] <= self.event_group_generation
    }

    /// A scanner for placing `block_id` into `bay_id` with an entry time in
    /// `[max(release_time, min_entry_time), max_entry_time]`; `None` when
    /// that window is empty.
    pub fn new(
        problem: &Problem,
        pre: &'a CollisionPrecompute,
        schedule: &[ScheduledBlock],
        block_id: usize,
        bay_id: usize,
        min_entry_time: i64,
        max_entry_time: i64,
    ) -> (res: Option<Self>)
        requires
            pre.wf(),
            block_id < problem.blocks@.len(),
            coord_ok(problem.blocks@[block_id as int].release_time as int),
            coord_ok(problem.blocks@[block_id as int].processing_time as int),
            coord_ok(min_entry_time as int),
            schedule@.len() * 8 <= u32::MAX,
            schedule@.len() * 8 < usize::MAX / 64,
            forall|i: int| 0 <= i < schedule@.len() ==> placed_ok(#[trigger] schedule@[i]),
        ensures
            match res {
                Some(s) => {
                    let block = problem.blocks@[block_id as int];
                    &&& s.wf()
                    &&& s.pre == pre
                    &&& s.block_id == block_id
                    &&& s.bay_id == bay_id
                    &&& s.process_t == block.processing_time
                    &&& s.min_t == (if block.release_time >= min_entry_time { block.release_time } else { min_entry_time })
                    &&& s.max_t == max_entry_time
                    &&& s.bay_old_blocks@ == schedule@.filter(|b: ScheduledBlock| b.bay_id == bay_id)
                    &&& s.prepared_orient_idx is None
                },
                None => problem.blocks@[block_id as int].release_time > max_entry_time
                    || min_entry_time > max_entry_time,
            },
    {
        let block = &problem.blocks[block_id];
        let process_t = block.processing_time;
        let min_t = if block.release_time >= min_entry_time { block.release_time } else { min_entry_time };
        let max_t = max_entry_time;
        if min_t > max_t {
            return None;
        }
        let ghost pred = |b: ScheduledBlock| b.bay_id == bay_id;
        let mut bay_old_blocks: Vec<ScheduledBlock> = Vec::new();
        let mut i: usize = 0;
        while i < schedule.len()
            invariant
                i <= schedule@.len(),
                pred == (|b: ScheduledBlock| b.bay_id == bay_id),
                bay_old_blocks@ == schedule@.take(i as int).filter(pred),
                bay_old_blocks@.len() <= i,
                i <= schedule@.len(),
                forall|q: int| 0 <= q < schedule@.len() ==> placed_ok(#[trigger] schedule@[q]),
                forall|q: int| 0 <= q < bay_old_blocks@.len() ==> placed_ok(#[trigger] bay_old_blocks@[q]),
            decreases schedule@.len() - i,
        {
            let old = schedule[i];
            proof {
                assert(schedule@.take(i as int + 1).drop_last() =~= schedule@.take(i as int));
                assert(schedule@.take(i as int + 1).last() == old);
            }
            if old.bay_id == bay_id {
                bay_old_blocks.push(old);
            }
            proof {
                let s1 = schedule@.take(i as int + 1);
                reveal(Seq::filter);
                assert(s1.filter(pred) == if pred(s1.last()) { s1.drop_last().filter(pred).push(s1.last()) } else { s1.drop_last().filter(pred) });
            }
            i += 1;
        }
        proof {
            assert(schedule@.take(schedule@.len() as int) =~= schedule@);
        }
        let n = bay_old_blocks.len();
        let mut old_time_infos: Vec<Option<OldTimeInfo>> = Vec::new();
        let mut i: usize = 0;
        while i < n
            invariant
                i <= n,
                n == bay_old_blocks@.len(),
                old_time_infos@.len() == i,
                n * 8 <= u32::MAX,
                n * 8 < usize::MAX / 64,
                coord_ok(process_t as int),
                forall|q: int| 0 <= q < n ==> placed_ok(#[trigger] bay_old_blocks@[q]),
                forall|q: int| 0 <= q < i ==> info_for(#[trigger] old_time_infos@[q], bay_old_blocks@[q],
                    process_t as int, min_t as int, max_t as int),
            decreases n - i,
        {
            let info = old_time_info(bay_old_blocks[i], process_t, min_t, max_t);
            old_time_infos.push(info);
            i += 1;
        }
        proof {
            assert forall|o: int| 0 <= o < old_time_infos@.len() implies match #[trigger] old_time_infos@[o] {
                Some(info) => info_wf(info),
                None => true,
            } by {
                assert(info_for(old_time_infos@[o], bay_old_blocks@[o], process_t as int, min_t as int, max_t as int));
            }
        }
        let forbidden_slots = build_forbidden_slot_precompute(old_time_infos.as_slice());
        let active_slots = ActiveIntervalSlots::new(forbidden_slots.intervals.len());
        let mut states: Vec<HitState> = Vec::new();
        let mut event_group_seen: Vec<u64> = Vec::new();
        let mut i: usize = 0;
        while i < n
            invariant
                i <= n,
                states@.len() == i,
                event_group_seen@.len() == i,
                forall|q: int| 0 <= q < i ==> #[trigger] event_group_seen@[q] == 0,
            decreases n - i,
        {
            states.push(HitState::zero());
            event_group_seen.push(0);
            i += 1;
        }
        Some(PlacementXScanner {
            pre,
            block_id,
            bay_id,
            process_t,
            min_t,
            max_t,
            bay_old_blocks,
            old_time_infos,
            active_slots,
            forbidden_slots,
            events: Vec::new(),
            event_sort_scratch: Vec::new(),
            event_counts: Vec::new(),
            states,
            event_group_seen,
            event_group_generation: 0,
            touched_old_ids: Vec::new(),
            crane_pair_cache: Vec::new(),
            prepared_orient_idx: None,
        })
    }
}

/// The count step of a crane movement: 1 for new-over-old, 2 for
/// old-over-new.
pub open spec fn unit(k: int) -> int {
    if k == 0 { 1 } else { 2 }
}

/// The crane movement an event update belongs to.
pub open spec fn kind_of(update: i8) -> int {
    if update == 1 || update == -1 { 0 } else { 1 }
}

/// The sweep window `[min_x, max_x]` fits the coordinate limit and the
/// 32-bit offsets.
pub open spec fn window_ok(min_x: int, max_x: int) -> bool {
    &&& coord_ok(min_x)
    &&& coord_ok(max_x)
    &&& min_x <= max_x
    &&& max_x - min_x + 2 <= u32::MAX
}

impl<'a> PlacementXScanner<'a> {
    /// At offset `off` of the window `[lo, hi]`, crane movement `k` between
    /// the new block (orientation `oi`, row `y`) and old block `o` collides;
    /// old blocks without overlap data never count.
    pub open spec fn ind(&self, oi: int, y: int, lo: int, hi: int, o: int, k: int, off: int) -> bool {
        &&& 0 <= o < self.n_old()
        &&& self.old_time_infos@[o] is Some
        &&& 0 <= off <= hi - lo
        &&& self.crane_hit(oi, o, k, lo + off, y)
    }

    /// The event that records the change of that indicator at `off`.
    pub open spec fn change_event(&self, oi: int, y: int, lo: int, hi: int, o: int, k: int, off: int) -> XEvent {
        XEvent {
            x_offset: off as u32,
            old_idx: o as u32,
            update: (if self.ind(oi, y, lo, hi, o, k, off) { unit(k) } else { -unit(k) }) as i8,
        }
    }

    /// `e` records a change of a hit indicator.
    pub open spec fn event_ok(&self, oi: int, y: int, lo: int, hi: int, e: XEvent) -> bool {
        let o = e.old_idx as int;
        let k = kind_of(e.update);
        let off = e.x_offset as int;
        &&& e.update == 1 || e.update == -1 || e.update == 2 || e.update == -2
        &&& 0 <= o < self.n_old()
        &&& off <= hi - lo + 1
        &&& self.ind(oi, y, lo, hi, o, k, off) != self.ind(oi, y, lo, hi, o, k, off - 1)
        &&& e == self.change_event(oi, y, lo, hi, o, k, off)
    }

    /// `evs` holds, once each, the change events of the indicators of the
    /// (old block, movement) keys `2 * o + k` below `d`, and nothing else.
    pub open spec fn events_char(&self, oi: int, y: int, lo: int, hi: int, evs: Seq<XEvent>, d: int) -> bool {
        &&& forall|i: int| 0 <= i < evs.len() ==> self.event_ok(oi, y, lo, hi, #[trigger] evs[i])
            && 2 * (evs[i].old_idx as int) + kind_of(evs[i].update) < d
        &&& evs.no_duplicates()
        &&& forall|o: int, k: int, off: int| 0 <= o < self.n_old() && 0 <= k < 2 && 2 * o + k < d && 0 <= off <= hi - lo + 1
            && #[trigger] self.ind(oi, y, lo, hi, o, k, off) != self.ind(oi, y, lo, hi, o, k, off - 1)
            ==> evs.contains(self.change_event(oi, y, lo, hi, o, k, off))
    }

    proof fn lemma_extend_events(&self, oi: int, y: int, lo: int, hi: int, u: Seq<XEvent>, a: Seq<XEvent>, o: int, k: int, s: Seq<Interval>)
        requires
            self.events_char(oi, y, lo, hi, u, 2 * o + k),
            0 <= o < self.n_old(),
            self.n_old() <= u32::MAX,
            0 <= k < 2,
            lo <= hi,
            hi - lo + 2 <= u32::MAX,
            edge_events(a, s, lo, hi, o, unit(k)),
            forall|off: int| #[trigger] hit_at(s, lo, hi, off) == self.ind(oi, y, lo, hi, o, k, off),
        ensures
            self.events_char(oi, y, lo, hi, u + a, 2 * o + k + 1),
    {
        let v = u + a;
        assert forall|i: int| 0 <= i < a.len() implies self.event_ok(oi, y, lo, hi, #[trigger] a[i])
            && 2 * (a[i].old_idx as int) + kind_of(a[i].update) == 2 * o + k by {
            let off = a[i].x_offset as int;
            assert(hit_at(s, lo, hi, off) == self.ind(oi, y, lo, hi, o, k, off));
            assert(hit_at(s, lo, hi, off - 1) == self.ind(oi, y, lo, hi, o, k, off - 1));
            assert(changes_at(s, lo, hi, off));
            assert(a[i] == edge_event(s, lo, hi, o, unit(k), off));
        }
        assert forall|i: int| 0 <= i < v.len() implies self.event_ok(oi, y, lo, hi, #[trigger] v[i])
            && 2 * (v[i].old_idx as int) + kind_of(v[i].update) < 2 * o + k + 1 by {
            if i < u.len() {
                assert(v[i] == u[i]);
            } else {
                assert(v[i] == a[i - u.len()]);
            }
        }
        assert(v.no_duplicates()) by {
            assert forall|p: int, q: int| 0 <= p < v.len() && 0 <= q < v.len() && p != q implies v[p] != v[q] by {
                if p < u.len() && q < u.len() {
                    assert(v[p] == u[p] && v[q] == u[q]);
                } else if p >= u.len() && q >= u.len() {
                    assert(v[p] == a[p - u.len()] && v[q] == a[q - u.len()]);
                } else if p < u.len() {
                    assert(v[p] == u[p] && v[q] == a[q - u.len()]);
                    assert(2 * (u[p].old_idx as int) + kind_of(u[p].update) < 2 * o + k);
                } else {
                    assert(v[q] == u[q] && v[p] == a[p - u.len()]);
                    assert(2 * (u[q].old_idx as int) + kind_of(u[q].update) < 2 * o + k);
                }
            }
        }
        assert forall|o2: int, k2: int, off: int| 0 <= o2 < self.n_old() && 0 <= k2 < 2 && 2 * o2 + k2 < 2 * o + k + 1
            && 0 <= off <= hi - lo + 1
            && #[trigger] self.ind(oi, y, lo, hi, o2, k2, off) != self.ind(oi, y, lo, hi, o2, k2, off - 1)
            implies v.contains(self.change_event(oi, y, lo, hi, o2, k2, off)) by {
            let e = self.change_event(oi, y, lo, hi, o2, k2, off);
            if 2 * o2 + k2 < 2 * o + k {
                assert(u.contains(e));
                let i = choose|i: int| 0 <= i < u.len() && u[i] == e;
                assert(v[i] == e);
            } else {
                assert(o2 == o && k2 == k);
                assert(hit_at(s, lo, hi, off) == self.ind(oi, y, lo, hi, o, k, off));
                assert(hit_at(s, lo, hi, off - 1) == self.ind(oi, y, lo, hi, o, k, off - 1));
                assert(changes_at(s, lo, hi, off));
                assert(a.contains(edge_event(s, lo, hi, o, unit(k), off)));
                assert(edge_event(s, lo, hi, o, unit(k), off) == e);
                let i = choose|i: int| 0 <= i < a.len() && a[i] == e;
                assert(v[u.len() + i] == e);
            }
        }
    }

    proof fn lemma_skip_key(&self, oi: int, y: int, lo: int, hi: int, u: Seq<XEvent>, o: int, k: int)
        requires
            self.events_char(oi, y, lo, hi, u, 2 * o + k),
            0 <= k < 2,
            forall|off: int| !#[trigger] self.ind(oi, y, lo, hi, o, k, off),
        ensures
            self.events_char(oi, y, lo, hi, u, 2 * o + k + 1),
    {
        assert forall|o2: int, k2: int, off: int| 0 <= o2 < self.n_old() && 0 <= k2 < 2 && 2 * o2 + k2 < 2 * o + k + 1
            && 0 <= off <= hi - lo + 1
            && #[trigger] self.ind(oi, y, lo, hi, o2, k2, off) != self.ind(oi, y, lo, hi, o2, k2, off - 1)
            implies u.contains(self.change_event(oi, y, lo, hi, o2, k2, off)) by {
            if 2 * o2 + k2 == 2 * o + k {
                assert(o2 == o && k2 == k);
                assert(!self.ind(oi, y, lo, hi, o, k, off - 1));
            }
        }
    }

    /// The rows of a grid hold coordinates within the limit.
    proof fn lemma_row_coords(g: CollisionGrid, dy: int)
        requires
            g.wf(),
        ensures
            forall|j: int| 0 <= j < g.row(dy).len() ==> coord_ok(#[trigger] g.row(dy)[j].0 as int) && coord_ok(g.row(dy)[j].1 as int),
            crate::window::apart(g.row(dy)),
            crate::window::all_nonempty(g.row(dy)),
    {
        if g.delta.min_dy <= dy <= g.delta.max_dy {
            let r = dy - g.delta.min_dy;
            let b = g.row_offsets@[r] as int;
            let e = g.row_offsets@[r + 1] as int;
            assert(b <= e <= g.intervals@.len());
            assert forall|j: int| 0 <= j < g.row(dy).len() implies coord_ok(#[trigger] g.row(dy)[j].0 as int) && coord_ok(g.row(dy)[j].1 as int) by {
                assert(g.row(dy)[j] == g.intervals@[b + j]);
                assert(g.delta.min_dx <= g.intervals@[b + j].0);
            }
            assert forall|j: int| 0 <= j < g.row(dy).len() implies g.row(dy)[j].0 <= g.row(dy)[j].1 by {
                assert(g.row(dy)[j] == g.intervals@[b + j]);
            }
        }
        assert(crate::window::apart(g.row(dy)));
    }

    /// Collects the sweep events of all old blocks at row `y`.
    fn build_events(&self, oi: usize, y: i64, min_x: i64, max_x: i64, events: &mut Vec<XEvent>)
        requires
            self.core_wf(),
            self.prepared_orient_idx == Some(oi),
            coord_ok(y as int),
            window_ok(min_x as int, max_x as int),
            old(events)@.len() == 0,
        ensures
            self.events_char(oi as int, y as int, min_x as int, max_x as int, final(events)@, 2 * self.n_old()),
    {
        let n = self.bay_old_blocks.len();
        let ghost lo = min_x as int;
        let ghost hi = max_x as int;
        let mut o: usize = 0;
        while o < n
            invariant
                self.core_wf(),
                self.prepared_orient_idx == Some(oi),
                n == self.n_old(),
                o <= n,
                coord_ok(y as int),
                window_ok(min_x as int, max_x as int),
                lo == min_x,
                hi == max_x,
                self.events_char(oi as int, y as int, lo, hi, events@, 2 * o),
            decreases n - o,
        {
            let old = self.bay_old_blocks[o];
            proof {
                assert(placed_ok(self.bay_old_blocks@[o as int]));
                assert(self.cache_ok(oi as int));
            }
            let pairs = self.crane_pair_cache[o];
            match pairs {
                Some((new_old_pair, old_new_pair)) => {
                    let ghost a = new_old_pair.crane;
                    let ghost b = old_new_pair.crane;
                    let ghost u0 = events@;
                    let row = new_old_pair.crane.dx_intervals(old.y - y);
                    proof {
                        Self::lemma_row_coords(a, old.y - y);
                    }
                    push_row_events(row, old.x, true, o, 1, min_x, max_x, events);
                    proof {
                        let s = mirrored(row@, old.x as int);
                        assert forall|off: int| #[trigger] hit_at(s, lo, hi, off) == self.ind(oi as int, y as int, lo, hi, o as int, 0, off) by {
                            crate::sweep::lemma_mirrored_covered(row@, old.x as int, lo + off);
                        }
                        let a0 = events@.skip(u0.len() as int);
                        assert(events@ =~= u0 + a0) by {
                            assert(events@.subrange(0, u0.len() as int) == u0);
                        }
                        self.lemma_extend_events(oi as int, y as int, lo, hi, u0, a0, o as int, 0, s);
                    }
                    let ghost u1 = events@;
                    let row2 = old_new_pair.crane.dx_intervals(y - old.y);
                    proof {
                        Self::lemma_row_coords(b, y - old.y);
                    }
                    push_row_events(row2, old.x, false, o, 2, min_x, max_x, events);
                    proof {
                        let s = shifted(row2@, old.x as int);
                        assert forall|off: int| #[trigger] hit_at(s, lo, hi, off) == self.ind(oi as int, y as int, lo, hi, o as int, 1, off) by {
                            crate::sweep::lemma_shifted_covered(row2@, old.x as int, lo + off);
                        }
                        let a1 = events@.skip(u1.len() as int);
                        assert(events@ =~= u1 + a1) by {
                            assert(events@.subrange(0, u1.len() as int) == u1);
                        }
                        self.lemma_extend_events(oi as int, y as int, lo, hi, u1, a1, o as int, 1, s);
                    }
                },
                None => {
                    proof {
                        assert forall|off: int| !#[trigger] self.ind(oi as int, y as int, lo, hi, o as int, 0, off) by {}
                        self.lemma_skip_key(oi as int, y as int, lo, hi, events@, o as int, 0);
                        assert forall|off: int| !#[trigger] self.ind(oi as int, y as int, lo, hi, o as int, 1, off) by {}
                        self.lemma_skip_key(oi as int, y as int, lo, hi, events@, o as int, 1);
                    }
                },
            }
            o += 1;
        }
    }
}

/// The number of open collision intervals of movement `k` in `st`.
pub open spec fn count_of(st: HitState, k: int) -> int {
    if k == 0 { st.new_old as int } else { st.old_new as int }
}

/// The index of `st` among the four hit states.
pub open spec fn state_index(st: HitState) -> int {
    (if st.new_old > 0 { 1int } else { 0int }) + (if st.old_new > 0 { 2int } else { 0int })
}

/// The first element of `res` ... in `[min_t, max_t]` nothing forbids.
impl<'a> PlacementXScanner<'a> {
    /// Slot `s` belongs to old block `o` in hit state `st`.
    pub open spec fn holds_slot(&self, o: int, st: int, s: int) -> bool {
        0 <= s <= u32::MAX && self.forbidden_slots.slot_set(o, st).view().contains(s as u32)
    }

    /// Entering at `t` is forbidden at offsets `off1` and `off2` alike
    /// when no hit indicator differs between them.
    pub open spec fn same_blocking(&self, oi: int, y: int, x1: int, x2: int) -> bool {
        forall|t: int| self.min_t <= t <= self.max_t ==> (self.blocked(oi, x1, y, t) <==> self.blocked(oi, x2, y, t))
    }

    /// `entry` is the earliest time of `[min_t, max_t]` that nothing
    /// forbids with the new block at `(x, y)`; `None` when every time is.
    pub open spec fn entry_ok(&self, oi: int, y: int, x: int, entry: Option<i64>) -> bool {
        match entry {
            Some(t) => {
                &&& self.min_t <= t <= self.max_t
                &&& !self.blocked(oi, x, y, t as int)
                &&& forall|s: int| self.min_t <= s < t ==> self.blocked(oi, x, y, s)
            },
            None => forall|s: int| self.min_t <= s <= self.max_t ==> self.blocked(oi, x, y, s),
        }
    }

    proof fn lemma_slot_owner(&self, o1: int, st1: int, o2: int, st2: int, s: int)
        requires
            self.core_wf(),
            0 <= o1 < self.n_old(),
            0 <= o2 < self.n_old(),
            0 <= st1 < 4,
            0 <= st2 < 4,
            self.holds_slot(o1, st1, s),
            self.holds_slot(o2, st2, s),
        ensures
            o1 == o2,
            st1 == st2,
    {
        let v1 = self.forbidden_slots.slot_set(o1, st1).view();
        let v2 = self.forbidden_slots.slot_set(o2, st2).view();
        let k1 = choose|k: int| 0 <= k < v1.len() && v1[k] == s as u32;
        let k2 = choose|k: int| 0 <= k < v2.len() && v2[k] == s as u32;
        assert(self.forbidden_slots.slot_set(o1, st1).wf());
        assert(self.forbidden_slots.slot_set(o2, st2).wf());
        assert(v1[k1] == self.forbidden_slots.slot_set(o1, st1).slots@[k1]);
        assert(v2[k2] == self.forbidden_slots.slot_set(o2, st2).slots@[k2]);
    }

    /// With no hit, an old block forbids nothing, so its slot set is empty.
    proof fn lemma_idle_state_empty(&self, o: int)
        requires
            self.core_wf(),
            0 <= o < self.n_old(),
        ensures
            self.forbidden_slots.slot_set(o, 0).len == 0,
    {
        let ivs = self.forbidden_slots.state_intervals(o, 0);
        if self.forbidden_slots.slot_set(o, 0).len > 0 {
            assert(crate::window::all_nonempty(ivs));
            let t = ivs[0].0 as int;
            assert(covered(ivs, t));
            match self.old_time_infos@[o] {
                Some(info) => {
                    assert(!state_forbids(info, 0, t));
                },
                None => {},
            }
        }
    }

    /// Where no event of a key lies in `(off1, off2]`, its indicator is the
    /// same at both offsets.
    proof fn lemma_ind_const(&self, oi: int, y: int, lo: int, hi: int, evs: Seq<XEvent>, o: int, k: int, off1: int, off2: int)
        requires
            self.events_char(oi, y, lo, hi, evs, 2 * self.n_old()),
            0 <= o < self.n_old(),
            0 <= k < 2,
            -1 <= off1 <= off2 <= hi - lo + 1,
            hi - lo + 2 <= u32::MAX,
            forall|i: int| 0 <= i < evs.len() ==> !(off1 < (#[trigger] evs[i]).x_offset <= off2),
        ensures
            self.ind(oi, y, lo, hi, o, k, off1) == self.ind(oi, y, lo, hi, o, k, off2),
        decreases off2 - off1,
    {
        if off1 < off2 {
            self.lemma_ind_const(oi, y, lo, hi, evs, o, k, off1, off2 - 1);
            if self.ind(oi, y, lo, hi, o, k, off2) != self.ind(oi, y, lo, hi, o, k, off2 - 1) {
                let e = self.change_event(oi, y, lo, hi, o, k, off2);
                assert(evs.contains(e));
                let i = choose|i: int| 0 <= i < evs.len() && evs[i] == e;
                assert(evs[i].x_offset == off2);
            }
        }
    }

    /// The entry times forbidden at a position depend only on the hit
    /// indicators there.
    proof fn lemma_blocked_by_ind(&self, oi: int, y: int, lo: int, hi: int, off1: int, off2: int, t: int)
        requires
            self.core_wf(),
            0 <= off1 <= hi - lo,
            0 <= off2 <= hi - lo,
            self.min_t <= t <= self.max_t,
            forall|o: int, k: int| 0 <= o < self.n_old() && 0 <= k < 2 ==>
                #[trigger] self.ind(oi, y, lo, hi, o, k, off1) == self.ind(oi, y, lo, hi, o, k, off2),
        ensures
            self.blocked(oi, lo + off1, y, t) <==> self.blocked(oi, lo + off2, y, t),
    {
        assert forall|o: int| 0 <= o < self.n_old() implies
            (#[trigger] self.conflicts(oi, o, lo + off1, y, t) <==> self.conflicts(oi, o, lo + off2, y, t)) by {
            let old = self.bay_old_blocks@[o];
            assert(info_for(self.old_time_infos@[o], old, self.process_t as int, self.min_t as int, self.max_t as int));
            assert(self.ind(oi, y, lo, hi, o, 0, off1) == self.ind(oi, y, lo, hi, o, 0, off2));
            assert(self.ind(oi, y, lo, hi, o, 1, off1) == self.ind(oi, y, lo, hi, o, 1, off2));
        }
        if self.blocked(oi, lo + off1, y, t) {
            let o = choose|o: int| 0 <= o < self.n_old() && #[trigger] self.conflicts(oi, o, lo + off1, y, t);
            assert(self.conflicts(oi, o, lo + off2, y, t));
        }
        if self.blocked(oi, lo + off2, y, t) {
            let o = choose|o: int| 0 <= o < self.n_old() && #[trigger] self.conflicts(oi, o, lo + off2, y, t);
            assert(self.conflicts(oi, o, lo + off1, y, t));
        }
    }

    /// With the hit counts equal to the indicators at `off` and the active
    /// slots those of the current hit states, the active intervals cover
    /// exactly the entry times that some old block forbids.
    proof fn lemma_active_blocked(&self, oi: int, y: int, lo: int, hi: int, states: Seq<HitState>, active: ActiveIntervalSlots, off: int, t: int)
        requires
            self.core_wf(),
            0 <= off <= hi - lo,
            states.len() == self.n_old(),
            forall|o: int, k: int| 0 <= o < self.n_old() && 0 <= k < 2 ==>
                #[trigger] count_of(states[o], k) == if self.ind(oi, y, lo, hi, o, k, off) { 1int } else { 0int },
            forall|s: int| active.active(s) <==> exists|o: int| 0 <= o < self.n_old() && #[trigger] self.holds_slot(o, state_index(states[o]), s),
            self.min_t <= t <= self.max_t,
        ensures
            covered(active.active_intervals(self.forbidden_slots.intervals@), t) <==> self.blocked(oi, lo + off, y, t),
    {
        let ivs = self.forbidden_slots.intervals@;
        active.lemma_active_cover(ivs, t);
        let x = lo + off;
        assert forall|o: int| 0 <= o < self.n_old() implies {
            let st = state_index(#[trigger] states[o]);
            &&& 0 <= st < 4
            &&& crate::slot_table::state_new_old(st) == self.ind(oi, y, lo, hi, o, 0, off)
            &&& crate::slot_table::state_old_new(st) == self.ind(oi, y, lo, hi, o, 1, off)
        } by {
            assert(count_of(states[o], 0) == states[o].new_old);
            assert(count_of(states[o], 1) == states[o].old_new);
            assert(count_of(states[o], 0) == if self.ind(oi, y, lo, hi, o, 0, off) { 1int } else { 0int });
            assert(count_of(states[o], 1) == if self.ind(oi, y, lo, hi, o, 1, off) { 1int } else { 0int });
        }
        if covered(active.active_intervals(ivs), t) {
            let s = choose|s: int| #![trigger ivs[s]] active.active(s) && ivs[s].0 <= t <= ivs[s].1;
            assert(active.active(s));
            let o = choose|o: int| 0 <= o < self.n_old() && #[trigger] self.holds_slot(o, state_index(states[o]), s);
            let st = state_index(states[o]);
            let set = self.forbidden_slots.slot_set(o, st);
            let q = choose|q: int| 0 <= q < set.view().len() && set.view()[q] == s as u32;
            assert(set.wf());
            assert(set.slots@[q] == s as u32);
            let sivs = self.forbidden_slots.state_intervals(o, st);
            assert(sivs[q] == ivs[s]);
            assert(covered(sivs, t));
            match self.old_time_infos@[o] {
                Some(info) => {
                    assert(state_forbids(info, st, t));
                    assert(self.conflicts(oi, o, x, y, t));
                },
                None => {
                    assert(set.len == 0);
                },
            }
        }
        if self.blocked(oi, x, y, t) {
            let o = choose|o: int| 0 <= o < self.n_old() && #[trigger] self.conflicts(oi, o, x, y, t);
            let old = self.bay_old_blocks@[o];
            assert(info_for(self.old_time_infos@[o], old, self.process_t as int, self.min_t as int, self.max_t as int));
            let st = state_index(states[o]);
            match self.old_time_infos@[o] {
                Some(info) => {
                    assert(state_forbids(info, st, t));
                    let sivs = self.forbidden_slots.state_intervals(o, st);
                    assert(covered(sivs, t));
                    let q = choose|q: int| 0 <= q < sivs.len() && #[trigger] sivs[q].0 <= t <= sivs[q].1;
                    let set = self.forbidden_slots.slot_set(o, st);
                    let s = set.slots@[q] as int;
                    assert(set.wf());
                    assert(sivs.len() == set.len);
                    assert(set.view().len() == set.len);
                    assert(set.view()[q] == set.slots@[q]);
                    assert(set.view()[q] == s as u32);
                    assert(self.holds_slot(o, st, s));
                    assert(active.active(s));
                    assert(ivs[s].0 <= t <= ivs[s].1);
                },
                None => {
                    assert(overlaps(old.entry_time as int, old.exit_time as int, self.process_t as int, t));
                },
            }
        }
    }
}

/// Some event of `evs[lo..hi]` belongs to old block `o` and movement `k`.
pub open spec fn key_in(evs: Seq<XEvent>, lo: int, hi: int, o: int, k: int) -> bool {
    exists|i: int| lo <= i < hi && (#[trigger] evs[i]).old_idx == o && kind_of(evs[i].update) == k
}

/// Some event of `evs[lo..hi]` belongs to old block `o`.
pub open spec fn old_in(evs: Seq<XEvent>, lo: int, hi: int, o: int) -> bool {
    exists|i: int| lo <= i < hi && (#[trigger] evs[i]).old_idx == o
}

/// Every scanned position is `lo` or the position of some event, and every
/// event position before `end` is scanned.
pub open spec fn scans_events(lo: int, end: int, ev: Seq<XEvent>, res: Seq<XScan>) -> bool {
    &&& forall|j: int| 0 <= j < res.len() ==> (#[trigger] res[j]).x == lo
        || exists|i: int| 0 <= i < ev.len() && lo + (#[trigger] ev[i]).x_offset == res[j].x
    &&& forall|i: int| 0 <= i < ev.len() && lo + (#[trigger] ev[i]).x_offset < end
        ==> exists|j: int| 0 <= j < res.len() && #[trigger] res[j].x == lo + ev[i].x_offset
}

/// Scanning the position of the current event group keeps the scans in
/// step with the events, up to the next event position.
proof fn lemma_push_events(lo: int, x_offset: int, end: int, ev: Seq<XEvent>, res0: Seq<XScan>, x: i64, entry: Option<i64>)
    requires
        scans_events(lo, x as int, ev, res0),
        x == lo + x_offset,
        x_offset == 0 || exists|i: int| 0 <= i < ev.len() && #[trigger] ev[i].x_offset == x_offset,
        forall|i: int| 0 <= i < ev.len() ==> !(x_offset < (#[trigger] ev[i]).x_offset && (ev[i].x_offset as int) < end - lo),
        x < end,
    ensures
        scans_events(lo, end, ev, res0.push(XScan { x, entry_time: entry })),
{
    let r = res0.push(XScan { x, entry_time: entry });
    assert forall|j: int| 0 <= j < r.len() implies (#[trigger] r[j]).x == lo
        || exists|i: int| 0 <= i < ev.len() && lo + (#[trigger] ev[i]).x_offset == r[j].x by {
        if j < res0.len() {
            assert(r[j] == res0[j]);
        } else if x_offset != 0 {
            let i = choose|i: int| 0 <= i < ev.len() && #[trigger] ev[i].x_offset == x_offset;
            assert(lo + ev[i].x_offset == r[j].x);
        }
    }
    assert forall|i: int| 0 <= i < ev.len() && lo + (#[trigger] ev[i]).x_offset < end
        implies exists|j: int| 0 <= j < r.len() && #[trigger] r[j].x == lo + ev[i].x_offset by {
        if (ev[i].x_offset as int) < x_offset {
            let j = choose|j: int| 0 <= j < res0.len() && #[trigger] res0[j].x == lo + ev[i].x_offset;
            assert(r[j] == res0[j]);
        } else {
            assert(ev[i].x_offset == x_offset);
            assert(r[res0.len() as int].x == lo + ev[i].x_offset);
        }
    }
}

/// The scanned positions increase from `min_x`, each with its exact entry
/// time, and every position up to the next one (or `end`) forbids the same
/// entry times as the scanned one.
impl<'a> PlacementXScanner<'a> {
    pub open spec fn scans_ok(&self, oi: int, y: int, min_x: int, end: int, res: Seq<XScan>) -> bool {
        &&& res.len() > 0 ==> res[0].x == min_x
        &&& forall|i: int, j: int| 0 <= i < j < res.len() ==> res[i].x < res[j].x
        &&& forall|i: int| 0 <= i < res.len() ==> min_x <= (#[trigger] res[i]).x < end
        &&& forall|i: int| 0 <= i < res.len() ==> self.entry_ok(oi, y, (#[trigger] res[i]).x as int, res[i].entry_time)
        &&& forall|i: int, xx: int| 0 <= i < res.len() && res[i].x <= xx < (if i + 1 < res.len() { res[i + 1].x as int } else { end })
            ==> #[trigger] self.same_blocking(oi, y, xx, res[i].x as int)
    }

    /// Some hit indicator of the window `[lo, hi]` changes at offset `off`.
    pub open spec fn changes_at(&self, oi: int, y: int, lo: int, hi: int, off: int) -> bool {
        exists|o: int, k: int| 0 <= k < 2 && #[trigger] self.ind(oi, y, lo, hi, o, k, off) != self.ind(oi, y, lo, hi, o, k, off - 1)
    }

    /// The scanned positions of the window `[lo, hi]` are `lo` and every
    /// position where some hit indicator changes.
    pub open spec fn scans_exact(&self, oi: int, y: int, lo: int, hi: int, res: Seq<XScan>) -> bool {
        &&& forall|j: int| 0 <= j < res.len() ==> (#[trigger] res[j]).x == lo || self.changes_at(oi, y, lo, hi, res[j].x - lo)
        &&& forall|off: int| 0 < off <= hi - lo && #[trigger] self.changes_at(oi, y, lo, hi, off)
            ==> exists|j: int| 0 <= j < res.len() && res[j].x == lo + off
    }

    /// With the new block in row `y`, a crane hit with some old block that
    /// has overlap data differs between `x - 1` and `x`.
    pub open spec fn hit_changes(&self, oi: int, y: int, x: int) -> bool {
        exists|o: int, k: int| 0 <= o < self.n_old() && 0 <= k < 2 && self.old_time_infos@[o] is Some
            && #[trigger] self.crane_hit(oi, o, k, x, y) != self.crane_hit(oi, o, k, x - 1, y)
    }

    /// Inside the window, an indicator change is a change of a crane hit.
    proof fn lemma_changes_hit(&self, oi: int, y: int, lo: int, hi: int, x: int)
        requires
            lo < x <= hi,
        ensures
            self.changes_at(oi, y, lo, hi, x - lo) == self.hit_changes(oi, y, x),
    {
        let off = x - lo;
        if self.changes_at(oi, y, lo, hi, off) {
            let (o, k) = choose|o: int, k: int| 0 <= k < 2 && #[trigger] self.ind(oi, y, lo, hi, o, k, off) != self.ind(oi, y, lo, hi, o, k, off - 1);
            assert(lo + off == x && lo + (off - 1) == x - 1);
            assert(self.crane_hit(oi, o, k, x, y) != self.crane_hit(oi, o, k, x - 1, y));
        }
        if self.hit_changes(oi, y, x) {
            let (o, k) = choose|o: int, k: int| 0 <= o < self.n_old() && 0 <= k < 2 && self.old_time_infos@[o] is Some
                && #[trigger] self.crane_hit(oi, o, k, x, y) != self.crane_hit(oi, o, k, x - 1, y);
            assert(lo + off == x && lo + (off - 1) == x - 1);
            assert(self.ind(oi, y, lo, hi, o, k, off) != self.ind(oi, y, lo, hi, o, k, off - 1));
        }
    }

    /// Scanning `lo` and every event offset of a characterized event list
    /// scans exactly `lo` and the positions where an indicator changes.
    proof fn lemma_exact_from_events(&self, oi: int, y: int, lo: int, hi: int, ev: Seq<XEvent>, res: Seq<XScan>)
        requires
            window_ok(lo, hi),
            self.events_char(oi, y, lo, hi, ev, 2 * self.n_old()),
            scans_events(lo, hi + 1, ev, res),
        ensures
            self.scans_exact(oi, y, lo, hi, res),
    {
        assert forall|j: int| 0 <= j < res.len() implies (#[trigger] res[j]).x == lo || self.changes_at(oi, y, lo, hi, res[j].x - lo) by {
            if res[j].x != lo {
                let i = choose|i: int| 0 <= i < ev.len() && lo + (#[trigger] ev[i]).x_offset == res[j].x;
                assert(self.event_ok(oi, y, lo, hi, ev[i]));
                let o = ev[i].old_idx as int;
                let k = kind_of(ev[i].update);
                let off = ev[i].x_offset as int;
                assert(self.ind(oi, y, lo, hi, o, k, off) != self.ind(oi, y, lo, hi, o, k, off - 1));
                assert(off == res[j].x - lo);
            }
        }
        assert forall|off: int| 0 < off <= hi - lo && #[trigger] self.changes_at(oi, y, lo, hi, off)
            implies exists|j: int| 0 <= j < res.len() && res[j].x == lo + off by {
            let (o, k) = choose|o: int, k: int| 0 <= k < 2 && #[trigger] self.ind(oi, y, lo, hi, o, k, off) != self.ind(oi, y, lo, hi, o, k, off - 1);
            assert(0 <= o < self.n_old());
            let e = self.change_event(oi, y, lo, hi, o, k, off);
            assert(ev.contains(e));
            let i = choose|i: int| 0 <= i < ev.len() && ev[i] == e;
            assert(ev[i].x_offset == off);
            assert(lo + ev[i].x_offset < hi + 1);
            let j = choose|j: int| 0 <= j < res.len() && #[trigger] res[j].x == lo + ev[i].x_offset;
        }
    }

    /// Scans that agree on the placement data and the overlap data agree
    /// on which positions are scanned.
    proof fn lemma_exact_frame(&self, other: &Self, oi: int, y: int, lo: int, hi: int, res: Seq<XScan>)
        requires
            self.same_placement(other),
            self.old_time_infos == other.old_time_infos,
            self.scans_exact(oi, y, lo, hi, res),
        ensures
            other.scans_exact(oi, y, lo, hi, res),
    {
        assert forall|o: int, k: int, off: int| #[trigger] self.ind(oi, y, lo, hi, o, k, off) == other.ind(oi, y, lo, hi, o, k, off) by {
            if 0 <= o < self.n_old() {
                assert(self.pair_grids(oi, o) == other.pair_grids(oi, o));
            }
        }
        assert forall|off: int| #[trigger] self.changes_at(oi, y, lo, hi, off) == other.changes_at(oi, y, lo, hi, off) by {
            if self.changes_at(oi, y, lo, hi, off) {
                let (o, k) = choose|o: int, k: int| 0 <= k < 2 && #[trigger] self.ind(oi, y, lo, hi, o, k, off) != self.ind(oi, y, lo, hi, o, k, off - 1);
                assert(other.ind(oi, y, lo, hi, o, k, off) != other.ind(oi, y, lo, hi, o, k, off - 1));
            }
            if other.changes_at(oi, y, lo, hi, off) {
                let (o, k) = choose|o: int, k: int| 0 <= k < 2 && #[trigger] other.ind(oi, y, lo, hi, o, k, off) != other.ind(oi, y, lo, hi, o, k, off - 1);
                assert(self.ind(oi, y, lo, hi, o, k, off) != self.ind(oi, y, lo, hi, o, k, off - 1));
            }
        }
        assert forall|j: int| 0 <= j < res.len() implies (#[trigger] res[j]).x == lo || other.changes_at(oi, y, lo, hi, res[j].x - lo) by {
            assert(self.changes_at(oi, y, lo, hi, res[j].x - lo) == other.changes_at(oi, y, lo, hi, res[j].x - lo));
        }
        assert forall|off: int| 0 < off <= hi - lo && #[trigger] other.changes_at(oi, y, lo, hi, off)
            implies exists|j: int| 0 <= j < res.len() && res[j].x == lo + off by {
            assert(self.changes_at(oi, y, lo, hi, off) == other.changes_at(oi, y, lo, hi, off));
        }
    }

    /// Once every event at `x_offset` is applied, the hit counts equal the
    /// indicators there.
    #[verifier::spinoff_prover]
    proof fn lemma_group_complete(&self, oi: int, y: int, lo: int, hi: int, ev: Seq<XEvent>, g0: int, p: int, x_offset: int, states: Seq<HitState>)
        requires
            self.events_char(oi, y, lo, hi, ev, 2 * self.n_old()),
            sorted_by_offset(ev),
            hi - lo + 2 <= u32::MAX,
            self.n_old() <= u32::MAX,
            0 <= g0 <= p <= ev.len(),
            0 <= x_offset <= hi - lo,
            forall|i: int| 0 <= i < g0 ==> ((#[trigger] ev[i]).x_offset as int) < x_offset,
            forall|i: int| g0 <= i < ev.len() ==> ((#[trigger] ev[i]).x_offset as int) >= x_offset,
            p < ev.len() ==> ev[p].x_offset != x_offset,
            states.len() == self.n_old(),
            forall|o: int, k: int| 0 <= o < self.n_old() && 0 <= k < 2 ==>
                #[trigger] count_of(states[o], k) == if key_in(ev, g0, p, o, k) {
                    if self.ind(oi, y, lo, hi, o, k, x_offset) { 1int } else { 0int }
                } else {
                    if self.ind(oi, y, lo, hi, o, k, x_offset - 1) { 1int } else { 0int }
                },
        ensures
            forall|o: int, k: int| 0 <= o < self.n_old() && 0 <= k < 2 ==>
                #[trigger] count_of(states[o], k) == if self.ind(oi, y, lo, hi, o, k, x_offset) { 1int } else { 0int },
    {
        let n = self.n_old();
            // every event at this offset has been applied
            assert forall|o: int, k: int| 0 <= o < n && 0 <= k < 2 implies
                #[trigger] count_of(states[o], k) == if self.ind(oi, y, lo, hi, o, k, x_offset) { 1int } else { 0int } by {
                if !key_in(ev, g0, p, o, k) && self.ind(oi, y, lo, hi, o, k, x_offset)
                    != self.ind(oi, y, lo, hi, o, k, x_offset - 1) {
                    let e = self.change_event(oi, y, lo, hi, o, k, x_offset);
                    assert(ev.contains(e));
                    let i = choose|i: int| 0 <= i < ev.len() && ev[i] == e;
                    assert(ev[i].x_offset == x_offset);
                    if i >= p {
                        assert(p < ev.len());
                        assert(ev[p].x_offset != x_offset);
                        assert(ev[p].x_offset <= ev[i].x_offset);
                    }
                    assert(self.event_ok(oi, y, lo, hi, ev[i]));
                    assert(kind_of(ev[i].update) == k);
                    assert(ev[i].old_idx == o);
                    assert(g0 <= i < p);
                    assert(key_in(ev, g0, p, o, k));
                }
            }
    }

    /// Applies the events at offset `x_offset`, starting at `g0`: switches
    /// off the slots of each old block they touch, updates its hit counts,
    /// and returns the position of the first later event.
    #[verifier::rlimit(100)]
    #[verifier::spinoff_prover]
    fn apply_group(
        &self,
        oi: usize,
        y: i64,
        min_x: i64,
        max_x: i64,
        events: &Vec<XEvent>,
        g0: usize,
        x_offset: u32,
        states: &mut Vec<HitState>,
        active: &mut ActiveIntervalSlots,
        seen: &mut Vec<u64>,
        gen: u64,
        touched: &mut Vec<usize>,
    ) -> (end: usize)
        requires
            self.core_wf(),
            window_ok(min_x as int, max_x as int),
            self.events_char(oi as int, y as int, min_x as int, max_x as int, events@, 2 * self.n_old()),
            sorted_by_offset(events@),
            g0 <= events@.len(),
            forall|i: int| 0 <= i < g0 ==> ((#[trigger] events@[i]).x_offset as int) < x_offset,
            forall|i: int| g0 <= i < events@.len() ==> ((#[trigger] events@[i]).x_offset as int) >= x_offset,
            0 <= x_offset <= max_x - min_x,
            old(states)@.len() == self.n_old(),
            forall|o: int, k: int| 0 <= o < self.n_old() && 0 <= k < 2 ==>
                #[trigger] count_of(old(states)@[o], k) == if self.ind(oi as int, y as int, min_x as int, max_x as int, o, k, x_offset - 1) { 1int } else { 0int },
            old(active).wf(),
            old(active).capacity() >= self.forbidden_slots.intervals@.len(),
            forall|s: int| old(active).active(s) <==> exists|o: int| 0 <= o < self.n_old() && #[trigger] self.holds_slot(o, state_index(old(states)@[o]), s),
            old(seen)@.len() == self.n_old(),
            forall|o: int| 0 <= o < self.n_old() ==> #[trigger] old(seen)@[o] < gen,
            old(touched)@.len() == 0,
        ensures
            g0 <= end <= events@.len(),
            forall|i: int| g0 <= i < end ==> (#[trigger] events@[i]).x_offset == x_offset,
            end < events@.len() ==> events@[end as int].x_offset > x_offset,
            final(states)@.len() == self.n_old(),
            forall|o: int, k: int| 0 <= o < self.n_old() && 0 <= k < 2 ==>
                #[trigger] count_of(final(states)@[o], k) == if self.ind(oi as int, y as int, min_x as int, max_x as int, o, k, x_offset as int) { 1int } else { 0int },
            final(active).wf(),
            final(active).capacity() == old(active).capacity(),
            forall|s: int| final(active).active(s) <==> exists|o: int| 0 <= o < self.n_old() && !final(touched)@.contains(o as usize)
                && #[trigger] self.holds_slot(o, state_index(final(states)@[o]), s),
            final(seen)@.len() == self.n_old(),
            forall|o: int| 0 <= o < self.n_old() ==> #[trigger] final(seen)@[o] <= gen,
            forall|q: int| 0 <= q < final(touched)@.len() ==> (#[trigger] final(touched)@[q] as int) < self.n_old(),
    {
        let n = self.bay_old_blocks.len();
        let ghost lo = min_x as int;
        let ghost hi = max_x as int;
        let ghost ev = events@;
        let ghost cap = active.capacity();
        proof {
            assert forall|s: int| active.active(s) <==> exists|o: int| 0 <= o < n && !old_in(ev, g0 as int, g0 as int, o)
                && #[trigger] self.holds_slot(o, state_index(states@[o]), s) by {}
            assert forall|o: int, k: int| 0 <= o < n && 0 <= k < 2 implies
                #[trigger] count_of(states@[o], k) == if key_in(ev, g0 as int, g0 as int, o, k) {
                    if self.ind(oi as int, y as int, lo, hi, o, k, x_offset as int) { 1int } else { 0int }
                } else {
                    if self.ind(oi as int, y as int, lo, hi, o, k, x_offset - 1) { 1int } else { 0int }
                } by {}
            assert forall|o: int| 0 <= o < n implies (touched@.contains(o as usize) <==> #[trigger] old_in(ev, g0 as int, g0 as int, o)) by {}
        }
        let mut event_pos = g0;
        let ghost states0 = states@;
        while event_pos < events.len() && events[event_pos].x_offset == x_offset
            invariant
                self.core_wf(),
                n == self.n_old(),
                window_ok(min_x as int, max_x as int),
                lo == min_x,
                hi == max_x,
                ev == events@,
                self.events_char(oi as int, y as int, lo, hi, ev, 2 * self.n_old()),
                sorted_by_offset(ev),
                g0 <= event_pos <= ev.len(),
                forall|i: int| 0 <= i < g0 ==> ((#[trigger] ev[i]).x_offset as int) < x_offset,
                forall|i: int| g0 <= i < ev.len() ==> ((#[trigger] ev[i]).x_offset as int) >= x_offset,
                forall|i: int| g0 <= i < event_pos ==> (#[trigger] ev[i]).x_offset == x_offset,
                0 <= x_offset <= hi - lo,
                states@.len() == n,
                forall|o: int, k: int| 0 <= o < n && 0 <= k < 2 ==>
                    #[trigger] count_of(states@[o], k) == if key_in(ev, g0 as int, event_pos as int, o, k) {
                        if self.ind(oi as int, y as int, lo, hi, o, k, x_offset as int) { 1int } else { 0int }
                    } else {
                        if self.ind(oi as int, y as int, lo, hi, o, k, x_offset - 1) { 1int } else { 0int }
                    },
                forall|o: int| 0 <= o < n && !old_in(ev, g0 as int, event_pos as int, o) ==> #[trigger] states@[o] == states0[o],
                active.wf(),
                active.capacity() == cap,
                cap >= self.forbidden_slots.intervals@.len(),
                forall|s: int| active.active(s) <==> exists|o: int| 0 <= o < n && !old_in(ev, g0 as int, event_pos as int, o)
                    && #[trigger] self.holds_slot(o, state_index(states@[o]), s),
                seen@.len() == n,
                forall|o: int| 0 <= o < n ==> #[trigger] seen@[o] <= gen,
                forall|o: int| 0 <= o < n ==> (#[trigger] seen@[o] == gen <==> old_in(ev, g0 as int, event_pos as int, o)),
                forall|q: int| 0 <= q < touched@.len() ==> (#[trigger] touched@[q] as int) < n,
                forall|o: int| 0 <= o < n ==> (touched@.contains(o as usize) <==> #[trigger] old_in(ev, g0 as int, event_pos as int, o)),
            decreases ev.len() - event_pos,
        {
            let event = events[event_pos];
            let o = event.old_idx as usize;
            let ghost p = event_pos as int;
            let ghost k = kind_of(event.update);
            let ghost states1 = states@;
            proof {
                assert(self.event_ok(oi as int, y as int, lo, hi, ev[p]));
                // no earlier event of the group has this key
                if key_in(ev, g0 as int, p, o as int, k) {
                    let i = choose|i: int| g0 <= i < p && (#[trigger] ev[i]).old_idx == o && kind_of(ev[i].update) == k;
                    assert(self.event_ok(oi as int, y as int, lo, hi, ev[i]));
                    assert(ev[i] == ev[p]);
                    assert(ev.no_duplicates());
                }
                assert(count_of(states@[o as int], k) == if self.ind(oi as int, y as int, lo, hi, o as int, k, x_offset - 1) { 1int } else { 0int });
            }
            let ghost touched0 = touched@;
            if seen[o] != gen {
                seen.set(o, gen);
                touched.push(o);
                proof {
                    assert(touched@[touched@.len() - 1] == o);
                }
                let idx = hit_state_index(states[o]);
                let ghost before = *active;
                proof {
                    assert(self.forbidden_slots.slot_set(o as int, idx as int).wf());
                    assert forall|i: int| 0 <= i < self.forbidden_slots.slot_set(o as int, idx as int).view().len() implies
                        (self.forbidden_slots.slot_set(o as int, idx as int).view()[i] as int) < active.capacity() by {
                        assert(self.forbidden_slots.slot_set(o as int, idx as int).view()[i] == self.forbidden_slots.slot_set(o as int, idx as int).slots@[i]);
                    }
                }
                active.set_all(self.forbidden_slots.states[o][idx], false);
                proof {
                    assert forall|s: int| active.active(s) <==> exists|o2: int| 0 <= o2 < n && !old_in(ev, g0 as int, p + 1, o2)
                        && #[trigger] self.holds_slot(o2, state_index(states@[o2]), s) by {
                        let set = self.forbidden_slots.slot_set(o as int, idx as int);
                        if self.holds_slot(o as int, idx as int, s) {
                            assert(!active.active(s)) by {
                                let q = choose|q: int| 0 <= q < set.view().len() && set.view()[q] == s as u32;
                                assert(set.view()[q] as int == s);
                            }
                            if exists|o2: int| 0 <= o2 < n && !old_in(ev, g0 as int, p + 1, o2)
                                && #[trigger] self.holds_slot(o2, state_index(states@[o2]), s) {
                                let o2 = choose|o2: int| 0 <= o2 < n && !old_in(ev, g0 as int, p + 1, o2)
                                    && #[trigger] self.holds_slot(o2, state_index(states@[o2]), s);
                                assert(ev[p].old_idx == o);
                                self.lemma_slot_owner(o as int, idx as int, o2, state_index(states@[o2]), s);
                            }
                        } else {
                            assert(active.active(s) == before.active(s));
                            if before.active(s) {
                                let o2 = choose|o2: int| 0 <= o2 < n && !old_in(ev, g0 as int, p, o2)
                                    && #[trigger] self.holds_slot(o2, state_index(states@[o2]), s);
                                if o2 == o as int {
                                    assert(state_index(states@[o2]) == idx);
                                } else {
                                    assert forall|i: int| g0 <= i < p + 1 implies !((#[trigger] ev[i]).old_idx == o2) by {
                                        if i < p {
                                            assert(!old_in(ev, g0 as int, p, o2));
                                        }
                                    }
                                }
                            }
                            if exists|o2: int| 0 <= o2 < n && !old_in(ev, g0 as int, p + 1, o2)
                                && #[trigger] self.holds_slot(o2, state_index(states@[o2]), s) {
                                let o2 = choose|o2: int| 0 <= o2 < n && !old_in(ev, g0 as int, p + 1, o2)
                                    && #[trigger] self.holds_slot(o2, state_index(states@[o2]), s);
                                if old_in(ev, g0 as int, p, o2) {
                                    let i = choose|i: int| g0 <= i < p && (#[trigger] ev[i]).old_idx == o2;
                                    assert(ev[i].old_idx == o2);
                                }
                            }
                        }
                    }
                }
            }
            proof {
                assert(old_in(ev, g0 as int, p + 1, o as int)) by {
                    assert(ev[p].old_idx == o);
                }
                assert(touched@.contains(o));
                assert(touched@ == touched0 || touched@ == touched0.push(o));
                assert forall|o2: int| 0 <= o2 < n && o2 != o as int implies (#[trigger] touched@.contains(o2 as usize) <==> touched0.contains(o2 as usize)) by {
                    if touched@ == touched0.push(o) {
                        if touched@.contains(o2 as usize) {
                            let w = choose|w: int| 0 <= w < touched@.len() && touched@[w] == o2 as usize;
                            assert(w < touched0.len());
                            assert(touched0[w] == o2 as usize);
                        }
                        if touched0.contains(o2 as usize) {
                            let w = choose|w: int| 0 <= w < touched0.len() && touched0[w] == o2 as usize;
                            assert(touched@[w] == o2 as usize);
                        }
                    }
                }
                assert forall|q2: int| 0 <= q2 < touched@.len() implies (#[trigger] touched@[q2] as int) < n by {
                    if q2 < touched0.len() {
                        assert(touched@[q2] == touched0[q2]);
                    }
                }
            }
            apply_x_event(event, states.as_mut_slice());
            proof {
                assert forall|o2: int, k2: int| 0 <= o2 < n && 0 <= k2 < 2 implies
                    #[trigger] count_of(states@[o2], k2) == if key_in(ev, g0 as int, p + 1, o2, k2) {
                        if self.ind(oi as int, y as int, lo, hi, o2, k2, x_offset as int) { 1int } else { 0int }
                    } else {
                        if self.ind(oi as int, y as int, lo, hi, o2, k2, x_offset - 1) { 1int } else { 0int }
                    } by {
                    if o2 == o as int && k2 == k {
                        assert(key_in(ev, g0 as int, p + 1, o2, k2)) by {
                            assert(ev[p].old_idx == o2 && kind_of(ev[p].update) == k2);
                        }
                    } else {
                        assert(count_of(states@[o2], k2) == count_of(states1[o2], k2));
                        if key_in(ev, g0 as int, p + 1, o2, k2) {
                            let i = choose|i: int| g0 <= i < p + 1 && (#[trigger] ev[i]).old_idx == o2 && kind_of(ev[i].update) == k2;
                            assert(i < p);
                            assert(key_in(ev, g0 as int, p, o2, k2));
                        }
                        if key_in(ev, g0 as int, p, o2, k2) {
                            let i = choose|i: int| g0 <= i < p && (#[trigger] ev[i]).old_idx == o2 && kind_of(ev[i].update) == k2;
                            assert(key_in(ev, g0 as int, p + 1, o2, k2));
                        }
                    }
                }
                assert forall|o2: int| 0 <= o2 < n && !old_in(ev, g0 as int, p + 1, o2) implies #[trigger] states@[o2] == states0[o2] by {
                    assert(o2 != o as int) by {
                        if o2 == o as int {
                            assert(ev[p].old_idx == o2);
                        }
                    }
                    assert(!old_in(ev, g0 as int, p, o2)) by {
                        if old_in(ev, g0 as int, p, o2) {
                            let i = choose|i: int| g0 <= i < p && (#[trigger] ev[i]).old_idx == o2;
                            assert(ev[i].old_idx == o2);
                        }
                    }
                }
                assert forall|o2: int| 0 <= o2 < n implies (#[trigger] seen@[o2] == gen <==> old_in(ev, g0 as int, p + 1, o2)) by {
                    if o2 != o as int {
                        if old_in(ev, g0 as int, p + 1, o2) {
                            let i = choose|i: int| g0 <= i < p + 1 && (#[trigger] ev[i]).old_idx == o2;
                            assert(i < p);
                            assert(old_in(ev, g0 as int, p, o2));
                        }
                        if old_in(ev, g0 as int, p, o2) {
                            let i = choose|i: int| g0 <= i < p && (#[trigger] ev[i]).old_idx == o2;
                            assert(old_in(ev, g0 as int, p + 1, o2));
                        }
                    }
                }
                assert forall|o2: int| 0 <= o2 < n implies (touched@.contains(o2 as usize) <==> #[trigger] old_in(ev, g0 as int, p + 1, o2)) by {
                    if o2 != o as int {
                        if old_in(ev, g0 as int, p + 1, o2) {
                            let i = choose|i: int| g0 <= i < p + 1 && (#[trigger] ev[i]).old_idx == o2;
                            assert(i < p);
                            assert(old_in(ev, g0 as int, p, o2));
                        }
                        if old_in(ev, g0 as int, p, o2) {
                            let i = choose|i: int| g0 <= i < p && (#[trigger] ev[i]).old_idx == o2;
                            assert(old_in(ev, g0 as int, p + 1, o2));
                        }
                    } else {
                        assert(touched@.contains(o));
                    }
                }
                assert forall|s: int| active.active(s) <==> exists|o2: int| 0 <= o2 < n && !old_in(ev, g0 as int, p + 1, o2)
                    && #[trigger] self.holds_slot(o2, state_index(states@[o2]), s) by {
                    if exists|o2: int| 0 <= o2 < n && !old_in(ev, g0 as int, p + 1, o2)
                        && #[trigger] self.holds_slot(o2, state_index(states@[o2]), s) {
                        let o2 = choose|o2: int| 0 <= o2 < n && !old_in(ev, g0 as int, p + 1, o2)
                            && #[trigger] self.holds_slot(o2, state_index(states@[o2]), s);
                        assert(o2 != o as int) by {
                            if o2 == o as int {
                                assert(ev[p].old_idx == o2);
                            }
                        }
                        assert(states@[o2] == states1[o2]);
                    }
                    if active.active(s) {
                        let o2 = choose|o2: int| 0 <= o2 < n && !old_in(ev, g0 as int, p + 1, o2)
                            && #[trigger] self.holds_slot(o2, state_index(states1[o2]), s);
                        assert(o2 != o as int);
                        assert(states@[o2] == states1[o2]);
                    }
                }
            }
            event_pos += 1;
        }
        proof {
            self.lemma_group_complete(oi as int, y as int, lo, hi, ev, g0 as int, event_pos as int, x_offset as int, states@);
        }
        proof {
            assert forall|s: int| active.active(s) <==> exists|o: int| 0 <= o < n && !touched@.contains(o as usize)
                && #[trigger] self.holds_slot(o, state_index(states@[o]), s) by {
                if exists|o: int| 0 <= o < n && !touched@.contains(o as usize) && #[trigger] self.holds_slot(o, state_index(states@[o]), s) {
                    let o = choose|o: int| 0 <= o < n && !touched@.contains(o as usize) && #[trigger] self.holds_slot(o, state_index(states@[o]), s);
                    assert(!old_in(ev, g0 as int, event_pos as int, o));
                }
                if active.active(s) {
                    let o = choose|o: int| 0 <= o < n && !old_in(ev, g0 as int, event_pos as int, o)
                        && #[trigger] self.holds_slot(o, state_index(states@[o]), s);
                    assert(!touched@.contains(o as usize));
                }
            }
        }
        event_pos
    }

    /// Switches on the slots of the current hit state of each touched old
    /// block.
    fn activate_touched(&self, states: &Vec<HitState>, active: &mut ActiveIntervalSlots, touched: &Vec<usize>)
        requires
            self.core_wf(),
            states@.len() == self.n_old(),
            old(active).wf(),
            old(active).capacity() >= self.forbidden_slots.intervals@.len(),
            forall|q: int| 0 <= q < touched@.len() ==> (#[trigger] touched@[q] as int) < self.n_old(),
            forall|s: int| old(active).active(s) <==> exists|o: int| 0 <= o < self.n_old() && !touched@.contains(o as usize)
                && #[trigger] self.holds_slot(o, state_index(states@[o]), s),
        ensures
            final(active).wf(),
            final(active).capacity() == old(active).capacity(),
            forall|s: int| final(active).active(s) <==> exists|o: int| 0 <= o < self.n_old() && #[trigger] self.holds_slot(o, state_index(states@[o]), s),
            forall|s: int| final(active).active(s) ==> s < self.forbidden_slots.intervals@.len(),
    {
        let n = self.bay_old_blocks.len();
        let ghost cap = active.capacity();
        proof {
            assert(touched@.take(0) =~= Seq::<usize>::empty());
        }
        // activate the slots of the new states of the touched old blocks
        let ghost act0 = *active;
        let mut q: usize = 0;
        while q < touched.len()
            invariant
                self.core_wf(),
                n == self.n_old(),
                states@.len() == n,
                q <= touched@.len(),
                forall|q2: int| 0 <= q2 < touched@.len() ==> (#[trigger] touched@[q2] as int) < n,
                active.wf(),
                active.capacity() == cap,
                cap >= self.forbidden_slots.intervals@.len(),
                forall|s: int| active.active(s) <==> exists|o: int| 0 <= o < n
                    && (!touched@.contains(o as usize) || touched@.take(q as int).contains(o as usize))
                    && #[trigger] self.holds_slot(o, state_index(states@[o]), s),
            decreases touched@.len() - q,
        {
            let o = touched[q];
            let idx = hit_state_index(states[o]);
            let ghost before = *active;
            proof {
                assert(self.forbidden_slots.slot_set(o as int, idx as int).wf());
                assert forall|i: int| 0 <= i < self.forbidden_slots.slot_set(o as int, idx as int).view().len() implies
                    (self.forbidden_slots.slot_set(o as int, idx as int).view()[i] as int) < active.capacity() by {
                    assert(self.forbidden_slots.slot_set(o as int, idx as int).view()[i] == self.forbidden_slots.slot_set(o as int, idx as int).slots@[i]);
                }
            }
            active.set_all(self.forbidden_slots.states[o][idx], true);
            proof {
                assert(touched@.take(q as int + 1) == touched@.take(q as int).push(o));
                assert forall|s: int| active.active(s) <==> exists|o2: int| 0 <= o2 < n
                    && (!touched@.contains(o2 as usize) || touched@.take(q as int + 1).contains(o2 as usize))
                    && #[trigger] self.holds_slot(o2, state_index(states@[o2]), s) by {
                    let set = self.forbidden_slots.slot_set(o as int, idx as int);
                    if self.holds_slot(o as int, idx as int, s) {
                        let qq = choose|qq: int| 0 <= qq < set.view().len() && set.view()[qq] == s as u32;
                        assert(set.view()[qq] as int == s);
                        assert(active.active(s));
                        assert(touched@.take(q as int + 1)[q as int] == o);
                        assert(touched@.take(q as int + 1).contains(o));
                        assert(self.holds_slot(o as int, state_index(states@[o as int]), s));
                    } else {
                        assert(active.active(s) == before.active(s));
                        if exists|o2: int| 0 <= o2 < n
                            && (!touched@.contains(o2 as usize) || touched@.take(q as int + 1).contains(o2 as usize))
                            && #[trigger] self.holds_slot(o2, state_index(states@[o2]), s) {
                            let o2 = choose|o2: int| 0 <= o2 < n
                                && (!touched@.contains(o2 as usize) || touched@.take(q as int + 1).contains(o2 as usize))
                                && #[trigger] self.holds_slot(o2, state_index(states@[o2]), s);
                            if o2 != o as int && touched@.take(q as int + 1).contains(o2 as usize) {
                                let w = choose|w: int| 0 <= w < q as int + 1 && #[trigger] touched@.take(q as int + 1)[w] == o2 as usize;
                                assert(w < q);
                                assert(touched@.take(q as int)[w] == o2 as usize);
                            }
                        }
                        if before.active(s) {
                            let o2 = choose|o2: int| 0 <= o2 < n
                                && (!touched@.contains(o2 as usize) || touched@.take(q as int).contains(o2 as usize))
                                && #[trigger] self.holds_slot(o2, state_index(states@[o2]), s);
                            if touched@.take(q as int).contains(o2 as usize) {
                                let w = choose|w: int| 0 <= w < q as int && #[trigger] touched@.take(q as int)[w] == o2 as usize;
                                assert(touched@.take(q as int + 1)[w] == o2 as usize);
                            }
                        }
                    }
                }
            }
            q += 1;
        }
        proof {
            assert(touched@.take(touched@.len() as int) =~= touched@);
            assert forall|s: int| active.active(s) <==> exists|o: int| 0 <= o < n && #[trigger] self.holds_slot(o, state_index(states@[o]), s) by {
                if exists|o: int| 0 <= o < n && #[trigger] self.holds_slot(o, state_index(states@[o]), s) {
                    let o = choose|o: int| 0 <= o < n && #[trigger] self.holds_slot(o, state_index(states@[o]), s);
                    assert(!touched@.contains(o as usize) || touched@.take(touched@.len() as int).contains(o as usize));
                }
            }
            assert(crate::window::sorted_by_left(self.forbidden_slots.intervals@));
            assert forall|s: int| active.active(s) implies s < self.forbidden_slots.intervals@.len() by {
                let o = choose|o: int| 0 <= o < n && #[trigger] self.holds_slot(o, state_index(states@[o]), s);
                let st = state_index(states@[o]);
                let set = self.forbidden_slots.slot_set(o, st);
                assert(set.wf());
                let qq = choose|qq: int| 0 <= qq < set.view().len() && set.view()[qq] == s as u32;
                assert(set.view()[qq] == set.slots@[qq]);
            }
        }
    }

    /// Appending the scan of `x` keeps the scans exact up to `end` when no
    /// event lies strictly between `x` and `end`.
    proof fn lemma_push_scan(&self, oi: int, y: int, lo: int, hi: int, ev: Seq<XEvent>, res0: Seq<XScan>, x: i64, x_offset: int,
        entry: Option<i64>, end: int)
        requires
            self.core_wf(),
            window_ok(lo, hi),
            self.events_char(oi, y, lo, hi, ev, 2 * self.n_old()),
            self.scans_ok(oi, y, lo, x as int, res0),
            res0.len() == 0 ==> x == lo,
            x == lo + x_offset,
            0 <= x_offset <= hi - lo,
            self.entry_ok(oi, y, x as int, entry),
            x < end <= hi + 1,
            forall|i: int| 0 <= i < ev.len() ==> !(x_offset < (#[trigger] ev[i]).x_offset && (ev[i].x_offset as int) < end - lo),
        ensures
            self.scans_ok(oi, y, lo, end, res0.push(XScan { x, entry_time: entry })),
    {
        let r = res0.push(XScan { x, entry_time: entry });
        let n = self.n_old();
        assert forall|i: int, xx: int| 0 <= i < r.len() && r[i].x <= xx < (if i + 1 < r.len() { r[i + 1].x as int } else { end })
            implies #[trigger] self.same_blocking(oi, y, xx, r[i].x as int) by {
            if i + 1 < r.len() {
                assert(r[i] == res0[i]);
                assert(r[i + 1].x == (if i + 1 < res0.len() { res0[i + 1].x } else { x }));
                assert(self.same_blocking(oi, y, xx, res0[i].x as int));
            } else {
                assert forall|o: int, k: int| 0 <= o < n && 0 <= k < 2 implies
                    #[trigger] self.ind(oi, y, lo, hi, o, k, xx - lo) == self.ind(oi, y, lo, hi, o, k, x_offset) by {
                    self.lemma_ind_const(oi, y, lo, hi, ev, o, k, x_offset, xx - lo);
                }
                assert forall|t: int| self.min_t <= t <= self.max_t implies
                    (self.blocked(oi, xx, y, t) <==> self.blocked(oi, r[i].x as int, y, t)) by {
                    self.lemma_blocked_by_ind(oi, y, lo, hi, xx - lo, x_offset, t);
                }
            }
        }
        assert forall|i: int| 0 <= i < r.len() implies self.entry_ok(oi, y, (#[trigger] r[i]).x as int, r[i].entry_time) by {
            if i < res0.len() {
                assert(r[i] == res0[i]);
            }
        }
        assert forall|i: int| 0 <= i < r.len() implies lo <= (#[trigger] r[i]).x < end by {
            if i < res0.len() {
                assert(r[i] == res0[i]);
            }
        }
        assert forall|i: int, j: int| 0 <= i < j < r.len() implies r[i].x < r[j].x by {
            if j < res0.len() {
                assert(r[i] == res0[i] && r[j] == res0[j]);
            } else {
                assert(r[i] == res0[i]);
            }
        }
    }

    /// Walks the sorted events of row `y` and reports each x position where
    /// one changes the hit state, starting at `min_x`.
    #[verifier::rlimit(100)]
    #[verifier::spinoff_prover]
    fn sweep_x(
        &self,
        oi: usize,
        y: i64,
        min_x: i64,
        max_x: i64,
        events: &Vec<XEvent>,
        states: &mut Vec<HitState>,
        active: &mut ActiveIntervalSlots,
        seen: &mut Vec<u64>,
        generation: &mut u64,
        touched: &mut Vec<usize>,
    ) -> (res: Vec<XScan>)
        requires
            self.core_wf(),
            coord_ok(y as int),
            window_ok(min_x as int, max_x as int),
            self.events_char(oi as int, y as int, min_x as int, max_x as int, events@, 2 * self.n_old()),
            sorted_by_offset(events@),
            old(states)@.len() == self.n_old(),
            forall|o: int| 0 <= o < self.n_old() ==> (#[trigger] old(states)@[o]).new_old == 0 && old(states)@[o].old_new == 0,
            old(active).wf(),
            old(active).capacity() >= self.forbidden_slots.intervals@.len(),
            forall|s: int| !old(active).active(s),
            old(seen)@.len() == self.n_old(),
            forall|o: int| 0 <= o < self.n_old() ==> #[trigger] old(seen)@[o] <= *old(generation),
        ensures
            res@.len() > 0,
            self.scans_ok(oi as int, y as int, min_x as int, max_x + 1, res@),
            scans_events(min_x as int, max_x + 1, events@, res@),
            final(states)@.len() == self.n_old(),
            final(active).wf(),
            final(active).capacity() == old(active).capacity(),
            final(seen)@.len() == self.n_old(),
            forall|o: int| 0 <= o < self.n_old() ==> #[trigger] final(seen)@[o] <= *final(generation),
            forall|t: int| self.min_t <= t <= self.max_t ==>
                (covered(final(active).active_intervals(self.forbidden_slots.intervals@), t)
                <==> self.blocked(oi as int, res@.last().x as int, y as int, t)),
            forall|s: int| final(active).active(s) <==> exists|o: int| 0 <= o < self.n_old()
                && #[trigger] self.holds_slot(o, state_index(final(states)@[o]), s),
            forall|o: int, k: int| 0 <= o < self.n_old() && 0 <= k < 2 ==>
                #[trigger] count_of(final(states)@[o], k) == if self.ind(oi as int, y as int, min_x as int, max_x as int, o, k,
                    res@.last().x - min_x) { 1int } else { 0int },
    {
        let n = self.bay_old_blocks.len();
        let ghost lo = min_x as int;
        let ghost hi = max_x as int;
        let ghost ev = events@;
        let ghost cap = active.capacity();
        let mut res: Vec<XScan> = Vec::new();
        let mut event_pos: usize = 0;
        let mut x_offset: u32 = 0;
        let mut x: i64 = min_x;
        proof {
            assert forall|s: int| active.active(s) <==> exists|o: int| 0 <= o < self.n_old() && #[trigger] self.holds_slot(o, state_index(states@[o]), s) by {
                if exists|o: int| 0 <= o < self.n_old() && #[trigger] self.holds_slot(o, state_index(states@[o]), s) {
                    let o = choose|o: int| 0 <= o < self.n_old() && #[trigger] self.holds_slot(o, state_index(states@[o]), s);
                    self.lemma_idle_state_empty(o);
                    assert(state_index(states@[o]) == 0);
                }
            }
        }
        loop
            invariant_except_break
                self.core_wf(),
                n == self.n_old(),
                coord_ok(y as int),
                window_ok(min_x as int, max_x as int),
                lo == min_x,
                hi == max_x,
                ev == events@,
                self.events_char(oi as int, y as int, lo, hi, ev, 2 * self.n_old()),
                sorted_by_offset(ev),
                event_pos <= ev.len(),
                forall|i: int| 0 <= i < event_pos ==> ((#[trigger] ev[i]).x_offset as int) < x_offset,
                forall|i: int| event_pos <= i < ev.len() ==> ((#[trigger] ev[i]).x_offset as int) >= x_offset,
                x == min_x + x_offset,
                min_x <= x <= max_x,
                states@.len() == n,
                forall|o: int, k: int| 0 <= o < n && 0 <= k < 2 ==>
                    #[trigger] count_of(states@[o], k) == if self.ind(oi as int, y as int, lo, hi, o, k, x_offset - 1) { 1int } else { 0int },
                active.wf(),
                active.capacity() == cap,
                cap >= self.forbidden_slots.intervals@.len(),
                forall|s: int| active.active(s) <==> exists|o: int| 0 <= o < n && #[trigger] self.holds_slot(o, state_index(states@[o]), s),
                seen@.len() == n,
                forall|o: int| 0 <= o < n ==> #[trigger] seen@[o] <= *generation,
                self.scans_ok(oi as int, y as int, min_x as int, x as int, res@),
                res@.len() == 0 ==> x == min_x,
                scans_events(lo, x as int, ev, res@),
                x_offset > 0 ==> event_pos < ev.len() && ev[event_pos as int].x_offset == x_offset,
            ensures
                res@.len() > 0,
                self.scans_ok(oi as int, y as int, min_x as int, max_x + 1, res@),
                scans_events(lo, hi + 1, ev, res@),
                states@.len() == n,
                active.wf(),
                active.capacity() == cap,
                seen@.len() == n,
                forall|o: int| 0 <= o < n ==> #[trigger] seen@[o] <= *generation,
                forall|t: int| self.min_t <= t <= self.max_t ==>
                    (covered(active.active_intervals(self.forbidden_slots.intervals@), t)
                    <==> self.blocked(oi as int, res@.last().x as int, y as int, t)),
                forall|s: int| active.active(s) <==> exists|o: int| 0 <= o < n && #[trigger] self.holds_slot(o, state_index(states@[o]), s),
                forall|o: int, k: int| 0 <= o < n && 0 <= k < 2 ==>
                    #[trigger] count_of(states@[o], k) == if self.ind(oi as int, y as int, lo, hi, o, k, res@.last().x - min_x) { 1int } else { 0int },
            decreases max_x - x,
        {
            if *generation == u64::MAX {
                let mut i: usize = 0;
                while i < n
                    invariant
                        i <= n,
                        seen@.len() == n,
                        forall|o: int| 0 <= o < i ==> #[trigger] seen@[o] == 0,
                    decreases n - i,
                {
                    seen.set(i, 0);
                    i += 1;
                }
                *generation = 0;
            }
            *generation = *generation + 1;
            let gen = *generation;
            touched.clear();
            let g0 = event_pos;
            proof {
                if x_offset > 0 {
                    assert(ev[g0 as int].x_offset == x_offset);
                }
            }
            event_pos = self.apply_group(oi, y, min_x, max_x, events, g0, x_offset, states, active, seen, gen, touched);
            self.activate_touched(states, active, touched);
            let entry = active.first_feasible_time(self.forbidden_slots.intervals.as_slice(), self.min_t, self.max_t);
            proof {
                assert forall|t: int| self.min_t <= t <= self.max_t implies
                    (covered(active.active_intervals(self.forbidden_slots.intervals@), t) <==> self.blocked(oi as int, x as int, y as int, t)) by {
                    self.lemma_active_blocked(oi as int, y as int, lo, hi, states@, *active, x_offset as int, t);
                }
            }
            let ghost res0 = res@;
            res.push(XScan { x, entry_time: entry });
            proof {
                assert(res@ == res0.push(XScan { x, entry_time: entry }));
                assert(self.entry_ok(oi as int, y as int, x as int, entry));
            }
            if event_pos >= events.len() {
                proof {
                    assert forall|i: int| 0 <= i < ev.len() implies !(x_offset < (#[trigger] ev[i]).x_offset && (ev[i].x_offset as int) < hi + 1 - lo) by {}
                    self.lemma_push_scan(oi as int, y as int, lo, hi, ev, res0, x, x_offset as int, entry, hi + 1);
                    lemma_push_events(lo, x_offset as int, hi + 1, ev, res0, x, entry);
                }
                break;
            }
            let next_offset = events[event_pos].x_offset;
            proof {
                assert(next_offset > x_offset);
                assert(self.event_ok(oi as int, y as int, lo, hi, ev[event_pos as int]));
                assert(next_offset as int <= hi - lo + 1);
                assert forall|i: int| event_pos <= i < ev.len() implies ((#[trigger] ev[i]).x_offset as int) >= next_offset by {
                    assert(ev[event_pos as int].x_offset <= ev[i].x_offset);
                }
            }
            let next_x = min_x + next_offset as i64;
            if next_x > max_x {
                proof {
                    assert forall|i: int| 0 <= i < ev.len() implies !(x_offset < (#[trigger] ev[i]).x_offset && (ev[i].x_offset as int) < hi + 1 - lo) by {}
                    self.lemma_push_scan(oi as int, y as int, lo, hi, ev, res0, x, x_offset as int, entry, hi + 1);
                    lemma_push_events(lo, x_offset as int, hi + 1, ev, res0, x, entry);
                }
                break;
            }
            proof {
                let nx = next_offset as int;
                assert forall|i: int| 0 <= i < ev.len() implies !(x_offset < (#[trigger] ev[i]).x_offset && (ev[i].x_offset as int) < nx) by {}
                self.lemma_push_scan(oi as int, y as int, lo, hi, ev, res0, x, x_offset as int, entry, next_x as int);
                lemma_push_events(lo, x_offset as int, next_x as int, ev, res0, x, entry);
                assert forall|o: int, k: int| 0 <= o < n && 0 <= k < 2 implies
                    #[trigger] count_of(states@[o], k) == if self.ind(oi as int, y as int, lo, hi, o, k, nx - 1) { 1int } else { 0int } by {
                    self.lemma_ind_const(oi as int, y as int, lo, hi, ev, o, k, x_offset as int, nx - 1);
                }
            }
            x_offset = next_offset;
            x = next_x;
        }
        res
    }
}

impl<'a> PlacementXScanner<'a> {
    /// Two scanners with the same placement data agree on what is blocked.
    pub open spec fn same_placement(&self, other: &Self) -> bool {
        &&& self.pre == other.pre
        &&& self.block_id == other.block_id
        &&& self.process_t == other.process_t
        &&& self.min_t == other.min_t
        &&& self.max_t == other.max_t
        &&& self.bay_old_blocks == other.bay_old_blocks
    }

    proof fn lemma_blocked_frame(&self, other: &Self, oi: int, x: int, y: int, t: int)
        requires
            self.same_placement(other),
        ensures
            self.blocked(oi, x, y, t) == other.blocked(oi, x, y, t),
    {
        assert forall|o: int| 0 <= o < self.n_old() implies
            #[trigger] self.conflicts(oi, o, x, y, t) == other.conflicts(oi, o, x, y, t) by {
            assert(self.pair_grids(oi, o) == other.pair_grids(oi, o));
            assert(self.crane_hit(oi, o, 0, x, y) == other.crane_hit(oi, o, 0, x, y));
            assert(self.crane_hit(oi, o, 1, x, y) == other.crane_hit(oi, o, 1, x, y));
        }
        if self.blocked(oi, x, y, t) {
            let o = choose|o: int| 0 <= o < self.n_old() && #[trigger] self.conflicts(oi, o, x, y, t);
            assert(other.conflicts(oi, o, x, y, t));
        }
        if other.blocked(oi, x, y, t) {
            let o = choose|o: int| 0 <= o < other.n_old() && #[trigger] other.conflicts(oi, o, x, y, t);
            assert(self.conflicts(oi, o, x, y, t));
        }
    }

    proof fn lemma_scans_frame(&self, other: &Self, oi: int, y: int, lo: int, end: int, res: Seq<XScan>)
        requires
            self.same_placement(other),
            self.scans_ok(oi, y, lo, end, res),
        ensures
            other.scans_ok(oi, y, lo, end, res),
    {
        assert forall|i: int| 0 <= i < res.len() implies other.entry_ok(oi, y, (#[trigger] res[i]).x as int, res[i].entry_time) by {
            assert(self.entry_ok(oi, y, res[i].x as int, res[i].entry_time));
            assert forall|t: int| #![trigger other.blocked(oi, res[i].x as int, y, t)] true implies
                self.blocked(oi, res[i].x as int, y, t) == other.blocked(oi, res[i].x as int, y, t) by {
                self.lemma_blocked_frame(other, oi, res[i].x as int, y, t);
            }
        }
        assert forall|i: int, xx: int| 0 <= i < res.len() && res[i].x <= xx < (if i + 1 < res.len() { res[i + 1].x as int } else { end })
            implies #[trigger] other.same_blocking(oi, y, xx, res[i].x as int) by {
            assert(self.same_blocking(oi, y, xx, res[i].x as int));
            assert forall|t: int| other.min_t <= t <= other.max_t implies
                (other.blocked(oi, xx, y, t) <==> other.blocked(oi, res[i].x as int, y, t)) by {
                self.lemma_blocked_frame(other, oi, xx, y, t);
                self.lemma_blocked_frame(other, oi, res[i].x as int, y, t);
            }
        }
    }

    /// A reordering of a characterized event list is characterized too.
    proof fn lemma_char_permutation(&self, oi: int, y: int, lo: int, hi: int, u: Seq<XEvent>, e: Seq<XEvent>, d: int)
        requires
            self.events_char(oi, y, lo, hi, u, d),
            u.to_multiset() == e.to_multiset(),
        ensures
            self.events_char(oi, y, lo, hi, e, d),
    {
        broadcast use vstd::seq_lib::group_to_multiset_ensures;
        assert forall|i: int| 0 <= i < e.len() implies self.event_ok(oi, y, lo, hi, #[trigger] e[i])
            && 2 * (e[i].old_idx as int) + kind_of(e[i].update) < d by {
            assert(e.contains(e[i]));
            assert(e.to_multiset().count(e[i]) > 0);
            assert(u.contains(e[i]));
            let j = choose|j: int| 0 <= j < u.len() && u[j] == e[i];
            assert(self.event_ok(oi, y, lo, hi, u[j]));
        }
        u.lemma_multiset_has_no_duplicates();
        e.lemma_multiset_has_no_duplicates_conv();
        assert forall|o: int, k: int, off: int| 0 <= o < self.n_old() && 0 <= k < 2 && 2 * o + k < d && 0 <= off <= hi - lo + 1
            && #[trigger] self.ind(oi, y, lo, hi, o, k, off) != self.ind(oi, y, lo, hi, o, k, off - 1)
            implies e.contains(self.change_event(oi, y, lo, hi, o, k, off)) by {
            let ce = self.change_event(oi, y, lo, hi, o, k, off);
            assert(u.contains(ce));
            assert(u.to_multiset().count(ce) > 0);
        }
    }

    /// The crane grids of both directions between orientation `oi` of the
    /// new block and each old block with overlap data.
    fn crane_cache(&self, oi: usize) -> (res: Vec<Option<(&'a OrientPairCollision, &'a OrientPairCollision)>>)
        requires
            self.pre.wf(),
            self.old_time_infos@.len() == self.n_old(),
        ensures
            res@.len() == self.n_old(),
            forall|o: int| 0 <= o < self.n_old() ==> match #[trigger] res@[o] {
                Some((a, b)) => {
                    &&& self.old_time_infos@[o] is Some
                    &&& self.pair_grids(oi as int, o) == Some((a.crane, b.crane))
                    &&& a.crane.wf()
                    &&& b.crane.wf()
                },
                None => self.old_time_infos@[o] is None || self.pair_grids(oi as int, o) is None,
            },
    {
        let pre: &'a CollisionPrecompute = self.pre;
        let new_orient = BlockOrient { block_id: self.block_id, orient_idx: oi };
        let n = self.bay_old_blocks.len();
        let mut cache: Vec<Option<(&'a OrientPairCollision, &'a OrientPairCollision)>> = Vec::new();
        let mut o: usize = 0;
        while o < n
            invariant
                pre == self.pre,
                pre.wf(),
                n == self.n_old(),
                self.old_time_infos@.len() == n,
                new_orient == (BlockOrient { block_id: self.block_id, orient_idx: oi }),
                o <= n,
                cache@.len() == o,
                forall|q: int| 0 <= q < o ==> match #[trigger] cache@[q] {
                    Some((a, b)) => {
                        &&& self.old_time_infos@[q] is Some
                        &&& self.pair_grids(oi as int, q) == Some((a.crane, b.crane))
                        &&& a.crane.wf()
                        &&& b.crane.wf()
                    },
                    None => self.old_time_infos@[q] is None || self.pair_grids(oi as int, q) is None,
                },
            decreases n - o,
        {
            if self.old_time_infos[o].is_none() {
                cache.push(None);
            } else {
                let old = self.bay_old_blocks[o];
                let old_orient = BlockOrient { block_id: old.block_id, orient_idx: old.orient_idx };
                let pairs = pre.crane_pairs_both_directions(new_orient, old_orient);
                cache.push(pairs);
            }
            o += 1;
        }
        cache
    }

    /// Scans row `y` in orientation `orient_idx` over the x positions of the
    /// fit range that lie in `[requested_min_x, requested_max_x]`: the
    /// positions where some crane hit starts or ends, from the first one on,
    /// each with the earliest entry time that no old block forbids. Nothing
    /// is scanned when the orientation does not fit, `y` is outside the fit
    /// range or no x position is left.
    #[verifier::rlimit(100)]
    #[verifier::spinoff_prover]
    pub fn scan_y_ranges(&mut self, orient_idx: usize, y: i64, requested_min_x: i64, requested_max_x: i64) -> (res: Vec<XScan>)
        requires
            old(self).wf(),
        ensures
            final(self).wf(),
            final(self).pre == old(self).pre,
            final(self).block_id == old(self).block_id,
            final(self).bay_id == old(self).bay_id,
            final(self).process_t == old(self).process_t,
            final(self).min_t == old(self).min_t,
            final(self).max_t == old(self).max_t,
            final(self).bay_old_blocks == old(self).bay_old_blocks,
            final(self).old_time_infos == old(self).old_time_infos,
            final(self).forbidden_slots == old(self).forbidden_slots,
            match old(self).pre.fit_range_spec(old(self).bay_id as int, old(self).block_id as int, orient_idx as int) {
                Some(r) => {
                    let min_x = if r.min_x >= requested_min_x { r.min_x } else { requested_min_x };
                    let max_x = if r.max_x <= requested_max_x { r.max_x } else { requested_max_x };
                    if y < r.min_y || y > r.max_y || min_x > max_x {
                        res@.len() == 0
                    } else {
                        &&& res@.len() > 0
                        &&& final(self).scans_ok(orient_idx as int, y as int, min_x as int, max_x + 1, res@)
                        &&& final(self).scans_exact(orient_idx as int, y as int, min_x as int, max_x as int, res@)
                        &&& forall|t: int| final(self).min_t <= t <= final(self).max_t ==>
                            (covered(final(self).active_slots.active_intervals(final(self).forbidden_slots.intervals@), t)
                            <==> final(self).blocked(orient_idx as int, res@.last().x as int, y as int, t))
                        &&& forall|s: int| final(self).active_slots.active(s) <==> exists|o: int| 0 <= o < final(self).n_old()
                            && #[trigger] final(self).holds_slot(o, final(self).hit_state(orient_idx as int, o, res@.last().x as int, y as int), s)
                    }
                },
                None => res@.len() == 0,
            },
    {
        let fit = match self.pre.fit_range(self.bay_id, self.block_id, orient_idx) {
            Some(r) => r,
            None => return Vec::new(),
        };
        proof {
            let b = self.bay_id as int;
            let k = self.block_id as int;
            let o = orient_idx as int;
            assert(match self.pre.fit_ranges@[b]@[k]@[o] {
                Some(r) => fit_range_ok(r),
                None => true,
            });
        }
        if y < fit.min_y || y > fit.max_y {
            return Vec::new();
        }
        let min_x = if fit.min_x >= requested_min_x { fit.min_x } else { requested_min_x };
        let max_x = if fit.max_x <= requested_max_x { fit.max_x } else { requested_max_x };
        if min_x > max_x {
            return Vec::new();
        }
        if self.prepared_orient_idx != Some(orient_idx) {
            let cache = self.crane_cache(orient_idx);
            self.crane_pair_cache = cache;
            self.prepared_orient_idx = Some(orient_idx);
        }
        let mut events: Vec<XEvent> = Vec::new();
        std::mem::swap(&mut events, &mut self.events);
        let mut scratch: Vec<XEvent> = Vec::new();
        std::mem::swap(&mut scratch, &mut self.event_sort_scratch);
        let mut counts: Vec<usize> = Vec::new();
        std::mem::swap(&mut counts, &mut self.event_counts);
        let mut states: Vec<HitState> = Vec::new();
        std::mem::swap(&mut states, &mut self.states);
        let mut active = ActiveIntervalSlots { words: Vec::new(), summary: Vec::new() };
        std::mem::swap(&mut active, &mut self.active_slots);
        let mut seen: Vec<u64> = Vec::new();
        std::mem::swap(&mut seen, &mut self.event_group_seen);
        let mut generation = self.event_group_generation;
        let mut touched: Vec<usize> = Vec::new();
        std::mem::swap(&mut touched, &mut self.touched_old_ids);
        events.clear();
        self.build_events(orient_idx, y, min_x, max_x, &mut events);
        let ghost unsorted = events@;
        counting_sort_x_events(&mut events, &mut scratch, &mut counts, min_x, max_x);
        proof {
            self.lemma_char_permutation(orient_idx as int, y as int, min_x as int, max_x as int, unsorted, events@, 2 * self.n_old());
        }
        let n = self.bay_old_blocks.len();
        let mut i: usize = 0;
        while i < n
            invariant
                i <= n,
                states@.len() == n,
                forall|o: int| 0 <= o < i ==> (#[trigger] states@[o]).new_old == 0 && states@[o].old_new == 0,
            decreases n - i,
        {
            states.set(i, HitState::zero());
            i += 1;
        }
        active.clear();
        let res = self.sweep_x(orient_idx, y, min_x, max_x, &events, &mut states, &mut active, &mut seen, &mut generation, &mut touched);
        let ghost during = *self;
        proof {
            during.lemma_exact_from_events(orient_idx as int, y as int, min_x as int, max_x as int, events@, res@);
        }
        self.events = events;
        self.event_sort_scratch = scratch;
        self.event_counts = counts;
        self.states = states;
        self.active_slots = active;
        self.event_group_seen = seen;
        self.event_group_generation = generation;
        self.touched_old_ids = touched;
        proof {
            during.lemma_scans_frame(&*self, orient_idx as int, y as int, min_x as int, max_x + 1, res@);
            during.lemma_exact_frame(&*self, orient_idx as int, y as int, min_x as int, max_x as int, res@);
            assert forall|t: int| self.min_t <= t <= self.max_t implies
                (covered(self.active_slots.active_intervals(self.forbidden_slots.intervals@), t)
                <==> self.blocked(orient_idx as int, res@.last().x as int, y as int, t)) by {
                during.lemma_blocked_frame(&*self, orient_idx as int, res@.last().x as int, y as int, t);
            }
            let lx = res@.last().x as int;
            assert forall|o: int| 0 <= o < self.n_old() implies
                #[trigger] state_index(self.states@[o]) == self.hit_state(orient_idx as int, o, lx, y as int) by {
                assert(count_of(self.states@[o], 0) == if during.ind(orient_idx as int, y as int, min_x as int, max_x as int, o, 0, lx - min_x) { 1int } else { 0int });
                assert(count_of(self.states@[o], 1) == if during.ind(orient_idx as int, y as int, min_x as int, max_x as int, o, 1, lx - min_x) { 1int } else { 0int });
                assert(during.pair_grids(orient_idx as int, o) == self.pair_grids(orient_idx as int, o));
            }
            assert forall|s: int| self.active_slots.active(s) <==> exists|o: int| 0 <= o < self.n_old()
                && #[trigger] self.holds_slot(o, self.hit_state(orient_idx as int, o, lx, y as int), s) by {
                if self.active_slots.active(s) {
                    let o = choose|o: int| 0 <= o < during.n_old() && #[trigger] during.holds_slot(o, state_index(self.states@[o]), s);
                    assert(self.holds_slot(o, self.hit_state(orient_idx as int, o, lx, y as int), s));
                }
                if exists|o: int| 0 <= o < self.n_old() && #[trigger] self.holds_slot(o, self.hit_state(orient_idx as int, o, lx, y as int), s) {
                    let o = choose|o: int| 0 <= o < self.n_old() && #[trigger] self.holds_slot(o, self.hit_state(orient_idx as int, o, lx, y as int), s);
                    assert(during.holds_slot(o, state_index(self.states@[o]), s));
                }
            }
        }
        res
    }
}

/// Index of the last scanned position at or before `xx`.
proof fn lemma_find_span(res: Seq<XScan>, xx: int, end: int) -> (i: int)
    requires
        res.len() > 0,
        res[0].x <= xx < end,
        forall|a: int, b: int| 0 <= a < b < res.len() ==> res[a].x < res[b].x,
    ensures
        0 <= i < res.len(),
        res[i].x <= xx < (if i + 1 < res.len() { res[i + 1].x as int } else { end }),
    decreases res.len(),
{
    if res.len() == 1 || xx < res[1].x {
        0
    } else {
        let rest = res.subrange(1, res.len() as int);
        assert(rest[0] == res[1]);
        assert forall|a: int, b: int| 0 <= a < b < rest.len() implies rest[a].x < rest[b].x by {
            assert(rest[a] == res[a + 1] && rest[b] == res[b + 1]);
        }
        let j = lemma_find_span(rest, xx, end);
        assert(rest[j] == res[j + 1]);
        if j + 1 < rest.len() {
            assert(rest[j + 1] == res[j + 2]);
        }
        j + 1
    }
}

impl<'a> PlacementXScanner<'a> {
    /// The candidate placements of row `y` in orientation `orient_idx`, in
    /// increasing x: at the left end of the fit range and at each x where a
    /// crane hit with an old block starts or ends, wherever some entry time
    /// is free, the new block entering at the earliest one. Every x position
    /// of the fit range with a free entry time forbids the same entry times
    /// as some candidate at or before it.
    #[verifier::rlimit(50)]
    #[verifier::spinoff_prover]
    pub fn scan_y(&mut self, orient_idx: usize, y: i64) -> (res: Vec<ScheduledBlock>)
        requires
            old(self).wf(),
        ensures
            final(self).wf(),
            final(self).same_placement(&*old(self)),
            final(self).bay_id == old(self).bay_id,
            final(self).old_time_infos == old(self).old_time_infos,
            final(self).forbidden_slots == old(self).forbidden_slots,
            forall|i: int| 0 <= i < res@.len() ==> {
                let c = #[trigger] res@[i];
                &&& c.block_id == old(self).block_id
                &&& c.bay_id == old(self).bay_id
                &&& c.orient_idx == orient_idx
                &&& c.y == y
                &&& c.exit_time == c.entry_time + old(self).process_t
                &&& old(self).entry_ok(orient_idx as int, y as int, c.x as int, Some(c.entry_time))
            },
            forall|i: int, j: int| 0 <= i < j < res@.len() ==> res@[i].x < res@[j].x,
            match old(self).pre.fit_range_spec(old(self).bay_id as int, old(self).block_id as int, orient_idx as int) {
                Some(r) => if r.min_y <= y <= r.max_y {
                    &&& forall|i: int| 0 <= i < res@.len() ==> r.min_x <= (#[trigger] res@[i]).x <= r.max_x
                    &&& forall|xx: int, t: int| r.min_x <= xx <= r.max_x && old(self).min_t <= t <= old(self).max_t
                        && !#[trigger] old(self).blocked(orient_idx as int, xx, y as int, t)
                        ==> exists|i: int| 0 <= i < res@.len() && res@[i].x <= xx
                            && #[trigger] old(self).same_blocking(orient_idx as int, y as int, xx, res@[i].x as int)
                    &&& forall|i: int| 0 <= i < res@.len() ==> (#[trigger] res@[i]).x == r.min_x
                        || old(self).hit_changes(orient_idx as int, y as int, res@[i].x as int)
                    &&& forall|xx: int, t: int| r.min_x <= xx <= r.max_x
                        && (xx == r.min_x || old(self).hit_changes(orient_idx as int, y as int, xx))
                        && old(self).min_t <= t <= old(self).max_t
                        && !#[trigger] old(self).blocked(orient_idx as int, xx, y as int, t)
                        ==> exists|i: int| 0 <= i < res@.len() && res@[i].x == xx
                } else {
                    res@.len() == 0
                },
                None => res@.len() == 0,
            },
    {
        let ghost start = *self;
        let scans = self.scan_y_ranges(orient_idx, y, i64::MIN, i64::MAX);
        let ghost after = *self;
        proof {
            match start.pre.fit_range_spec(start.bay_id as int, start.block_id as int, orient_idx as int) {
                Some(r) => {
                    assert(fit_range_ok(r)) by {
                        let b = start.bay_id as int;
                        let k = start.block_id as int;
                        let o = orient_idx as int;
                        assert(match start.pre.fit_ranges@[b]@[k]@[o] {
                            Some(r2) => fit_range_ok(r2),
                            None => true,
                        });
                    }
                },
                None => {},
            }
            match start.pre.fit_range_spec(start.bay_id as int, start.block_id as int, orient_idx as int) {
                Some(r) => if r.min_y <= y <= r.max_y {
                    let lo = r.min_x as int;
                    let hi = r.max_x as int;
                    after.lemma_exact_frame(&start, orient_idx as int, y as int, lo, hi, scans@);
                    assert forall|q: int| 0 <= q < scans@.len() implies (#[trigger] scans@[q]).x == lo
                        || start.hit_changes(orient_idx as int, y as int, scans@[q].x as int) by {
                        if scans@[q].x != lo {
                            assert(lo <= scans@[q].x < hi + 1);
                            start.lemma_changes_hit(orient_idx as int, y as int, lo, hi, scans@[q].x as int);
                        }
                    }
                    assert forall|xx: int| lo < xx <= hi && #[trigger] start.hit_changes(orient_idx as int, y as int, xx)
                        implies exists|q: int| 0 <= q < scans@.len() && scans@[q].x == xx by {
                        start.lemma_changes_hit(orient_idx as int, y as int, lo, hi, xx);
                        assert(start.changes_at(orient_idx as int, y as int, lo, hi, xx - lo));
                        assert(lo + (xx - lo) == xx);
                    }
                },
                None => {},
            }
            if scans@.len() > 0 {
                after.lemma_scans_frame(&start, orient_idx as int, y as int, scans@[0].x as int,
                    match start.pre.fit_range_spec(start.bay_id as int, start.block_id as int, orient_idx as int) {
                        Some(r) => r.max_x + 1,
                        None => 0,
                    }, scans@);
            }
        }
        let mut res: Vec<ScheduledBlock> = Vec::new();
        let mut i: usize = 0;
        while i < scans.len()
            invariant
                i <= scans@.len(),
                self.wf(),
                start.same_placement(&*self),
                start.wf(),
                forall|q: int| 0 <= q < scans@.len() ==> start.entry_ok(orient_idx as int, y as int, (#[trigger] scans@[q]).x as int, scans@[q].entry_time),
                forall|a: int, b: int| 0 <= a < b < scans@.len() ==> scans@[a].x < scans@[b].x,
                forall|q: int| 0 <= q < res@.len() ==> {
                    let c = #[trigger] res@[q];
                    &&& c.block_id == start.block_id
                    &&& c.bay_id == start.bay_id
                    &&& c.orient_idx == orient_idx
                    &&& c.y == y
                    &&& c.exit_time == c.entry_time + start.process_t
                    &&& start.entry_ok(orient_idx as int, y as int, c.x as int, Some(c.entry_time))
                    &&& exists|j: int| 0 <= j < i && #[trigger] scans@[j].x == c.x
                },
                forall|a: int, b: int| 0 <= a < b < res@.len() ==> res@[a].x < res@[b].x,
                res@.len() > 0 ==> exists|j: int| 0 <= j < i && #[trigger] scans@[j].x == res@.last().x,
                forall|j: int| 0 <= j < i && (#[trigger] scans@[j]).entry_time is Some ==>
                    exists|q: int| 0 <= q < res@.len() && #[trigger] res@[q].x == scans@[j].x,
                self.block_id == start.block_id,
                self.bay_id == start.bay_id,
                self.process_t == start.process_t,
                match start.pre.fit_range_spec(start.bay_id as int, start.block_id as int, orient_idx as int) {
                    Some(r) => if r.min_y <= y <= r.max_y {
                        &&& scans@.len() > 0
                        &&& start.scans_ok(orient_idx as int, y as int, r.min_x as int, r.max_x + 1, scans@)
                        &&& forall|q: int| 0 <= q < scans@.len() ==> (#[trigger] scans@[q]).x == r.min_x
                            || start.hit_changes(orient_idx as int, y as int, scans@[q].x as int)
                        &&& forall|xx: int| r.min_x < xx <= r.max_x && #[trigger] start.hit_changes(orient_idx as int, y as int, xx)
                            ==> exists|q: int| 0 <= q < scans@.len() && scans@[q].x == xx
                    } else {
                        scans@.len() == 0
                    },
                    None => scans@.len() == 0,
                },
                scans@.len() == 0 ==> res@.len() == 0,
            decreases scans@.len() - i,
        {
            let scan = scans[i];
            match scan.entry_time {
                Some(entry_time) => {
                    proof {
                        assert(start.entry_ok(orient_idx as int, y as int, scan.x as int, Some(entry_time)));
                        assert(start.core_wf());
                        start.lemma_entry_bounded(orient_idx as int, y as int, scan.x as int, entry_time);
                    }
                    let c = ScheduledBlock {
                        block_id: self.block_id,
                        bay_id: self.bay_id,
                        orient_idx,
                        x: scan.x,
                        y,
                        entry_time,
                        exit_time: entry_time + self.process_t,
                    };
                    let ghost res0 = res@;
                    res.push(c);
                    proof {
                        assert(res@[res0.len() as int] == c);
                        assert(scans@[i as int].x == c.x);
                        assert forall|q: int| 0 <= q < res@.len() implies {
                            let d = #[trigger] res@[q];
                            &&& d.block_id == start.block_id
                            &&& d.bay_id == start.bay_id
                            &&& d.orient_idx == orient_idx
                            &&& d.y == y
                            &&& d.exit_time == d.entry_time + start.process_t
                            &&& start.entry_ok(orient_idx as int, y as int, d.x as int, Some(d.entry_time))
                            &&& exists|j: int| 0 <= j < i + 1 && #[trigger] scans@[j].x == d.x
                        } by {
                            if q < res0.len() {
                                assert(res@[q] == res0[q]);
                                let j = choose|j: int| 0 <= j < i && #[trigger] scans@[j].x == res0[q].x;
                                assert(scans@[j].x == res@[q].x);
                            } else {
                                assert(scans@[i as int].x == res@[q].x);
                            }
                        }
                        assert forall|a: int, b: int| 0 <= a < b < res@.len() implies res@[a].x < res@[b].x by {
                            if b < res0.len() {
                                assert(res@[a] == res0[a] && res@[b] == res0[b]);
                            } else {
                                assert(res@[a] == res0[a]);
                                if a + 1 < res0.len() {
                                    assert(res0[a].x < res0.last().x);
                                }
                                let j = choose|j: int| 0 <= j < i && #[trigger] scans@[j].x == res0.last().x;
                                let ja = choose|ja: int| 0 <= ja < i && #[trigger] scans@[ja].x == res0[a].x;
                                assert(scans@[ja].x < scans@[i as int].x);
                            }
                        }
                        assert forall|j: int| 0 <= j < i + 1 && (#[trigger] scans@[j]).entry_time is Some implies
                            exists|q: int| 0 <= q < res@.len() && #[trigger] res@[q].x == scans@[j].x by {
                            if j < i {
                                let q = choose|q: int| 0 <= q < res0.len() && #[trigger] res0[q].x == scans@[j].x;
                                assert(res@[q] == res0[q]);
                            } else {
                                assert(res@[res0.len() as int].x == scans@[j].x);
                            }
                        }
                    }
                },
                None => {
                    proof {
                        assert forall|q: int| 0 <= q < res@.len() implies
                            exists|j: int| 0 <= j < i + 1 && #[trigger] scans@[j].x == (#[trigger] res@[q]).x by {
                            let j = choose|j: int| 0 <= j < i && #[trigger] scans@[j].x == res@[q].x;
                            assert(scans@[j].x == res@[q].x);
                        }
                    }
                },
            }
            i += 1;
        }
        proof {
            match start.pre.fit_range_spec(start.bay_id as int, start.block_id as int, orient_idx as int) {
                Some(r) => {
                    if r.min_y <= y <= r.max_y {
                        assert(scans@.len() > 0);
                        assert(start.scans_ok(orient_idx as int, y as int, r.min_x as int, r.max_x + 1, scans@));
                        assert forall|q: int| 0 <= q < res@.len() implies r.min_x <= (#[trigger] res@[q]).x <= r.max_x by {
                            let j = choose|j: int| 0 <= j < scans@.len() && #[trigger] scans@[j].x == res@[q].x;
                            assert(r.min_x <= scans@[j].x < r.max_x + 1);
                        }
                        assert forall|xx: int, t: int| r.min_x <= xx <= r.max_x && start.min_t <= t <= start.max_t
                            && !#[trigger] start.blocked(orient_idx as int, xx, y as int, t)
                            implies exists|q: int| 0 <= q < res@.len() && res@[q].x <= xx
                                && #[trigger] start.same_blocking(orient_idx as int, y as int, xx, res@[q].x as int) by {
                            let j = lemma_find_span(scans@, xx, r.max_x + 1);
                            assert(start.same_blocking(orient_idx as int, y as int, xx, scans@[j].x as int));
                            assert(!start.blocked(orient_idx as int, scans@[j].x as int, y as int, t));
                            assert(start.entry_ok(orient_idx as int, y as int, scans@[j].x as int, scans@[j].entry_time));
                            assert(scans@[j].entry_time is Some);
                            let q = choose|q: int| 0 <= q < res@.len() && #[trigger] res@[q].x == scans@[j].x;
                            assert(res@[q].x <= xx);
                        }
                        assert forall|q: int| 0 <= q < res@.len() implies (#[trigger] res@[q]).x == r.min_x
                            || start.hit_changes(orient_idx as int, y as int, res@[q].x as int) by {
                            let j = choose|j: int| 0 <= j < scans@.len() && #[trigger] scans@[j].x == res@[q].x;
                            assert(scans@[j].x == r.min_x || start.hit_changes(orient_idx as int, y as int, scans@[j].x as int));
                        }
                        assert forall|xx: int, t: int| r.min_x <= xx <= r.max_x
                            && (xx == r.min_x || start.hit_changes(orient_idx as int, y as int, xx))
                            && start.min_t <= t <= start.max_t
                            && !#[trigger] start.blocked(orient_idx as int, xx, y as int, t)
                            implies exists|q: int| 0 <= q < res@.len() && res@[q].x == xx by {
                            let j = if xx == r.min_x {
                                0
                            } else {
                                choose|j: int| 0 <= j < scans@.len() && scans@[j].x == xx
                            };
                            assert(scans@[j].x == xx);
                            assert(start.entry_ok(orient_idx as int, y as int, scans@[j].x as int, scans@[j].entry_time));
                            assert(scans@[j].entry_time is Some);
                            let q = choose|q: int| 0 <= q < res@.len() && #[trigger] res@[q].x == scans@[j].x;
                        }
                    }
                },
                None => {},
            }
        }
        res
    }
}

/// Days of `[lo, hi]` inside `[l, r]`.
pub open spec fn overlap_len(l: int, r: int, lo: int, hi: int) -> int {
    let a = if l >= lo { l } else { lo };
    let b = if r <= hi { r } else { hi };
    if a <= b { b - a + 1 } else { 0 }
}

impl<'a> PlacementXScanner<'a> {
    /// Days of `[lo, hi]` inside the forbidden intervals, numbered below
    /// `k`, of old block `o` in its hit state with the new block at
    /// `(x, y)`.
    pub open spec fn owner_overlap(&self, oi: int, o: int, x: int, y: int, lo: int, hi: int, k: int) -> int
        decreases k,
    {
        if k <= 0 {
            0
        } else {
            let s = k - 1;
            self.owner_overlap(oi, o, x, y, lo, hi, k - 1) + if self.holds_slot(o, self.hit_state(oi, o, x, y), s) {
                overlap_len(self.forbidden_slots.intervals@[s].0 as int, self.forbidden_slots.intervals@[s].1 as int, lo, hi)
            } else {
                0
            }
        }
    }

    /// The old blocks below `m` whose forbidden intervals at `(x, y)` cover
    /// some day of `[lo, hi]`, in order, with how many days they cover.
    pub open spec fn blockers_upto(&self, oi: int, x: int, y: int, lo: int, hi: int, m: int) -> Seq<PlacementBlocker>
        decreases m,
    {
        if m <= 0 {
            Seq::empty()
        } else {
            let prev = self.blockers_upto(oi, x, y, lo, hi, m - 1);
            let d = self.owner_overlap(oi, m - 1, x, y, lo, hi, self.forbidden_slots.intervals@.len() as int);
            if d > 0 {
                prev.push(PlacementBlocker { block_id: self.bay_old_blocks@[m - 1].block_id, overlap_days: d as i64 })
            } else {
                prev
            }
        }
    }

    /// A forbidden interval of an old block lies within the entry window.
    /// An earliest free entry time lies within the coordinate limit: from
    /// the limit on, every time is past the stay of each old block.
    proof fn lemma_entry_bounded(&self, oi: int, y: int, x: int, t: i64)
        requires
            self.core_wf(),
            self.entry_ok(oi, y, x, Some(t)),
        ensures
            t <= COORD_LIMIT,
    {
        if t > COORD_LIMIT {
            let s = t - 1;
            assert(self.blocked(oi, x, y, s));
            let o = choose|o: int| 0 <= o < self.n_old() && #[trigger] self.conflicts(oi, o, x, y, s);
            assert(placed_ok(self.bay_old_blocks@[o]));
        }
    }

    proof fn lemma_slot_in_window(&self, o: int, st: int, s: int)
        requires
            self.core_wf(),
            0 <= o < self.n_old(),
            0 <= st < 4,
            self.holds_slot(o, st, s),
        ensures
            0 <= s < self.forbidden_slots.intervals@.len(),
            self.forbidden_slots.owners@[s] == o,
            self.min_t <= self.forbidden_slots.intervals@[s].0 <= self.forbidden_slots.intervals@[s].1 <= self.max_t,
            self.forbidden_slots.intervals@[s].1 < COORD_LIMIT,
    {
        let set = self.forbidden_slots.slot_set(o, st);
        assert(set.wf());
        let q = choose|q: int| 0 <= q < set.view().len() && set.view()[q] == s as u32;
        assert(set.view()[q] == set.slots@[q]);
        let sivs = self.forbidden_slots.state_intervals(o, st);
        assert(sivs[q] == self.forbidden_slots.intervals@[s]);
        let (l, r) = sivs[q];
        assert(l <= r);
        assert(covered(sivs, l as int));
        assert(covered(sivs, r as int));
        assert(info_for(self.old_time_infos@[o], self.bay_old_blocks@[o], self.process_t as int, self.min_t as int, self.max_t as int));
        assert(placed_ok(self.bay_old_blocks@[o]));
        match self.old_time_infos@[o] {
            Some(info) => {
                assert(state_forbids(info, st, l as int));
                assert(state_forbids(info, st, r as int));
            },
            None => {
                assert(set.len == 0);
            },
        }
    }

    /// An old block holds at most two slots in a state, each covering at
    /// most the whole window, so its overlap stays within twice the window.
    proof fn lemma_owner_overlap_bound(&self, oi: int, o: int, x: int, y: int, lo: int, hi: int, k: int)
        requires
            self.core_wf(),
            0 <= o < self.n_old(),
            0 <= k,
        ensures
            0 <= self.owner_overlap(oi, o, x, y, lo, hi, k),
            self.owner_overlap(oi, o, x, y, lo, hi, k) <= ({
                let set = self.forbidden_slots.slot_set(o, self.hit_state(oi, o, x, y));
                let m = COORD_LIMIT - self.min_t + 1;
                (if set.len > 0 && (set.slots@[0] as int) < k { m } else { 0 })
                    + (if set.len > 1 && (set.slots@[1] as int) < k { m } else { 0 })
            }),
        decreases k,
    {
        if k > 0 {
            self.lemma_owner_overlap_bound(oi, o, x, y, lo, hi, k - 1);
            let st = self.hit_state(oi, o, x, y);
            let s = k - 1;
            let set = self.forbidden_slots.slot_set(o, st);
            assert(set.wf());
            if self.holds_slot(o, st, s) {
                self.lemma_slot_in_window(o, st, s);
                let q = choose|q: int| 0 <= q < set.view().len() && set.view()[q] == s as u32;
                assert(set.view()[q] == set.slots@[q]);
                if set.len > 1 {
                    assert(set.slots@[0] != set.slots@[1]);
                }
            }
        }
    }

    /// Where the new block at `x` in row `y` could enter at `target_entry`
    /// or later: the earliest free entry time there and, when that is later
    /// than `target_entry`, the old blocks whose forbidden intervals cover
    /// days of the wait, ranked by how many. `None` when the window from
    /// `target_entry` is empty, the position is outside the fit range, or
    /// no entry time there is free.
    pub fn trace_fixed_placement(&mut self, orient_idx: usize, x: i64, y: i64, target_entry: i64) -> (res: Option<PlacementTrace>)
        requires
            old(self).wf(),
        ensures
            final(self).wf(),
            final(self).same_placement(&*old(self)),
            final(self).bay_id == old(self).bay_id,
            final(self).old_time_infos == old(self).old_time_infos,
            final(self).forbidden_slots == old(self).forbidden_slots,
            ({
                let lo_t = if old(self).min_t >= target_entry { old(self).min_t as int } else { target_entry as int };
                match res {
                    None => lo_t > old(self).max_t || match old(self).pre.fit_range_spec(old(self).bay_id as int, old(self).block_id as int, orient_idx as int) {
                        Some(r) => y < r.min_y || y > r.max_y || x < r.min_x || x > r.max_x
                            || forall|t: int| lo_t <= t <= old(self).max_t ==> final(self).blocked(orient_idx as int, x as int, y as int, t),
                        None => true,
                    },
                    Some(tr) => {
                        &&& lo_t <= tr.earliest_entry <= old(self).max_t
                        &&& !final(self).blocked(orient_idx as int, x as int, y as int, tr.earliest_entry as int)
                        &&& forall|t: int| lo_t <= t < tr.earliest_entry ==> final(self).blocked(orient_idx as int, x as int, y as int, t)
                        &&& tr.earliest_entry == target_entry ==> tr.blockers@.len() == 0
                        &&& tr.earliest_entry != target_entry ==> tr.blockers@.to_multiset() == final(self).blockers_upto(orient_idx as int,
                            x as int, y as int, target_entry as int, tr.earliest_entry - 1, final(self).n_old()).to_multiset()
                        &&& forall|i: int, j: int| 0 <= i < j < tr.blockers@.len() ==> !ranks_before(tr.blockers@[j], tr.blockers@[i])
                        &&& forall|i: int, j: int| 0 <= i < j < tr.blockers@.len() ==> tr.blockers@[i].overlap_days >= tr.blockers@[j].overlap_days
                    },
                }
            }),
    {
        let min_t = if self.min_t >= target_entry { self.min_t } else { target_entry };
        let max_t = self.max_t;
        if min_t > max_t {
            return None;
        }
        let ghost start = *self;
        let scans = self.scan_y_ranges(orient_idx, y, x, x);
        if scans.len() == 0 {
            return None;
        }
        proof {
            assert(scans@.last().x == x);
        }
        let n = self.bay_old_blocks.len();
        let slot_count = self.forbidden_slots.intervals.len();
        proof {
            assert forall|s: int| self.active_slots.active(s) implies s < self.forbidden_slots.intervals@.len() by {
                let o = choose|o: int| 0 <= o < self.n_old()
                    && #[trigger] self.holds_slot(o, self.hit_state(orient_idx as int, o, x as int, y as int), s);
                let st = self.hit_state(orient_idx as int, o, x as int, y as int);
                assert(0 <= st < 4);
                self.lemma_slot_in_window(o, st, s);
            }
        }
        let no_base: Vec<Interval> = Vec::new();
        let forbidden = ForbiddenIntervals {
            active: &self.active_slots,
            intervals: self.forbidden_slots.intervals.as_slice(),
            owners: self.forbidden_slots.owners.as_slice(),
        };
        proof {
            assert(forbidden.intervals@ == self.forbidden_slots.intervals@);
            assert(*forbidden.active == self.active_slots);
        }
        let found = forbidden.first_feasible_time(no_base.as_slice(), min_t, max_t);
        proof {
            assert forall|t: int| self.min_t <= t <= self.max_t implies
                (crate::slots::covered_either(no_base@, self.active_slots.active_intervals(self.forbidden_slots.intervals@), t)
                <==> self.blocked(orient_idx as int, x as int, y as int, t)) by {
                assert(!covered(no_base@, t));
            }
        }
        let entry = match found {
            Some(e) => e,
            None => {
                proof {
                    assert forall|t: int| min_t <= t <= self.max_t implies self.blocked(orient_idx as int, x as int, y as int, t) by {
                        assert(crate::slots::covered_either(no_base@, forbidden.active.active_intervals(forbidden.intervals@), t));
                        assert(crate::slots::covered_either(no_base@, self.active_slots.active_intervals(self.forbidden_slots.intervals@), t));
                    }
                }
                return None;
            },
        };
        if entry == target_entry {
            return Some(PlacementTrace { earliest_entry: entry, blockers: Vec::new() });
        }
        let overlap_end = entry - 1;
        let ghost lo = target_entry as int;
        let ghost hi = overlap_end as int;
        let mut overlap_by_owner: Vec<i64> = Vec::new();
        let mut o: usize = 0;
        while o < n
            invariant
                o <= n,
                overlap_by_owner@.len() == o,
                forall|q: int| 0 <= q < o ==> #[trigger] overlap_by_owner@[q] == 0,
            decreases n - o,
        {
            overlap_by_owner.push(0);
            o += 1;
        }
        let mut slot: usize = 0;
        while slot < slot_count
            invariant
                self.wf(),
                n == self.n_old(),
                slot_count == self.forbidden_slots.intervals@.len(),
                slot <= slot_count,
                lo == target_entry,
                hi == overlap_end,
                overlap_by_owner@.len() == n,
                forall|s: int| self.active_slots.active(s) <==> exists|o2: int| 0 <= o2 < self.n_old()
                    && #[trigger] self.holds_slot(o2, self.hit_state(orient_idx as int, o2, x as int, y as int), s),
                forall|q: int| 0 <= q < n ==> #[trigger] overlap_by_owner@[q] == self.owner_overlap(orient_idx as int, q,
                    x as int, y as int, lo, hi, slot as int),
            decreases slot_count - slot,
        {
            let ghost before = overlap_by_owner@;
            if self.active_slots.is_active(slot) {
                let ghost o2 = choose|o2: int| 0 <= o2 < self.n_old()
                    && #[trigger] self.holds_slot(o2, self.hit_state(orient_idx as int, o2, x as int, y as int), slot as int);
                proof {
                    let st = self.hit_state(orient_idx as int, o2, x as int, y as int);
                    assert(0 <= st < 4);
                    self.lemma_slot_in_window(o2, st, slot as int);
                }
                let (left, right) = self.forbidden_slots.intervals[slot];
                let owner = self.forbidden_slots.owners[slot] as usize;
                let ol = if left >= target_entry { left } else { target_entry };
                let or = if right <= overlap_end { right } else { overlap_end };
                if ol <= or {
                    proof {
                        self.lemma_owner_overlap_bound(orient_idx as int, o2, x as int, y as int, lo, hi, slot as int);
                        let st = self.hit_state(orient_idx as int, o2, x as int, y as int);
                        let set = self.forbidden_slots.slot_set(o2, st);
                        assert(set.wf());
                        let qq = choose|qq: int| 0 <= qq < set.view().len() && set.view()[qq] == slot as u32;
                        assert(set.view()[qq] == set.slots@[qq]);
                        if set.len > 1 {
                            assert(set.slots@[0] != set.slots@[1]);
                        }
                        assert(overlap_by_owner@[owner as int] == self.owner_overlap(orient_idx as int, o2, x as int, y as int, lo, hi, slot as int));
                    }
                    let cur = overlap_by_owner[owner];
                    overlap_by_owner.set(owner, cur + (or - ol + 1));
                }
                proof {
                    assert forall|q: int| 0 <= q < n implies #[trigger] overlap_by_owner@[q] == self.owner_overlap(orient_idx as int, q,
                        x as int, y as int, lo, hi, slot as int + 1) by {
                        if q != o2 {
                            if self.holds_slot(q, self.hit_state(orient_idx as int, q, x as int, y as int), slot as int) {
                                self.lemma_slot_owner(q, self.hit_state(orient_idx as int, q, x as int, y as int), o2,
                                    self.hit_state(orient_idx as int, o2, x as int, y as int), slot as int);
                            }
                        }
                    }
                }
            } else {
                proof {
                    assert forall|q: int| 0 <= q < n implies #[trigger] overlap_by_owner@[q] == self.owner_overlap(orient_idx as int, q,
                        x as int, y as int, lo, hi, slot as int + 1) by {
                        assert(!self.holds_slot(q, self.hit_state(orient_idx as int, q, x as int, y as int), slot as int));
                    }
                }
            }
            slot += 1;
        }
        let mut blockers: Vec<PlacementBlocker> = Vec::new();
        let mut o: usize = 0;
        while o < n
            invariant
                self.wf(),
                n == self.n_old(),
                o <= n,
                slot_count == self.forbidden_slots.intervals@.len(),
                overlap_by_owner@.len() == n,
                forall|q: int| 0 <= q < n ==> #[trigger] overlap_by_owner@[q] == self.owner_overlap(orient_idx as int, q,
                    x as int, y as int, lo, hi, slot_count as int),
                blockers@ == self.blockers_upto(orient_idx as int, x as int, y as int, lo, hi, o as int),
            decreases n - o,
        {
            let days = overlap_by_owner[o];
            if days > 0 {
                blockers.push(PlacementBlocker { block_id: self.bay_old_blocks[o].block_id, overlap_days: days });
            }
            o += 1;
        }
        let ghost unsorted = blockers@;
        sort_blockers(&mut blockers);
        proof {
            assert(unsorted == self.blockers_upto(orient_idx as int, x as int, y as int, lo, hi, n as int));
            crate::trace::lemma_ranked_by_overlap(blockers@);
        }
        Some(PlacementTrace { earliest_entry: entry, blockers })
    }
}

} // verus!
