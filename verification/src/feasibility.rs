//! Whether a placement can join a schedule: no block of its bay whose
//! stay overlaps its own is hit by a crane movement that the order of the
//! stays requires.
use vstd::prelude::*;

use crate::collision::{BlockOrient, CollisionPrecompute};
use crate::forbidden::conflict;
use crate::model::{placed_ok, ScheduledBlock};
use crate::scanner::PlacementXScanner;
use crate::window::{covered, Interval};

verus! {

/// The orientation that a placement uses.
pub open spec fn orient_of(s: ScheduledBlock) -> BlockOrient {
    BlockOrient { block_id: s.block_id, orient_idx: s.orient_idx }
}

/// The crane movement of `moving` over `fixed` collides, as far as the
/// grids of both directions of the pair are published.
pub open spec fn crane_hits(pre: &CollisionPrecompute, moving: ScheduledBlock, fixed: ScheduledBlock) -> bool {
    match (pre.crane_grid(orient_of(moving), orient_of(fixed)), pre.crane_grid(orient_of(fixed), orient_of(moving))) {
        (Some(g), Some(_)) => g.hits(fixed.y - moving.y, fixed.x - moving.x),
        _ => false,
    }
}

/// `new` cannot stand beside `old`: same bay, overlapping stays, and a
/// crane movement that the order of the stays requires collides. When the
/// stay of one lies strictly inside the other's, only the inner block
/// moves over the outer one; otherwise both movements happen.
pub open spec fn placement_conflict(pre: &CollisionPrecompute, new: ScheduledBlock, old: ScheduledBlock) -> bool {
    &&& old.bay_id == new.bay_id
    &&& old.entry_time < new.exit_time
    &&& new.entry_time < old.exit_time
    &&& ((!(new.entry_time < old.entry_time && old.exit_time < new.exit_time) && crane_hits(pre, new, old))
        || (!(old.entry_time < new.entry_time && new.exit_time < old.exit_time) && crane_hits(pre, old, new)))
}

/// Some interval of `ivs` holds `x`.
fn interval_covers(ivs: &[Interval], x: i64) -> (res: bool)
    ensures
        res == covered(ivs@, x as int),
{
    let mut i: usize = 0;
    while i < ivs.len()
        invariant
            i <= ivs@.len(),
            forall|k: int| 0 <= k < i ==> !(#[trigger] ivs@[k].0 <= x <= ivs@[k].1),
        decreases ivs@.len() - i,
    {
        if ivs[i].0 <= x && x <= ivs[i].1 {
            return true;
        }
        i += 1;
    }
    false
}

/// Whether `new` conflicts with `old`, as `placement_conflict` says.
fn conflicts_with(pre: &CollisionPrecompute, new: ScheduledBlock, old: ScheduledBlock) -> (res: bool)
    requires
        pre.wf(),
        placed_ok(new),
        placed_ok(old),
    ensures
        res == placement_conflict(pre, new, old),
{
    if old.bay_id != new.bay_id || !(old.entry_time < new.exit_time && new.entry_time < old.exit_time) {
        return false;
    }
    let (new_old, old_new) = match pre.crane_pairs_both_directions(
        BlockOrient { block_id: new.block_id, orient_idx: new.orient_idx },
        BlockOrient { block_id: old.block_id, orient_idx: old.orient_idx },
    ) {
        Some((ab, ba)) => {
            let h0 = interval_covers(ab.crane.dx_intervals(old.y - new.y), old.x - new.x);
            let h1 = interval_covers(ba.crane.dx_intervals(new.y - old.y), new.x - old.x);
            (h0, h1)
        },
        None => (false, false),
    };
    let old_inside_new = new.entry_time < old.entry_time && old.exit_time < new.exit_time;
    let new_inside_old = old.entry_time < new.entry_time && new.exit_time < old.exit_time;
    (!old_inside_new && new_old) || (!new_inside_old && old_new)
}

/// `new` can join `schedule`: it conflicts with none of its placements.
/// Crane grids that are not published for both directions of a pair count
/// as no collision.
pub fn can_insert(pre: &CollisionPrecompute, new_block: ScheduledBlock, schedule: &[ScheduledBlock]) -> (res: bool)
    requires
        pre.wf(),
        placed_ok(new_block),
        forall|i: int| 0 <= i < schedule@.len() ==> placed_ok(#[trigger] schedule@[i]),
    ensures
        res == !exists|i: int| 0 <= i < schedule@.len() && placement_conflict(pre, new_block, #[trigger] schedule@[i]),
{
    let mut i: usize = 0;
    while i < schedule.len()
        invariant
            i <= schedule@.len(),
            pre.wf(),
            placed_ok(new_block),
            forall|k: int| 0 <= k < schedule@.len() ==> placed_ok(#[trigger] schedule@[k]),
            forall|k: int| 0 <= k < i ==> !placement_conflict(pre, new_block, #[trigger] schedule@[k]),
        decreases schedule@.len() - i,
    {
        if conflicts_with(pre, new_block, schedule[i]) {
            return false;
        }
        i += 1;
    }
    true
}

/// What the scanner refuses is exactly what `can_insert` refuses: the new
/// block entering at `t` at `(x, y)` is blocked by an old block of the bay
/// if and only if it conflicts with some placement of the schedule that
/// the scanner was built from.
pub proof fn lemma_scanner_blocked_iff_conflict(
    s: &PlacementXScanner,
    schedule: Seq<ScheduledBlock>,
    orient_idx: usize,
    x: i64,
    y: i64,
    t: i64,
)
    requires
        s.bay_old_blocks@ == schedule.filter(|b: ScheduledBlock| b.bay_id == s.bay_id),
        i64::MIN <= t + s.process_t <= i64::MAX,
    ensures
        s.blocked(orient_idx as int, x as int, y as int, t as int) <==> exists|i: int| 0 <= i < schedule.len()
            && placement_conflict(s.pre, ScheduledBlock {
                block_id: s.block_id,
                bay_id: s.bay_id,
                orient_idx,
                x,
                y,
                entry_time: t,
                exit_time: (t + s.process_t) as i64,
            }, #[trigger] schedule[i]),
{
    broadcast use vstd::seq_lib::group_filter_ensures;
    let pred = |b: ScheduledBlock| b.bay_id == s.bay_id;
    let c = ScheduledBlock {
        block_id: s.block_id,
        bay_id: s.bay_id,
        orient_idx,
        x,
        y,
        entry_time: t,
        exit_time: (t + s.process_t) as i64,
    };
    let olds = s.bay_old_blocks@;
    assert forall|o: int| 0 <= o < olds.len() implies #[trigger] s.conflicts(orient_idx as int, o, x as int, y as int, t as int)
        == placement_conflict(s.pre, c, olds[o]) by {
        assert(pred(schedule.filter(pred)[o]));
    }
    if s.blocked(orient_idx as int, x as int, y as int, t as int) {
        let o = choose|o: int| 0 <= o < s.n_old() && #[trigger] s.conflicts(orient_idx as int, o, x as int, y as int, t as int);
        assert(schedule.filter(pred).contains(olds[o]));
        schedule.lemma_filter_contains_rev(pred, olds[o]);
        let i = choose|i: int| 0 <= i < schedule.len() && schedule[i] == olds[o];
        assert(placement_conflict(s.pre, c, schedule[i]));
    }
    if exists|i: int| 0 <= i < schedule.len() && placement_conflict(s.pre, c, #[trigger] schedule[i]) {
        let i = choose|i: int| 0 <= i < schedule.len() && placement_conflict(s.pre, c, #[trigger] schedule[i]);
        assert(pred(schedule[i]));
        assert(schedule.filter(pred).contains(schedule[i]));
        let o = choose|o: int| 0 <= o < olds.len() && olds[o] == schedule[i];
        assert(s.conflicts(orient_idx as int, o, x as int, y as int, t as int));
    }
}

/// Every placement that the scanner offers can join the schedule it was
/// built from.
pub proof fn lemma_scanned_candidate_insertable(s: &PlacementXScanner, schedule: Seq<ScheduledBlock>, c: ScheduledBlock)
    requires
        s.bay_old_blocks@ == schedule.filter(|b: ScheduledBlock| b.bay_id == s.bay_id),
        c.block_id == s.block_id,
        c.bay_id == s.bay_id,
        c.exit_time == c.entry_time + s.process_t,
        s.entry_ok(c.orient_idx as int, c.y as int, c.x as int, Some(c.entry_time)),
    ensures
        forall|i: int| 0 <= i < schedule.len() ==> !placement_conflict(s.pre, c, #[trigger] schedule[i]),
{
    lemma_scanner_blocked_iff_conflict(s, schedule, c.orient_idx, c.x, c.y, c.entry_time);
    assert(c == ScheduledBlock {
        block_id: s.block_id,
        bay_id: s.bay_id,
        orient_idx: c.orient_idx,
        x: c.x,
        y: c.y,
        entry_time: c.entry_time,
        exit_time: (c.entry_time + s.process_t) as i64,
    });
}

} // verus!
