//! Blocks of the relaxed pre-solve: bay and time span only, ordered by the
//! time they leave.
use vstd::prelude::*;

use std::cmp::Ordering;

use crate::model::Problem;

verus! {

/// A block placed in a bay for `[entry_time, exit_time)`, without a
/// position.
#[derive(Clone, Copy, Debug, PartialEq, Eq, Structural)]
pub struct PresolveBlock {
    pub block_id: usize,
    pub bay_id: usize,
    pub entry_time: i64,
    pub exit_time: i64,
}

/// The pre-solve block of `block_id` in `bay_id` entering at `entry_time`:
/// it leaves one processing time later.
pub fn make_presolve_block(problem: &Problem, block_id: usize, bay_id: usize, entry_time: i64) -> (res: PresolveBlock)
    requires
        block_id < problem.blocks@.len(),
        i64::MIN <= entry_time + problem.blocks@[block_id as int].processing_time <= i64::MAX,
    ensures
        res == (PresolveBlock {
            block_id,
            bay_id,
            entry_time,
            exit_time: (entry_time + problem.blocks@[block_id as int].processing_time) as i64,
        }),
{
    PresolveBlock {
        block_id,
        bay_id,
        entry_time,
        exit_time: entry_time + problem.blocks[block_id].processing_time,
    }
}

/// `a` comes strictly before `b` in the order by exit time, then entry
/// time, bay and block.
pub open spec fn placed_before(a: PresolveBlock, b: PresolveBlock) -> bool {
    ||| a.exit_time < b.exit_time
    ||| a.exit_time == b.exit_time && a.entry_time < b.entry_time
    ||| a.exit_time == b.exit_time && a.entry_time == b.entry_time && a.bay_id < b.bay_id
    ||| a.exit_time == b.exit_time && a.entry_time == b.entry_time && a.bay_id == b.bay_id && a.block_id < b.block_id
}

/// Orders pre-solve blocks by exit time, then entry time, bay and block.
pub fn placement_order(a: PresolveBlock, b: PresolveBlock) -> (res: Ordering)
    ensures
        (res == Ordering::Less) == placed_before(a, b),
        (res == Ordering::Greater) == placed_before(b, a),
        (res == Ordering::Equal) == (a == b),
{
    if a.exit_time != b.exit_time {
        if a.exit_time < b.exit_time { Ordering::Less } else { Ordering::Greater }
    } else if a.entry_time != b.entry_time {
        if a.entry_time < b.entry_time { Ordering::Less } else { Ordering::Greater }
    } else if a.bay_id != b.bay_id {
        if a.bay_id < b.bay_id { Ordering::Less } else { Ordering::Greater }
    } else if a.block_id != b.block_id {
        if a.block_id < b.block_id { Ordering::Less } else { Ordering::Greater }
    } else {
        Ordering::Equal
    }
}

/// The order is a strict total order on distinct blocks.
pub proof fn lemma_placed_before_total(a: PresolveBlock, b: PresolveBlock, c: PresolveBlock)
    ensures
        !(placed_before(a, b) && placed_before(b, a)),
        a != b ==> placed_before(a, b) || placed_before(b, a),
        placed_before(a, b) && placed_before(b, c) ==> placed_before(a, c),
{
}

} // verus!
