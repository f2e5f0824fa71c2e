//! Plain data of a schedule: where and when each block stands.
use vstd::prelude::*;

verus! {

/// Bound on the magnitude of times and coordinates: 2^60. The scheduler
/// adds and subtracts up to four such values at once (an entry time plus a
/// processing time minus a due date, a position minus a grid offset plus
/// one, twice the length of an entry window), and every such sum stays
/// below 2^63 when each term is within 2^60. Problem data (bay sizes, times
/// of a planning horizon) lie far inside it.
pub const COORD_LIMIT: i64 = 0x1000_0000_0000_0000;

/// `v` lies within the coordinate bound.
pub open spec fn coord_ok(v: int) -> bool {
    -COORD_LIMIT <= v <= COORD_LIMIT
}

/// A block placed in a bay, with its orientation, position and the time
/// span `[entry_time, exit_time)` during which it occupies the bay.
#[derive(Clone, Copy, Debug, PartialEq, Eq, Structural)]
pub struct ScheduledBlock {
    pub block_id: usize,
    pub bay_id: usize,
    pub orient_idx: usize,
    pub x: i64,
    pub y: i64,
    pub entry_time: i64,
    pub exit_time: i64,
}

/// Integer bounds of admissible reference positions.
#[derive(Clone, Copy, Debug, PartialEq, Eq, Structural)]
pub struct Boundsi {
    pub min_x: i64,
    pub max_x: i64,
    pub min_y: i64,
    pub max_y: i64,
}

/// A bay of the yard, `width` by `height`.
#[derive(Clone, Copy, Debug, PartialEq, Eq, Structural)]
pub struct Bay {
    pub width: i64,
    pub height: i64,
}

/// The scheduling data of a block: it may enter from `release_time` on,
/// stays `processing_time` steps, is due at `due_date`, loads its bay by
/// `workload`, has a preference value per bay and `orientation_count`
/// orientations.
#[derive(Clone, Debug)]
pub struct Block {
    pub release_time: i64,
    pub due_date: i64,
    pub processing_time: i64,
    pub workload: i64,
    pub bay_preferences: Vec<i64>,
    pub orientation_count: usize,
}

/// The bays and blocks of an instance.
#[derive(Clone, Debug)]
pub struct Problem {
    pub bays: Vec<Bay>,
    pub blocks: Vec<Block>,
}

/// The times and coordinates of a scheduled block stay within the limit.
pub open spec fn placed_ok(b: ScheduledBlock) -> bool {
    &&& coord_ok(b.x as int)
    &&& coord_ok(b.y as int)
    &&& coord_ok(b.entry_time as int)
    &&& coord_ok(b.exit_time as int)
}

} // verus!
