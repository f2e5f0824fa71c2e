//! Hashes by which the beam search tells its candidate placements apart:
//! one of where a block stands, and one of the whole placement with its
//! entry time.
use vstd::prelude::*;

use crate::model::ScheduledBlock;
use crate::tabu::{mix, mix_hash, FNV_OFFSET};

verus! {

/// The hash of where a placement stands: block, bay, orientation and row.
pub open spec fn placement_hash(b: ScheduledBlock) -> u64 {
    let h = mix(FNV_OFFSET, b.block_id as u64);
    let h = mix(h, b.bay_id as u64);
    let h = mix(h, b.orient_idx as u64);
    mix(h, b.y as u64)
}

/// The hash of a placement with its position and entry time, built on the
/// hash of where it stands.
pub open spec fn exact_hash(b: ScheduledBlock) -> u64 {
    let h = mix(placement_hash(b), b.x as u64);
    let h = mix(h, b.y as u64);
    mix(h, b.entry_time as u64)
}

/// The hash of where a placement stands.
pub fn hash_block_placement(block: ScheduledBlock) -> (res: u64)
    ensures
        res == placement_hash(block),
{
    let mut hash = FNV_OFFSET;
    hash = mix_hash(hash, block.block_id as u64);
    hash = mix_hash(hash, block.bay_id as u64);
    hash = mix_hash(hash, block.orient_idx as u64);
    mix_hash(hash, block.y as u64)
}

/// The hash of a placement with its position and entry time.
pub fn hash_scheduled_block(block: ScheduledBlock) -> (res: u64)
    ensures
        res == exact_hash(block),
{
    let mut hash = hash_block_placement(block);
    hash = mix_hash(hash, block.x as u64);
    hash = mix_hash(hash, block.y as u64);
    mix_hash(hash, block.entry_time as u64)
}

/// Placements that stand alike and enter alike hash alike, whatever their
/// exit time.
pub proof fn lemma_exact_hash_ignores_exit(a: ScheduledBlock, b: ScheduledBlock)
    requires
        a.block_id == b.block_id,
        a.bay_id == b.bay_id,
        a.orient_idx == b.orient_idx,
        a.x == b.x,
        a.y == b.y,
        a.entry_time == b.entry_time,
    ensures
        exact_hash(a) == exact_hash(b),
        placement_hash(a) == placement_hash(b),
{
}

} // verus!
