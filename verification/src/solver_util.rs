//! Small pieces shared by the neighbourhoods of the local search: the kinds
//! of neighbourhood, insertion anchors and their parameters, per-block
//! measures of the instance and the selection of blocks to remove.
use vstd::prelude::*;

use crate::model::{Problem, ScheduledBlock};

verus! {

/// The neighbourhoods of the local search.
#[derive(Clone, Copy, Debug, PartialEq, Eq, Structural)]
pub enum NeighborKind {
    LargeReconstruct,
    Shift,
    Move,
    Rotate,
    Swap,
}

/// Position of a neighbourhood kind in statistics tables.
pub open spec fn kind_index(kind: NeighborKind) -> int {
    match kind {
        NeighborKind::LargeReconstruct => 0,
        NeighborKind::Shift => 1,
        NeighborKind::Move => 2,
        NeighborKind::Rotate => 3,
        NeighborKind::Swap => 4,
    }
}

impl NeighborKind {
    /// The short name printed in statistics.
    pub fn name(&self) -> (res: &'static str)
        ensures
            kind_index(*self) == 0 ==> res@ == "Large"@,
            kind_index(*self) == 1 ==> res@ == "Shift"@,
            kind_index(*self) == 2 ==> res@ == "Move"@,
            kind_index(*self) == 3 ==> res@ == "Rotate"@,
            kind_index(*self) == 4 ==> res@ == "Swap"@,
    {
        match self {
            NeighborKind::LargeReconstruct => "Large",
            NeighborKind::Shift => "Shift",
            NeighborKind::Move => "Move",
            NeighborKind::Rotate => "Rotate",
            NeighborKind::Swap => "Swap",
        }
    }

    /// The position of the kind in statistics tables.
    pub fn index(&self) -> (res: usize)
        ensures
            res == kind_index(*self),
    {
        match self {
            NeighborKind::LargeReconstruct => 0,
            NeighborKind::Shift => 1,
            NeighborKind::Move => 2,
            NeighborKind::Rotate => 3,
            NeighborKind::Swap => 4,
        }
    }
}

/// Distinct kinds have distinct indices, all below five.
pub proof fn lemma_kind_index_injective(a: NeighborKind, b: NeighborKind)
    ensures
        0 <= kind_index(a) < 5,
        kind_index(a) == kind_index(b) ==> a == b,
{
}

/// The corner of the bay towards which a block is inserted.
#[derive(Clone, Copy, Debug, PartialEq, Eq, Structural)]
pub enum InsertAnchor {
    BottomLeft,
    BottomRight,
    TopLeft,
    TopRight,
}

/// The side of the bay towards which a block is pushed along x.
#[derive(Clone, Copy, Debug, PartialEq, Eq, Structural)]
pub enum HorizontalAnchor {
    Left,
    Right,
}

/// The horizontal side of an insertion corner.
pub fn horizontal_anchor(anchor: InsertAnchor) -> (res: HorizontalAnchor)
    ensures
        res == (match anchor {
            InsertAnchor::BottomLeft | InsertAnchor::TopLeft => HorizontalAnchor::Left,
            InsertAnchor::BottomRight | InsertAnchor::TopRight => HorizontalAnchor::Right,
        }),
{
    match anchor {
        InsertAnchor::BottomLeft | InsertAnchor::TopLeft => HorizontalAnchor::Left,
        InsertAnchor::BottomRight | InsertAnchor::TopRight => HorizontalAnchor::Right,
    }
}

/// Parameters of the shift neighbourhood: the range of y displacements.
#[derive(Clone, Copy, Debug)]
pub struct ShiftNeighborParams {
    pub dy_range: (i64, i64),
}

/// Parameters of the rotate neighbourhood: the range of y displacements.
#[derive(Clone, Copy, Debug)]
pub struct RotateNeighborParams {
    pub dy_range: (i64, i64),
}

/// Time a block can wait beyond its processing time before it is late.
pub fn block_slack(problem: &Problem, block_id: usize) -> (res: i64)
    requires
        block_id < problem.blocks@.len(),
        i64::MIN <= problem.blocks@[block_id as int].due_date - problem.blocks@[block_id as int].release_time
            - problem.blocks@[block_id as int].processing_time <= i64::MAX,
        i64::MIN <= problem.blocks@[block_id as int].due_date - problem.blocks@[block_id as int].release_time <= i64::MAX,
    ensures
        res == problem.blocks@[block_id as int].due_date - problem.blocks@[block_id as int].release_time
            - problem.blocks@[block_id as int].processing_time,
{
    let block = &problem.blocks[block_id];
    block.due_date - block.release_time - block.processing_time
}

/// The smallest value of a non-empty sequence.
pub open spec fn seq_min(s: Seq<i64>) -> i64
    decreases s.len(),
{
    if s.len() <= 1 {
        s[0]
    } else if s.last() < seq_min(s.drop_last()) {
        s.last()
    } else {
        seq_min(s.drop_last())
    }
}

/// The largest value of a non-empty sequence.
pub open spec fn seq_max(s: Seq<i64>) -> i64
    decreases s.len(),
{
    if s.len() <= 1 {
        s[0]
    } else if s.last() > seq_max(s.drop_last()) {
        s.last()
    } else {
        seq_max(s.drop_last())
    }
}

/// The spread between the largest and the smallest bay preference of a
/// block; zero without preferences.
pub fn block_pref_spread(problem: &Problem, block_id: usize) -> (res: i64)
    requires
        block_id < problem.blocks@.len(),
        problem.blocks@[block_id as int].bay_preferences@.len() > 0 ==>
            seq_max(problem.blocks@[block_id as int].bay_preferences@) - seq_min(problem.blocks@[block_id as int].bay_preferences@) <= i64::MAX,
    ensures
        res == if problem.blocks@[block_id as int].bay_preferences@.len() == 0 {
            0
        } else {
            seq_max(problem.blocks@[block_id as int].bay_preferences@) - seq_min(problem.blocks@[block_id as int].bay_preferences@)
        },
{
    let prefs = &problem.blocks[block_id].bay_preferences;
    if prefs.len() == 0 {
        return 0;
    }
    let mut min_pref = prefs[0];
    let mut max_pref = prefs[0];
    let mut i: usize = 1;
    while i < prefs.len()
        invariant
            1 <= i <= prefs@.len(),
            min_pref == seq_min(prefs@.take(i as int)),
            max_pref == seq_max(prefs@.take(i as int)),
            min_pref <= max_pref,
        decreases prefs@.len() - i,
    {
        proof {
            assert(prefs@.take(i as int + 1).drop_last() =~= prefs@.take(i as int));
        }
        let v = prefs[i];
        if v < min_pref {
            min_pref = v;
        }
        if v > max_pref {
            max_pref = v;
        }
        i += 1;
    }
    proof {
        assert(prefs@.take(prefs@.len() as int) =~= prefs@);
    }
    max_pref - min_pref
}

/// Tardiness of a placement: how far its exit lies past the due date.
pub open spec fn tardiness(problem: &Problem, s: ScheduledBlock) -> int {
    let late = s.exit_time - problem.blocks@[s.block_id as int].due_date;
    if late > 0 { late } else { 0 }
}

/// Total tardiness of the placements of `s`.
pub open spec fn total_tardiness(problem: &Problem, s: Seq<ScheduledBlock>) -> int
    decreases s.len(),
{
    if s.len() == 0 {
        0
    } else {
        total_tardiness(problem, s.drop_last()) + tardiness(problem, s.last())
    }
}

/// The total tardiness of a schedule.
pub fn bay_tardiness(problem: &Problem, schedule: &[ScheduledBlock]) -> (res: i64)
    requires
        forall|i: int| 0 <= i < schedule@.len() ==> (#[trigger] schedule@[i]).block_id < problem.blocks@.len(),
        forall|i: int| 0 <= i < schedule@.len() ==> crate::model::placed_ok(#[trigger] schedule@[i]),
        forall|b: int| 0 <= b < problem.blocks@.len() ==> crate::model::coord_ok(#[trigger] problem.blocks@[b].due_date as int),
        forall|k: int| 0 <= k <= schedule@.len() ==> #[trigger] total_tardiness(problem, schedule@.take(k)) <= i64::MAX,
    ensures
        res == total_tardiness(problem, schedule@),
{
    let mut total: i64 = 0;
    let mut i: usize = 0;
    while i < schedule.len()
        invariant
            i <= schedule@.len(),
            total == total_tardiness(problem, schedule@.take(i as int)),
            forall|q: int| 0 <= q < schedule@.len() ==> (#[trigger] schedule@[q]).block_id < problem.blocks@.len(),
            forall|q: int| 0 <= q < schedule@.len() ==> crate::model::placed_ok(#[trigger] schedule@[q]),
            forall|b: int| 0 <= b < problem.blocks@.len() ==> crate::model::coord_ok(#[trigger] problem.blocks@[b].due_date as int),
            forall|k: int| 0 <= k <= schedule@.len() ==> #[trigger] total_tardiness(problem, schedule@.take(k)) <= i64::MAX,
        decreases schedule@.len() - i,
    {
        let s = schedule[i];
        proof {
            assert(schedule@.take(i as int + 1).drop_last() =~= schedule@.take(i as int));
            assert(schedule@.take(i as int + 1).last() == s);
            assert(total_tardiness(problem, schedule@.take(i as int + 1)) <= i64::MAX);
            assert(crate::model::coord_ok(problem.blocks@[s.block_id as int].due_date as int));
        }
        let late = s.exit_time - problem.blocks[s.block_id].due_date;
        let t = if late > 0 { late } else { 0 };
        total = total + t;
        i += 1;
    }
    proof {
        assert(schedule@.take(schedule@.len() as int) =~= schedule@);
    }
    total
}

/// Adds `block_id` to the removal selection unless the selection is full
/// or the block is already in it.
pub fn push_removed_block(selected: &mut Vec<usize>, used: &mut [bool], block_id: usize, limit: usize)
    requires
        block_id < old(used)@.len(),
    ensures
        (old(selected)@.len() < limit && !old(used)@[block_id as int]) ==> {
            &&& final(selected)@ == old(selected)@.push(block_id)
            &&& final(used)@ == old(used)@.update(block_id as int, true)
        },
        !(old(selected)@.len() < limit && !old(used)@[block_id as int]) ==> {
            &&& final(selected)@ == old(selected)@
            &&& final(used)@ == old(used)@
        },
{
    if selected.len() < limit && !used[block_id] {
        selected.push(block_id);
        used[block_id] = true;
    }
}

/// Removal selections built by `push_removed_block` hold each block once,
/// and exactly the blocks marked as used.
pub proof fn lemma_push_removed_keeps_selection(selected: Seq<usize>, used: Seq<bool>, block_id: usize, limit: usize)
    requires
        block_id < used.len(),
        used.len() <= usize::MAX,
        selected.no_duplicates(),
        forall|b: int| 0 <= b < used.len() ==> (used[b] <==> selected.contains(b as usize)),
        forall|i: int| 0 <= i < selected.len() ==> (selected[i] as int) < used.len(),
    ensures
        ({
            let (s2, u2) = if selected.len() < limit && !used[block_id as int] {
                (selected.push(block_id), used.update(block_id as int, true))
            } else {
                (selected, used)
            };
            &&& s2.no_duplicates()
            &&& forall|b: int| 0 <= b < u2.len() ==> (u2[b] <==> s2.contains(b as usize))
            &&& s2.len() <= if selected.len() < limit { limit as int } else { selected.len() as int }
        }),
{
    if selected.len() < limit && !used[block_id as int] {
        let s2 = selected.push(block_id);
        let u2 = used.update(block_id as int, true);
        assert(!selected.contains(block_id));
        assert(s2.no_duplicates()) by {
            assert forall|i: int, j: int| 0 <= i < s2.len() && 0 <= j < s2.len() && i != j implies s2[i] != s2[j] by {
                if i < selected.len() && j < selected.len() {
                } else if i < selected.len() {
                    assert(selected.contains(selected[i]));
                } else {
                    assert(selected.contains(selected[j]));
                }
            }
        }
        assert forall|b: int| 0 <= b < u2.len() implies (u2[b] <==> s2.contains(b as usize)) by {
            if b == block_id {
                assert(s2[selected.len() as int] == block_id);
            } else {
                if s2.contains(b as usize) {
                    let i = choose|i: int| 0 <= i < s2.len() && s2[i] == b as usize;
                    assert(i < selected.len());
                    assert(selected.contains(b as usize));
                }
                if selected.contains(b as usize) {
                    let i = choose|i: int| 0 <= i < selected.len() && selected[i] == b as usize;
                    assert(s2[i] == b as usize);
                }
            }
        }
    }
}

} // verus!
