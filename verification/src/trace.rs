//! What keeps a block from entering at a wanted time: the old blocks whose
//! forbidden intervals overlap the wait, ranked by how long they do.
use vstd::prelude::*;

use std::cmp::Ordering;

verus! {

/// An old block and the number of days of the wait its forbidden
/// intervals cover.
#[derive(Clone, Copy, Debug, PartialEq, Eq, Structural)]
pub struct PlacementBlocker {
    pub block_id: usize,
    pub overlap_days: i64,
}

/// The earliest entry time at a fixed position and the blockers that delay
/// it past the wanted time.
#[derive(Clone, Debug)]
pub struct PlacementTrace {
    pub earliest_entry: i64,
    pub blockers: Vec<PlacementBlocker>,
}

/// `a` ranks before `b`: a longer overlap first, then the smaller block id.
pub open spec fn ranks_before(a: PlacementBlocker, b: PlacementBlocker) -> bool {
    a.overlap_days > b.overlap_days || (a.overlap_days == b.overlap_days && a.block_id < b.block_id)
}

/// Compares blockers by their rank.
pub fn blocker_order(a: &PlacementBlocker, b: &PlacementBlocker) -> (res: Ordering)
    ensures
        (res == Ordering::Less) == ranks_before(*a, *b),
        (res == Ordering::Greater) == ranks_before(*b, *a),
        (res == Ordering::Equal) == (a.overlap_days == b.overlap_days && a.block_id == b.block_id),
        a.overlap_days > b.overlap_days ==> res == Ordering::Less,
        a.overlap_days < b.overlap_days ==> res == Ordering::Greater,
{
    if a.overlap_days != b.overlap_days {
        if a.overlap_days > b.overlap_days { Ordering::Less } else { Ordering::Greater }
    } else if a.block_id != b.block_id {
        if a.block_id < b.block_id { Ordering::Less } else { Ordering::Greater }
    } else {
        Ordering::Equal
    }
}

/// Blockers listed so that none ranks before an earlier one come by
/// non-increasing overlap, and among equal overlaps by non-decreasing
/// block id.
pub proof fn lemma_ranked_by_overlap(s: Seq<PlacementBlocker>)
    requires
        forall|i: int, j: int| 0 <= i < j < s.len() ==> !ranks_before(s[j], s[i]),
    ensures
        forall|i: int, j: int| 0 <= i < j < s.len() ==> s[i].overlap_days >= s[j].overlap_days,
        forall|i: int, j: int| 0 <= i < j < s.len() && s[i].overlap_days == s[j].overlap_days ==> s[i].block_id <= s[j].block_id,
{
    assert forall|i: int, j: int| 0 <= i < j < s.len() implies s[i].overlap_days >= s[j].overlap_days by {
        assert(!ranks_before(s[j], s[i]));
    }
    assert forall|i: int, j: int| 0 <= i < j < s.len() && s[i].overlap_days == s[j].overlap_days implies s[i].block_id <= s[j].block_id by {
        assert(!ranks_before(s[j], s[i]));
    }
}

/// Sorts blockers by rank (`slice::sort_unstable_by` with
/// `blocker_order`, a total order).
#[verifier::external_body]
pub(crate) fn sort_blockers(v: &mut Vec<PlacementBlocker>)
    ensures
        final(v)@.to_multiset() == old(v)@.to_multiset(),
        final(v)@.len() == old(v)@.len(),
        forall|i: int, j: int| 0 <= i < j < final(v)@.len() ==> !ranks_before(final(v)@[j], final(v)@[i]),
{
    v.sort_unstable_by(|a, b| blocker_order(a, b));
}

} // verus!
