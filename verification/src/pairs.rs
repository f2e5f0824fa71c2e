//! Pairs of placements that share a bay at the same time: the requests of
//! the analysis of how blocks are placed next to one another.
use vstd::prelude::*;

use std::collections::BTreeSet;

use crate::model::ScheduledBlock;

verus! {

/// Two distinct blocks in a bay, the smaller id first.
#[derive(Clone, Copy, Debug, PartialEq, Eq, Structural)]
pub struct PairRequest {
    pub first_block_id: usize,
    pub second_block_id: usize,
    pub bay_id: usize,
}

impl PairRequest {
    /// The request for two distinct blocks, in either order, in a bay.
    pub fn new(first_block_id: usize, second_block_id: usize, bay_id: usize) -> (res: Self)
        requires
            first_block_id != second_block_id,
        ensures
            res.first_block_id < res.second_block_id,
            res.bay_id == bay_id,
            (res.first_block_id == first_block_id && res.second_block_id == second_block_id)
                || (res.first_block_id == second_block_id && res.second_block_id == first_block_id),
    {
        if first_block_id < second_block_id {
            PairRequest { first_block_id, second_block_id, bay_id }
        } else {
            PairRequest { first_block_id: second_block_id, second_block_id: first_block_id, bay_id }
        }
    }

    /// The request as a key ordered like the request: by first block, then
    /// second block, then bay.
    pub fn key(&self) -> (res: (usize, usize, usize))
        ensures
            res == (self.first_block_id, self.second_block_id, self.bay_id),
    {
        (self.first_block_id, self.second_block_id, self.bay_id)
    }
}

/// The placements at positions `i < j` of `s` share a bay and their stays
/// overlap.
pub open spec fn shares_bay_time(s: Seq<ScheduledBlock>, i: int, j: int) -> bool {
    &&& 0 <= i < j < s.len()
    &&& s[i].bay_id == s[j].bay_id
    &&& s[i].entry_time < s[j].exit_time
    &&& s[j].entry_time < s[i].exit_time
}

/// The keys of the pairs of positions of `s` that share a bay at the same
/// time, with their bay.
pub open spec fn overlapping_pairs(s: Seq<ScheduledBlock>) -> Set<(usize, usize, usize)> {
    Set::new(|k: (usize, usize, usize)| exists|i: int, j: int| #[trigger] shares_bay_time(s, i, j)
        && k == (i as usize, j as usize, s[i].bay_id))
}

/// Keys of requests are ordered as the set needs.
pub open spec fn pair_keys_ordered() -> bool {
    vstd::laws_cmp::obeys_cmp::<(usize, usize, usize)>()
}

proof fn lemma_pair_keys_ordered()
    ensures
        pair_keys_ordered(),
{
    broadcast use vstd::laws_cmp::group_laws_cmp;
}

/// Adds to `requests` the key of every pair of positions of `schedule`
/// whose placements share a bay at the same time.
pub fn collect_pair_requests(schedule: &[ScheduledBlock], requests: &mut BTreeSet<(usize, usize, usize)>)
    ensures
        final(requests)@ == old(requests)@.union(overlapping_pairs(schedule@)),
{
    proof {
        lemma_pair_keys_ordered();
    }
    let ghost s = schedule@;
    let ghost start = requests@;
    let mut first: usize = 0;
    while first < schedule.len()
        invariant
            s == schedule@,
            first <= s.len(),
            pair_keys_ordered(),
            requests@ == start.union(Set::new(|k: (usize, usize, usize)| exists|i: int, j: int|
                #[trigger] shares_bay_time(s, i, j) && i < first && k == (i as usize, j as usize, s[i].bay_id))),
        decreases s.len() - first,
    {
        let a = schedule[first];
        let mut second: usize = first + 1;
        while second < schedule.len()
            invariant
                s == schedule@,
                first < s.len(),
                a == s[first as int],
                first + 1 <= second <= s.len(),
                pair_keys_ordered(),
                requests@ == start.union(Set::new(|k: (usize, usize, usize)| exists|i: int, j: int|
                    #[trigger] shares_bay_time(s, i, j) && (i < first || (i == first && j < second))
                    && k == (i as usize, j as usize, s[i].bay_id))),
            decreases s.len() - second,
        {
            let b = schedule[second];
            let ghost before = requests@;
            if a.bay_id == b.bay_id && a.entry_time < b.exit_time && b.entry_time < a.exit_time {
                let request = PairRequest::new(first, second, a.bay_id);
                requests.insert(request.key());
                proof {
                    assert(shares_bay_time(s, first as int, second as int));
                }
            }
            proof {
                let next = Set::new(|k: (usize, usize, usize)| exists|i: int, j: int|
                    #[trigger] shares_bay_time(s, i, j) && (i < first || (i == first && j < second + 1))
                    && k == (i as usize, j as usize, s[i].bay_id));
                assert(requests@ =~= start.union(next)) by {
                    assert forall|k: (usize, usize, usize)| requests@.contains(k) implies start.union(next).contains(k) by {
                        if !before.contains(k) {
                            assert(shares_bay_time(s, first as int, second as int));
                        }
                    }
                    assert forall|k: (usize, usize, usize)| start.union(next).contains(k) implies requests@.contains(k) by {
                        if next.contains(k) && !start.contains(k) {
                            let (i, j) = choose|i: int, j: int| #[trigger] shares_bay_time(s, i, j)
                                && (i < first || (i == first && j < second + 1)) && k == (i as usize, j as usize, s[i].bay_id);
                            if !(i == first && j == second) {
                                assert(before.contains(k));
                            }
                        }
                    }
                }
            }
            second += 1;
        }
        proof {
            let next = Set::new(|k: (usize, usize, usize)| exists|i: int, j: int|
                #[trigger] shares_bay_time(s, i, j) && i < first + 1 && k == (i as usize, j as usize, s[i].bay_id));
            let cur = Set::new(|k: (usize, usize, usize)| exists|i: int, j: int|
                #[trigger] shares_bay_time(s, i, j) && (i < first || (i == first && j < second))
                && k == (i as usize, j as usize, s[i].bay_id));
            assert(cur =~= next);
        }
        first += 1;
    }
    proof {
        let all = Set::new(|k: (usize, usize, usize)| exists|i: int, j: int|
            #[trigger] shares_bay_time(s, i, j) && i < first && k == (i as usize, j as usize, s[i].bay_id));
        assert(all =~= overlapping_pairs(s));
    }
}

} // verus!
