//! Numbering of the forbidden intervals of all old blocks as slots, sorted
//! by interval, with the slots of each old block for each of its four crane
//! hit states.
use vstd::prelude::*;

use crate::forbidden::{conflict, forbidden_interval_set, forbidden_intervals, info_wf, OldTimeInfo};
use crate::slots::SlotSet;
use crate::window::{all_nonempty, covered, separated, sorted_by_left, Interval};

verus! {

/// `a` comes before or with `b` in lexicographic order.
pub open spec fn interval_le(a: Interval, b: Interval) -> bool {
    a.0 < b.0 || (a.0 == b.0 && a.1 <= b.1)
}

/// One forbidden interval waiting for its slot number: the interval, its
/// old block, the hit state and its position in that state's set.
#[derive(Clone, Copy, Debug)]
pub struct PendingSlot {
    pub interval: Interval,
    pub old_idx: usize,
    pub state_idx: usize,
    pub item_idx: usize,
}

/// Sorts by interval in lexicographic order (`slice::sort_unstable_by_key`).
#[verifier::external_body]
fn sort_pending_by_interval(v: &mut Vec<PendingSlot>)
    ensures
        final(v)@.to_multiset() == old(v)@.to_multiset(),
        final(v)@.len() == old(v)@.len(),
        forall|i: int, j: int| 0 <= i < j < final(v)@.len() ==> interval_le(final(v)@[i].interval, final(v)@[j].interval),
{
    v.sort_unstable_by_key(|p| p.interval);
}

/// Crane hits encoded by a state index: bit 0 for new-over-old, bit 1 for
/// old-over-new.
pub open spec fn state_new_old(state_idx: int) -> bool {
    state_idx % 2 == 1
}

pub open spec fn state_old_new(state_idx: int) -> bool {
    (state_idx / 2) % 2 == 1
}

/// All forbidden intervals, numbered by slot in sorted order, the old block
/// owning each slot, and for each old block and hit state its slots.
pub struct ForbiddenSlotPrecompute {
    pub intervals: Vec<Interval>,
    pub owners: Vec<u32>,
    pub states: Vec<[SlotSet; 4]>,
}

impl ForbiddenSlotPrecompute {
    /// The slot set of an old block in a hit state.
    pub open spec fn slot_set(&self, old_idx: int, state_idx: int) -> SlotSet {
        self.states@[old_idx][state_idx]
    }

    /// The intervals of those slots, in order.
    pub open spec fn state_intervals(&self, old_idx: int, state_idx: int) -> Seq<Interval> {
        let set = self.slot_set(old_idx, state_idx);
        Seq::new(set.len as nat, |k: int| self.intervals@[set.slots@[k] as int])
    }

    /// Structural facts: slot sets are well formed, point at existing slots
    /// owned by their old block, and no slot is listed twice.
    pub open spec fn wf(&self, n_old: int) -> bool {
        &&& self.states@.len() == n_old
        &&& self.owners@.len() == self.intervals@.len()
        &&& self.intervals@.len() <= u32::MAX
        &&& sorted_by_left(self.intervals@)
        &&& all_nonempty(self.intervals@)
        &&& forall|o: int, st: int| 0 <= o < n_old && 0 <= st < 4 ==> #[trigger] self.slot_set(o, st).wf()
        &&& forall|o: int, st: int, k: int| 0 <= o < n_old && 0 <= st < 4 && 0 <= k < self.slot_set(o, st).len ==> {
            &&& (#[trigger] self.slot_set(o, st).slots@[k] as int) < self.intervals@.len()
            &&& self.owners@[self.slot_set(o, st).slots@[k] as int] == o
        }
        &&& forall|o1: int, st1: int, k1: int, o2: int, st2: int, k2: int|
            0 <= o1 < n_old && 0 <= st1 < 4 && 0 <= k1 < self.slot_set(o1, st1).len
            && 0 <= o2 < n_old && 0 <= st2 < 4 && 0 <= k2 < self.slot_set(o2, st2).len
            && #[trigger] self.slot_set(o1, st1).slots@[k1] == #[trigger] self.slot_set(o2, st2).slots@[k2]
            ==> o1 == o2 && st1 == st2 && k1 == k2
    }
}

/// The times in an old block's overlap range where the hit state of the
/// crane pair forbids entry.
pub open spec fn state_forbids(info: OldTimeInfo, state_idx: int, t: int) -> bool {
    &&& info.overlap_entry_time_min <= t <= info.overlap_entry_time_max
    &&& conflict(info.old_entry_time as int, info.old_exit_time as int, info.new_process_time as int, t,
        state_new_old(state_idx), state_old_new(state_idx))
}

/// Slot `s` is listed in the slot set of some old block below `n_old` in
/// some hit state.
pub open spec fn slot_listed(pre: &ForbiddenSlotPrecompute, n_old: int, s: int) -> bool {
    exists|o: int, st: int, k: int| 0 <= o < n_old && 0 <= st < 4 && 0 <= k < pre.slot_set(o, st).len
        && #[trigger] pre.slot_set(o, st).slots@[k] == s as u32
}

/// `pre` lists, for every old block with overlap data and every hit state,
/// intervals covering exactly the forbidden times; old blocks without
/// overlap data have empty slot sets.
pub open spec fn precompute_matches(pre: &ForbiddenSlotPrecompute, infos: Seq<Option<OldTimeInfo>>) -> bool {
    &&& pre.wf(infos.len() as int)
    &&& forall|s: int| 0 <= s < pre.intervals@.len() ==> #[trigger] slot_listed(pre, infos.len() as int, s)
    &&& forall|o: int, st: int| 0 <= o < infos.len() && 0 <= st < 4 ==> {
        &&& separated(#[trigger] pre.state_intervals(o, st))
        &&& all_nonempty(pre.state_intervals(o, st))
        &&& match infos[o] {
            Some(info) => {
                &&& pre.state_intervals(o, st) == forbidden_intervals(info, state_new_old(st), state_old_new(st))
                &&& forall|t: int| covered(pre.state_intervals(o, st), t) <==> state_forbids(info, st, t)
            },
            None => pre.slot_set(o, st).len == 0,
        }
    }
}

/// The recorded intervals of an old block in a hit state meet the contract
/// of `forbidden_interval_set`.
pub open spec fn rec_ok(rec: Map<(int, int), Seq<Interval>>, infos: Seq<Option<OldTimeInfo>>, o: int, st: int) -> bool {
    &&& rec.contains_key((o, st))
    &&& separated(rec[(o, st)])
    &&& all_nonempty(rec[(o, st)])
    &&& match infos[o] {
        Some(info) => {
            &&& rec[(o, st)] == forbidden_intervals(info, state_new_old(st), state_old_new(st))
            &&& forall|t: int| covered(rec[(o, st)], t) <==> state_forbids(info, st, t)
        },
        None => rec[(o, st)].len() == 0,
    }
}

/// The pending list holds the `k`-th recorded interval of `(o, st)`.
pub open spec fn listed(pending: Seq<PendingSlot>, rec: Map<(int, int), Seq<Interval>>, o: int, st: int, k: int) -> bool {
    exists|j: int| 0 <= j < pending.len() && #[trigger] pending[j] == (PendingSlot {
        interval: rec[(o, st)][k], old_idx: o as usize, state_idx: st as usize, item_idx: k as usize })
}

/// Pending entries come in strictly increasing (old block, state, item) order.
pub open spec fn entry_before(a: PendingSlot, b: PendingSlot) -> bool {
    a.old_idx < b.old_idx || (a.old_idx == b.old_idx && (a.state_idx < b.state_idx
        || (a.state_idx == b.state_idx && a.item_idx < b.item_idx)))
}

/// A pending entry matches its record.
pub open spec fn entry_ok(e: PendingSlot, rec: Map<(int, int), Seq<Interval>>) -> bool {
    &&& e.state_idx < 4
    &&& rec.contains_key((e.old_idx as int, e.state_idx as int))
    &&& e.item_idx < rec[(e.old_idx as int, e.state_idx as int)].len()
    &&& e.interval == rec[(e.old_idx as int, e.state_idx as int)][e.item_idx as int]
}

/// Builds the slot numbering of all forbidden intervals of the old blocks.
pub fn build_forbidden_slot_precompute(old_time_infos: &[Option<OldTimeInfo>]) -> (res: ForbiddenSlotPrecompute)
    requires
        old_time_infos@.len() * 8 <= u32::MAX,
        forall|o: int| 0 <= o < old_time_infos@.len() ==> match #[trigger] old_time_infos@[o] {
            Some(info) => info_wf(info),
            None => true,
        },
    ensures
        precompute_matches(&res, old_time_infos@),
        res.intervals@.len() <= 8 * old_time_infos@.len(),
{
    let n = old_time_infos.len();
    let ghost infos = old_time_infos@;
    let empty = SlotSet::empty();
    let mut states: Vec<[SlotSet; 4]> = Vec::new();
    let mut i: usize = 0;
    while i < n
        invariant
            i <= n,
            n == infos.len(),
            states@.len() == i,
            empty.wf(),
            empty.len == 0,
            forall|o: int, st: int| 0 <= o < i && 0 <= st < 4 ==> #[trigger] states@[o][st] == empty,
        decreases n - i,
    {
        states.push([empty, empty, empty, empty]);
        i += 1;
    }
    let mut pending: Vec<PendingSlot> = Vec::new();
    // Intervals recorded per (old block, state) while building.
    let ghost mut rec: Map<(int, int), Seq<Interval>> = Map::empty();
    let mut old_idx: usize = 0;
    while old_idx < n
        invariant
            old_idx <= n,
            n == infos.len(),
            infos == old_time_infos@,
            n * 8 <= u32::MAX,
            forall|o: int| 0 <= o < infos.len() ==> match #[trigger] infos[o] {
                Some(info) => info_wf(info),
                None => true,
            },
            states@.len() == n,
            pending@.len() <= old_idx * 8,
            forall|o: int, st: int| 0 <= o < n && 0 <= st < 4 ==> (#[trigger] states@[o][st]).wf(),
            forall|o: int, st: int| old_idx <= o < n && 0 <= st < 4 ==> (#[trigger] states@[o][st]).len == 0,
            forall|o: int, st: int| 0 <= o < old_idx && 0 <= st < 4 ==> #[trigger] rec_ok(rec, infos, o, st),
            forall|o: int, st: int| 0 <= o < old_idx && 0 <= st < 4 ==> (#[trigger] states@[o][st]).len == rec[(o, st)].len(),
            forall|j: int| 0 <= j < pending@.len() ==> (#[trigger] pending@[j]).old_idx < old_idx,
            forall|j: int| 0 <= j < pending@.len() ==> entry_ok(#[trigger] pending@[j], rec),
            forall|j1: int, j2: int| 0 <= j1 < j2 < pending@.len() ==> entry_before(#[trigger] pending@[j1], #[trigger] pending@[j2]),
            forall|o: int, st: int, k: int| 0 <= o < old_idx && 0 <= st < 4 && 0 <= k < rec[(o, st)].len() ==>
                #[trigger] listed(pending@, rec, o, st, k),
        decreases n - old_idx,
    {
        let entry = old_time_infos[old_idx];
        let mut state_idx: usize = 0;
        while state_idx < 4
            invariant
                old_idx < n,
                n == infos.len(),
                infos == old_time_infos@,
                entry == infos[old_idx as int],
                match entry { Some(info) => info_wf(info), None => true },
                n * 8 <= u32::MAX,
                state_idx <= 4,
                states@.len() == n,
                pending@.len() <= old_idx * 8 + state_idx * 2,
                forall|o: int, st: int| 0 <= o < n && 0 <= st < 4 ==> (#[trigger] states@[o][st]).wf(),
                forall|o: int, st: int| old_idx < o < n && 0 <= st < 4 ==> (#[trigger] states@[o][st]).len == 0,
                forall|st: int| state_idx <= st < 4 ==> (#[trigger] states@[old_idx as int][st]).len == 0,
                forall|o: int, st: int| (0 <= o < old_idx && 0 <= st < 4) || (o == old_idx && 0 <= st < state_idx)
                    ==> #[trigger] rec_ok(rec, infos, o, st),
                forall|o: int, st: int| (0 <= o < old_idx && 0 <= st < 4) || (o == old_idx && 0 <= st < state_idx)
                    ==> (#[trigger] states@[o][st]).len == rec[(o, st)].len(),
                forall|j: int| 0 <= j < pending@.len() ==> {
                    let e = #[trigger] pending@[j];
                    e.old_idx < old_idx || (e.old_idx == old_idx && e.state_idx < state_idx)
                },
                forall|j: int| 0 <= j < pending@.len() ==> entry_ok(#[trigger] pending@[j], rec),
                forall|j1: int, j2: int| 0 <= j1 < j2 < pending@.len() ==> entry_before(#[trigger] pending@[j1], #[trigger] pending@[j2]),
                forall|o: int, st: int, k: int| ((0 <= o < old_idx && 0 <= st < 4) || (o == old_idx && 0 <= st < state_idx)) && 0 <= k < rec[(o, st)].len() ==>
                    #[trigger] listed(pending@, rec, o, st, k),
            decreases 4 - state_idx,
        {
            let ghost key = (old_idx as int, state_idx as int);
            let ghost rec0 = rec;
            match entry {
                Some(info) => {
                    let set = forbidden_interval_set(info, state_idx % 2 == 1, (state_idx / 2) % 2 == 1);
                    let items = set.as_slice();
                    let mut arr = states[old_idx];
                    arr[state_idx].len = set.len;
                    states.set(old_idx, arr);
                    proof {
                        rec = rec.insert(key, items@);
                        assert forall|j: int| 0 <= j < pending@.len() implies entry_ok(#[trigger] pending@[j], rec) by {
                            assert(entry_ok(pending@[j], rec0));
                            assert((pending@[j].old_idx as int, pending@[j].state_idx as int) != key);
                        }
                        assert forall|o: int, st: int, k: int| ((0 <= o < old_idx && 0 <= st < 4) || (o == old_idx && 0 <= st < state_idx)) && 0 <= k < rec[(o, st)].len() implies
                            #[trigger] listed(pending@, rec, o, st, k) by {
                            assert((o, st) != key);
                            assert(listed(pending@, rec0, o, st, k));
                        }
                        assert forall|o: int, st: int| (0 <= o < old_idx && 0 <= st < 4) || (o == old_idx && 0 <= st < state_idx)
                            implies #[trigger] rec_ok(rec, infos, o, st) by {
                            assert((o, st) != key);
                            assert(rec_ok(rec0, infos, o, st));
                        }
                        assert(rec_ok(rec, infos, old_idx as int, state_idx as int));
                    }
                    let mut item_idx: usize = 0;
                    while item_idx < items.len()
                        invariant
                            old_idx < n,
                            state_idx < 4,
                            items@.len() <= 2,
                            rec.contains_key(key),
                            rec[key] == items@,
                            key == (old_idx as int, state_idx as int),
                            pending@.len() <= old_idx * 8 + state_idx * 2 + item_idx,
                            n * 8 <= u32::MAX,
                            item_idx <= items@.len(),
                            forall|j: int| 0 <= j < pending@.len() ==> {
                                let e = #[trigger] pending@[j];
                                &&& (e.old_idx < old_idx || (e.old_idx == old_idx && e.state_idx <= state_idx))
                                &&& (e.old_idx == old_idx && e.state_idx == state_idx ==> e.item_idx < item_idx)
                            },
                            forall|j: int| 0 <= j < pending@.len() ==> entry_ok(#[trigger] pending@[j], rec),
                            forall|j1: int, j2: int| 0 <= j1 < j2 < pending@.len() ==> entry_before(#[trigger] pending@[j1], #[trigger] pending@[j2]),
                            forall|o: int, st: int, k: int| ((((0 <= o < old_idx && 0 <= st < 4) || (o == old_idx && 0 <= st < state_idx)) && 0 <= k < rec[(o, st)].len())
                                || (o == old_idx && st == state_idx && 0 <= k < item_idx)) ==>
                                #[trigger] listed(pending@, rec, o, st, k),
                        decreases items@.len() - item_idx,
                    {
                        let ghost before = pending@;
                        let e = PendingSlot { interval: items[item_idx], old_idx, state_idx, item_idx };
                        pending.push(e);
                        proof {
                            assert(pending@[pending@.len() - 1] == e);
                            assert forall|j: int| 0 <= j < pending@.len() implies entry_ok(#[trigger] pending@[j], rec) by {
                                if j < before.len() {
                                    assert(pending@[j] == before[j]);
                                }
                            }
                            assert forall|j1: int, j2: int| 0 <= j1 < j2 < pending@.len() implies entry_before(#[trigger] pending@[j1], #[trigger] pending@[j2]) by {
                                assert(pending@[j1] == before[j1]);
                                if j2 < before.len() {
                                    assert(pending@[j2] == before[j2]);
                                }
                            }
                            assert forall|o: int, st: int, k: int| ((((0 <= o < old_idx && 0 <= st < 4) || (o == old_idx && 0 <= st < state_idx)) && 0 <= k < rec[(o, st)].len())
                                || (o == old_idx && st == state_idx && 0 <= k < item_idx + 1)) implies
                                #[trigger] listed(pending@, rec, o, st, k) by {
                                if o == old_idx && st == state_idx && k == item_idx {
                                    assert(pending@[pending@.len() - 1] == e);
                                } else {
                                    assert(listed(before, rec, o, st, k));
                                    let j = choose|j: int| 0 <= j < before.len() && #[trigger] before[j] == (PendingSlot {
                                        interval: rec[(o, st)][k], old_idx: o as usize, state_idx: st as usize, item_idx: k as usize });
                                    assert(pending@[j] == before[j]);
                                }
                            }
                        }
                        item_idx += 1;
                    }
                },
                None => {
                    proof {
                        rec = rec.insert(key, Seq::empty());
                        assert forall|j: int| 0 <= j < pending@.len() implies entry_ok(#[trigger] pending@[j], rec) by {
                            assert(entry_ok(pending@[j], rec0));
                            assert((pending@[j].old_idx as int, pending@[j].state_idx as int) != key);
                        }
                        assert forall|o: int, st: int, k: int| ((0 <= o < old_idx && 0 <= st < 4) || (o == old_idx && 0 <= st < state_idx)) && 0 <= k < rec[(o, st)].len() implies
                            #[trigger] listed(pending@, rec, o, st, k) by {
                            assert((o, st) != key);
                            assert(listed(pending@, rec0, o, st, k));
                        }
                        assert forall|o: int, st: int| (0 <= o < old_idx && 0 <= st < 4) || (o == old_idx && 0 <= st < state_idx)
                            implies #[trigger] rec_ok(rec, infos, o, st) by {
                            assert((o, st) != key);
                            assert(rec_ok(rec0, infos, o, st));
                        }
                        assert(rec_ok(rec, infos, old_idx as int, state_idx as int));
                    }
                },
            }
            state_idx += 1;
        }
        old_idx += 1;
    }
    let ghost unsorted = pending@;
    sort_pending_by_interval(&mut pending);
    let ghost sorted = pending@;
    proof {
        assert(unsorted.no_duplicates()) by {
            assert forall|a: int, b: int| 0 <= a < unsorted.len() && 0 <= b < unsorted.len() && a != b implies unsorted[a] != unsorted[b] by {
                if a < b {
                    assert(unsorted[a].item_idx != unsorted[b].item_idx || unsorted[a].state_idx != unsorted[b].state_idx || unsorted[a].old_idx != unsorted[b].old_idx);
                } else {
                    assert(unsorted[b].item_idx != unsorted[a].item_idx || unsorted[b].state_idx != unsorted[a].state_idx || unsorted[b].old_idx != unsorted[a].old_idx);
                }
            }
        }
        unsorted.lemma_multiset_has_no_duplicates();
        sorted.lemma_multiset_has_no_duplicates_conv();
        broadcast use vstd::seq_lib::group_to_multiset_ensures;
        assert forall|j: int| 0 <= j < sorted.len() implies unsorted.contains(#[trigger] sorted[j]) by {
            assert(sorted.contains(sorted[j]));
            assert(sorted.to_multiset().count(sorted[j]) > 0);
        }
        assert forall|j: int| 0 <= j < unsorted.len() implies sorted.contains(#[trigger] unsorted[j]) by {
            assert(unsorted.contains(unsorted[j]));
            assert(unsorted.to_multiset().count(unsorted[j]) > 0);
        }
        assert forall|j: int| 0 <= j < sorted.len() implies entry_ok(#[trigger] sorted[j], rec) by {
            assert(unsorted.contains(sorted[j]));
            let u = choose|u: int| 0 <= u < unsorted.len() && unsorted[u] == sorted[j];
            assert(entry_ok(unsorted[u], rec));
        }
    }
    let mut intervals: Vec<Interval> = Vec::new();
    let mut owners: Vec<u32> = Vec::new();
    let mut slot: usize = 0;
    while slot < pending.len()
        invariant
            sorted == pending@,
            sorted.no_duplicates(),
            slot <= sorted.len(),
            sorted.len() <= n * 8,
            n * 8 <= u32::MAX,
            states@.len() == n,
            intervals@.len() == slot,
            owners@.len() == slot,
            forall|k: int| 0 <= k < slot ==> intervals@[k] == #[trigger] sorted[k].interval,
            forall|k: int| 0 <= k < slot ==> owners@[k] == #[trigger] sorted[k].old_idx as u32,
            forall|o: int, st: int| 0 <= o < n && 0 <= st < 4 ==> (#[trigger] states@[o][st]).wf(),
            forall|o: int, st: int| 0 <= o < n && 0 <= st < 4 ==> (#[trigger] states@[o][st]).len == rec[(o, st)].len(),
            forall|j: int| 0 <= j < sorted.len() ==> (#[trigger] sorted[j]).old_idx < n,
            forall|j: int| 0 <= j < sorted.len() ==> entry_ok(#[trigger] sorted[j], rec),
            forall|j: int| 0 <= j < unsorted.len() ==> sorted.contains(#[trigger] unsorted[j]),
            forall|j: int| 0 <= j < sorted.len() ==> unsorted.contains(#[trigger] sorted[j]),
            forall|j: int| 0 <= j < slot ==> {
                let e = #[trigger] sorted[j];
                states@[e.old_idx as int][e.state_idx as int].slots@[e.item_idx as int] == j as u32
            },
        decreases sorted.len() - slot,
    {
        let e = pending[slot];
        intervals.push(e.interval);
        owners.push(e.old_idx as u32);
        let mut arr = states[e.old_idx];
        let mut set = arr[e.state_idx];
        set.slots[e.item_idx] = slot as u32;
        arr[e.state_idx] = set;
        states.set(e.old_idx, arr);
        proof {
            assert forall|j: int| 0 <= j < slot + 1 implies {
                let f = #[trigger] sorted[j];
                states@[f.old_idx as int][f.state_idx as int].slots@[f.item_idx as int] == j as u32
            } by {
                if j < slot {
                    let f = sorted[j];
                    assert(sorted[j] != sorted[slot as int]);
                    assert(entry_ok(f, rec));
                    assert(entry_ok(e, rec));
                    assert(f.old_idx != e.old_idx || f.state_idx != e.state_idx || f.item_idx != e.item_idx);
                }
            }
        }
        slot += 1;
    }
    let res = ForbiddenSlotPrecompute { intervals, owners, states };
    proof {
        assert forall|j: int| 0 <= j < res.intervals@.len() implies #[trigger] slot_listed(&res, n as int, j) by {
            let e = sorted[j];
            assert(entry_ok(e, rec));
            assert(states@[e.old_idx as int][e.state_idx as int].len == rec[(e.old_idx as int, e.state_idx as int)].len());
            assert(res.slot_set(e.old_idx as int, e.state_idx as int).slots@[e.item_idx as int] == j as u32);
        }
        // Each entry of the sorted list comes from the build phase.
        assert forall|j: int| 0 <= j < sorted.len() implies {
            let e = #[trigger] sorted[j];
            &&& rec.contains_key((e.old_idx as int, e.state_idx as int))
            &&& e.interval == rec[(e.old_idx as int, e.state_idx as int)][e.item_idx as int]
        } by {
            assert(unsorted.contains(sorted[j]));
            let u = choose|u: int| 0 <= u < unsorted.len() && unsorted[u] == sorted[j];
            assert(unsorted[u] == unsorted[u]);
        }
        // Each recorded interval owns the slot where the sorted list holds it.
        assert forall|o: int, st: int, k: int| #![trigger rec[(o, st)][k]] 0 <= o < n && 0 <= st < 4 && 0 <= k < rec[(o, st)].len() implies {
            &&& 0 <= res.states@[o][st].slots@[k] as int <= sorted.len() - 1
            &&& sorted[res.states@[o][st].slots@[k] as int] == (PendingSlot { interval: rec[(o, st)][k], old_idx: o as usize, state_idx: st as usize, item_idx: k as usize })
        } by {
            let e = PendingSlot { interval: rec[(o, st)][k], old_idx: o as usize, state_idx: st as usize, item_idx: k as usize };
            assert(listed(unsorted, rec, o, st, k));
            let u = choose|u: int| 0 <= u < unsorted.len() && #[trigger] unsorted[u] == e;
            assert(sorted.contains(unsorted[u]));
            let j = choose|j: int| 0 <= j < sorted.len() && sorted[j] == e;
            assert(sorted[j] == sorted[j]);
        }
        assert(sorted_by_left(res.intervals@)) by {
            assert forall|a: int, b: int| 0 <= a < b < res.intervals@.len() implies res.intervals@[a].0 <= res.intervals@[b].0 by {
                assert(sorted[a] == sorted[a] && sorted[b] == sorted[b]);
                assert(interval_le(sorted[a].interval, sorted[b].interval));
            }
        }
        assert(all_nonempty(res.intervals@)) by {
            assert forall|a: int| 0 <= a < res.intervals@.len() implies res.intervals@[a].0 <= res.intervals@[a].1 by {
                let e = sorted[a];
                assert(rec_ok(rec, infos, e.old_idx as int, e.state_idx as int));
                assert(all_nonempty(rec[(e.old_idx as int, e.state_idx as int)]));
            }
        }
        assert forall|o: int, st: int| 0 <= o < n && 0 <= st < 4 implies #[trigger] res.state_intervals(o, st) == rec[(o, st)] by {
            assert forall|k: int| 0 <= k < rec[(o, st)].len() implies res.state_intervals(o, st)[k] == rec[(o, st)][k] by {
                let j = res.states@[o][st].slots@[k] as int;
                assert(sorted[j] == sorted[j]);
            }
            assert(res.state_intervals(o, st) =~= rec[(o, st)]);
        }
        assert forall|o: int, st: int, k: int| 0 <= o < n && 0 <= st < 4 && 0 <= k < res.slot_set(o, st).len implies {
            &&& (#[trigger] res.slot_set(o, st).slots@[k] as int) < res.intervals@.len()
            &&& res.owners@[res.slot_set(o, st).slots@[k] as int] == o
        } by {
            assert(states@[o][st].len == rec[(o, st)].len());
            assert(rec[(o, st)][k] == rec[(o, st)][k]);
            let j = res.states@[o][st].slots@[k] as int;
            assert(sorted[j] == sorted[j]);
        }
        assert forall|o1: int, st1: int, k1: int, o2: int, st2: int, k2: int|
            0 <= o1 < n && 0 <= st1 < 4 && 0 <= k1 < res.slot_set(o1, st1).len
            && 0 <= o2 < n && 0 <= st2 < 4 && 0 <= k2 < res.slot_set(o2, st2).len
            && #[trigger] res.slot_set(o1, st1).slots@[k1] == #[trigger] res.slot_set(o2, st2).slots@[k2]
            implies o1 == o2 && st1 == st2 && k1 == k2 by {
            assert(states@[o1][st1].len == rec[(o1, st1)].len());
            assert(states@[o2][st2].len == rec[(o2, st2)].len());
            assert(rec[(o1, st1)][k1] == rec[(o1, st1)][k1]);
            assert(rec[(o2, st2)][k2] == rec[(o2, st2)][k2]);
            let j1 = res.states@[o1][st1].slots@[k1] as int;
            let j2 = res.states@[o2][st2].slots@[k2] as int;
            assert(sorted[j1] == sorted[j1]);
            assert(sorted[j2] == sorted[j2]);
        }
        assert forall|o: int, st: int| 0 <= o < n && 0 <= st < 4 implies {
            &&& separated(#[trigger] res.state_intervals(o, st))
            &&& all_nonempty(res.state_intervals(o, st))
            &&& match infos[o] {
                Some(info) => {
                    &&& res.state_intervals(o, st) == forbidden_intervals(info, state_new_old(st), state_old_new(st))
                    &&& forall|t: int| covered(res.state_intervals(o, st), t) <==> state_forbids(info, st, t)
                },
                None => res.slot_set(o, st).len == 0,
            }
        } by {
            assert(rec_ok(rec, infos, o, st));
            assert(res.state_intervals(o, st) == rec[(o, st)]);
            assert(states@[o][st].len == rec[(o, st)].len());
        }
    }
    res
}

} // verus!
