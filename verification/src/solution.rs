//! The output of the solver: for each time step, the blocks that leave and
//! then the blocks that enter, with where they are placed.
use vstd::prelude::*;

use std::collections::BTreeMap;

use crate::model::ScheduledBlock;

verus! {

/// Whether an operation takes a block out of its bay or puts it in.
#[derive(Clone, Copy, Debug, PartialEq, Eq, Structural)]
pub enum OpType {
    Exit,
    Entry,
}

/// One operation; an entry gives the position and orientation.
#[derive(Clone, Copy, Debug, PartialEq, Eq, Structural)]
pub struct Operation {
    pub op_type: OpType,
    pub block_id: usize,
    pub bay_id: usize,
    pub x: Option<i64>,
    pub y: Option<i64>,
    pub orient_idx: Option<usize>,
}

/// The operations of each time step that has any.
pub struct Solution {
    pub operations: BTreeMap<i64, Vec<Operation>>,
}

/// The exit of a placement.
pub open spec fn exit_op(s: ScheduledBlock) -> Operation {
    Operation { op_type: OpType::Exit, block_id: s.block_id, bay_id: s.bay_id, x: None, y: None, orient_idx: None }
}

/// The entry of a placement.
pub open spec fn entry_op(s: ScheduledBlock) -> Operation {
    Operation {
        op_type: OpType::Entry,
        block_id: s.block_id,
        bay_id: s.bay_id,
        x: Some(s.x),
        y: Some(s.y),
        orient_idx: Some(s.orient_idx),
    }
}

/// The exits at time `t`, in schedule order.
pub open spec fn exits_at(s: Seq<ScheduledBlock>, t: i64) -> Seq<Operation>
    decreases s.len(),
{
    if s.len() == 0 {
        Seq::empty()
    } else if s.last().exit_time == t {
        exits_at(s.drop_last(), t).push(exit_op(s.last()))
    } else {
        exits_at(s.drop_last(), t)
    }
}

/// The entries at time `t`, in schedule order.
pub open spec fn entries_at(s: Seq<ScheduledBlock>, t: i64) -> Seq<Operation>
    decreases s.len(),
{
    if s.len() == 0 {
        Seq::empty()
    } else if s.last().entry_time == t {
        entries_at(s.drop_last(), t).push(entry_op(s.last()))
    } else {
        entries_at(s.drop_last(), t)
    }
}

/// The operations at time `t`: exits first, then entries.
pub open spec fn ops_at(s: Seq<ScheduledBlock>, t: i64) -> Seq<Operation> {
    exits_at(s, t) + entries_at(s, t)
}

/// `sol` lists at each time step exactly the operations of `s` there, and
/// has no empty time step.
pub open spec fn solution_of(sol: &Solution, s: Seq<ScheduledBlock>) -> bool {
    forall|t: i64| {
        &&& sol.operations@.contains_key(t) <==> ops_at(s, t).len() > 0
        &&& sol.operations@.contains_key(t) ==> (#[trigger] sol.operations@[t])@ == ops_at(s, t)
    }
}

proof fn lemma_exits_step(s: Seq<ScheduledBlock>, i: int, t: i64)
    requires
        0 <= i < s.len(),
    ensures
        exits_at(s.take(i + 1), t) == if s[i].exit_time == t { exits_at(s.take(i), t).push(exit_op(s[i])) } else { exits_at(s.take(i), t) },
        entries_at(s.take(i + 1), t) == if s[i].entry_time == t { entries_at(s.take(i), t).push(entry_op(s[i])) } else { entries_at(s.take(i), t) },
{
    assert(s.take(i + 1).drop_last() =~= s.take(i));
    assert(s.take(i + 1).last() == s[i]);
}

/// The solution that performs the schedule: at each time step the exits
/// of the blocks leaving then, then the entries of the blocks arriving.
pub fn schedule_to_solution(schedule: &[ScheduledBlock]) -> (res: Solution)
    ensures
        solution_of(&res, schedule@),
{
    broadcast use vstd::std_specs::btree::group_btree_axioms;
    proof {
        lemma_time_keys_ordered();
    }
    let ghost s = schedule@;
    let mut operations: BTreeMap<i64, Vec<Operation>> = BTreeMap::new();
    let mut i: usize = 0;
    while i < schedule.len()
        invariant
            s == schedule@,
            i <= s.len(),
            forall|t: i64| #![trigger operations@.contains_key(t)] #![trigger operations@[t]] {
                &&& operations@.contains_key(t) <==> exits_at(s.take(i as int), t).len() > 0
                &&& operations@.contains_key(t) ==> operations@[t]@ == exits_at(s.take(i as int), t)
            },
        decreases s.len() - i,
    {
        let b = schedule[i];
        let ghost before = operations@;
        proof {
            lemma_time_keys_ordered();
        }
        let mut ops = match operations.remove(&b.exit_time) {
            Some(v) => v,
            None => Vec::new(),
        };
        proof {
            lemma_exits_step(s, i as int, b.exit_time);
            assert(ops@ == exits_at(s.take(i as int), b.exit_time));
        }
        ops.push(Operation { op_type: OpType::Exit, block_id: b.block_id, bay_id: b.bay_id, x: None, y: None, orient_idx: None });
        operations.insert(b.exit_time, ops);
        proof {
            assert forall|t: i64| #![trigger operations@.contains_key(t)] #![trigger operations@[t]] {
                &&& operations@.contains_key(t) <==> exits_at(s.take(i as int + 1), t).len() > 0
                &&& operations@.contains_key(t) ==> operations@[t]@ == exits_at(s.take(i as int + 1), t)
            } by {
                lemma_exits_step(s, i as int, t);
                if t != b.exit_time {
                    assert(operations@.contains_key(t) == before.contains_key(t));
                }
            }
        }
        i += 1;
    }
    proof {
        assert(s.take(s.len() as int) =~= s);
        assert forall|t: i64| #![trigger operations@.contains_key(t)] #![trigger operations@[t]]
            operations@.contains_key(t) ==> operations@[t]@ == exits_at(s, t) + entries_at(s.take(0), t) by {
            assert(entries_at(s.take(0), t) =~= Seq::<Operation>::empty());
            assert(exits_at(s, t) + entries_at(s.take(0), t) =~= exits_at(s, t));
        }
        assert forall|t: i64| #![trigger operations@.contains_key(t)]
            operations@.contains_key(t) <==> exits_at(s, t).len() + entries_at(s.take(0), t).len() > 0 by {
            assert(entries_at(s.take(0), t) =~= Seq::<Operation>::empty());
        }
    }
    let mut i: usize = 0;
    while i < schedule.len()
        invariant
            s == schedule@,
            i <= s.len(),
            forall|t: i64| #![trigger operations@.contains_key(t)] #![trigger operations@[t]] {
                &&& operations@.contains_key(t) <==> exits_at(s, t).len() + entries_at(s.take(i as int), t).len() > 0
                &&& operations@.contains_key(t) ==> operations@[t]@ == exits_at(s, t) + entries_at(s.take(i as int), t)
            },
        decreases s.len() - i,
    {
        let b = schedule[i];
        let ghost before = operations@;
        proof {
            lemma_time_keys_ordered();
        }
        let mut ops = match operations.remove(&b.entry_time) {
            Some(v) => v,
            None => Vec::new(),
        };
        proof {
            lemma_exits_step(s, i as int, b.entry_time);
            if !before.contains_key(b.entry_time) {
                assert(exits_at(s, b.entry_time).len() + entries_at(s.take(i as int), b.entry_time).len() == 0);
                assert(exits_at(s, b.entry_time) + entries_at(s.take(i as int), b.entry_time) =~= Seq::<Operation>::empty());
            }
            assert(ops@ == exits_at(s, b.entry_time) + entries_at(s.take(i as int), b.entry_time));
        }
        ops.push(Operation {
            op_type: OpType::Entry,
            block_id: b.block_id,
            bay_id: b.bay_id,
            x: Some(b.x),
            y: Some(b.y),
            orient_idx: Some(b.orient_idx),
        });
        operations.insert(b.entry_time, ops);
        proof {
            assert forall|t: i64| #![trigger operations@.contains_key(t)] #![trigger operations@[t]] {
                &&& operations@.contains_key(t) <==> exits_at(s, t).len() + entries_at(s.take(i as int + 1), t).len() > 0
                &&& operations@.contains_key(t) ==> operations@[t]@ == exits_at(s, t) + entries_at(s.take(i as int + 1), t)
            } by {
                lemma_exits_step(s, i as int, t);
                if t != b.entry_time {
                    assert(operations@.contains_key(t) == before.contains_key(t));
                } else {
                    assert(operations@[t]@ =~= exits_at(s, t) + entries_at(s.take(i as int + 1), t));
                }
            }
        }
        i += 1;
    }
    proof {
        assert(s.take(s.len() as int) =~= s);
    }
    Solution { operations }
}

/// Every placement appears at its exit time as an exit and at its entry
/// time as an entry.
pub proof fn lemma_solution_lists_block(s: Seq<ScheduledBlock>, i: int)
    requires
        0 <= i < s.len(),
    ensures
        ops_at(s, s[i].exit_time).contains(exit_op(s[i])),
        ops_at(s, s[i].entry_time).contains(entry_op(s[i])),
    decreases s.len(),
{
    let t1 = s[i].exit_time;
    let t2 = s[i].entry_time;
    if i == s.len() - 1 {
        assert(exits_at(s, t1).last() == exit_op(s[i]));
        assert(ops_at(s, t1)[exits_at(s, t1).len() - 1] == exit_op(s[i]));
        assert(entries_at(s, t2).last() == entry_op(s[i]));
        assert(ops_at(s, t2)[exits_at(s, t2).len() + entries_at(s, t2).len() - 1] == entry_op(s[i]));
    } else {
        let p = s.drop_last();
        assert(p[i] == s[i]);
        lemma_solution_lists_block(p, i);
        let k1 = choose|k: int| 0 <= k < ops_at(p, t1).len() && ops_at(p, t1)[k] == exit_op(s[i]);
        let k2 = choose|k: int| 0 <= k < ops_at(p, t2).len() && ops_at(p, t2)[k] == entry_op(s[i]);
        lemma_ops_prefix(s, t1);
        lemma_ops_prefix(s, t2);
        if k1 < exits_at(p, t1).len() {
            assert(ops_at(s, t1)[k1] == exit_op(s[i]));
        } else {
            assert(ops_at(s, t1)[k1 - exits_at(p, t1).len() + exits_at(s, t1).len()] == exit_op(s[i]));
        }
        if k2 < exits_at(p, t2).len() {
            assert(ops_at(s, t2)[k2] == entry_op(s[i]));
        } else {
            assert(ops_at(s, t2)[k2 - exits_at(p, t2).len() + exits_at(s, t2).len()] == entry_op(s[i]));
        }
    }
}

/// The exits and entries of a prefix are prefixes of those of the whole.
proof fn lemma_ops_prefix(s: Seq<ScheduledBlock>, t: i64)
    requires
        s.len() > 0,
    ensures
        exits_at(s.drop_last(), t).len() <= exits_at(s, t).len(),
        entries_at(s.drop_last(), t).len() <= entries_at(s, t).len(),
        forall|k: int| 0 <= k < exits_at(s.drop_last(), t).len() ==> #[trigger] exits_at(s, t)[k] == exits_at(s.drop_last(), t)[k],
        forall|k: int| 0 <= k < entries_at(s.drop_last(), t).len() ==> #[trigger] entries_at(s, t)[k] == entries_at(s.drop_last(), t)[k],
{
}

/// Times are ordered as the map of operations needs.
pub(crate) proof fn lemma_time_keys_ordered()
    ensures
        vstd::laws_cmp::obeys_cmp::<i64>(),
{
    broadcast use vstd::laws_cmp::group_laws_cmp;
}

} // verus!
