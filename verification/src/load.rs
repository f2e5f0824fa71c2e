//! Reading a schedule back from a solution: every block must enter once
//! and leave once, from and to the same bay, later than it entered.
use vstd::prelude::*;

use vstd::std_specs::btree::spec_btree_map_iter;
use vstd::std_specs::iter::IteratorSpec;

use crate::model::ScheduledBlock;
use crate::solution::{entries_at, entry_op, exit_op, exits_at, lemma_solution_lists_block, ops_at, solution_of, OpType, Operation, Solution};

verus! {

/// The entry of a block read so far: its time, bay, orientation and
/// position.
#[derive(Clone, Copy, Debug, PartialEq, Eq, Structural)]
pub struct EntryRecord {
    pub time: i64,
    pub bay_id: usize,
    pub orient_idx: usize,
    pub x: i64,
    pub y: i64,
}

/// The exit of a block read so far: its time and bay.
#[derive(Clone, Copy, Debug, PartialEq, Eq, Structural)]
pub struct ExitRecord {
    pub time: i64,
    pub bay_id: usize,
}

/// What has been read of a block.
#[derive(Clone, Copy, Debug, PartialEq, Eq, Structural)]
pub struct PartialBlock {
    pub entry: Option<EntryRecord>,
    pub exit: Option<ExitRecord>,
}

/// Why a solution does not describe a schedule.
#[derive(Clone, Copy, Debug, PartialEq, Eq, Structural)]
pub enum LoadError {
    /// An operation names a block that the problem lacks.
    MissingBlock { block_id: usize },
    /// An entry gives no x.
    EntryWithoutX,
    /// An entry gives no y.
    EntryWithoutY,
    /// An entry gives no orientation.
    EntryWithoutOrientation,
    /// An entry names a bay that the problem lacks.
    InvalidBay { block_id: usize, bay_id: usize },
    /// An entry names an orientation that the block lacks.
    InvalidOrientation { block_id: usize, orient_idx: usize },
    /// A block enters twice.
    DuplicateEntry { block_id: usize },
    /// An exit gives a position or an orientation.
    ExitWithPlacement { block_id: usize },
    /// A block leaves twice.
    DuplicateExit { block_id: usize },
    /// A block never enters.
    NoEntry { block_id: usize },
    /// A block never leaves.
    NoExit { block_id: usize },
    /// A block leaves another bay than it entered.
    BayMismatch { block_id: usize },
    /// A block leaves no later than it enters.
    NonPositiveOccupancy { block_id: usize },
}

/// Nothing read of any block yet.
pub open spec fn unread(n: nat) -> Seq<PartialBlock> {
    Seq::new(n, |i: int| PartialBlock { entry: None, exit: None })
}

/// Reads the operation `op` at time `t` into what has been read.
pub open spec fn read_op(parts: Seq<PartialBlock>, t: i64, op: Operation, n_bays: usize, orient_counts: Seq<usize>) -> Result<Seq<PartialBlock>, LoadError> {
    let b = op.block_id;
    if b >= parts.len() {
        Err(LoadError::MissingBlock { block_id: b })
    } else {
        match op.op_type {
            OpType::Entry => {
                if op.x is None {
                    Err(LoadError::EntryWithoutX)
                } else if op.y is None {
                    Err(LoadError::EntryWithoutY)
                } else if op.orient_idx is None {
                    Err(LoadError::EntryWithoutOrientation)
                } else if op.bay_id >= n_bays {
                    Err(LoadError::InvalidBay { block_id: b, bay_id: op.bay_id })
                } else if op.orient_idx.unwrap() >= orient_counts[b as int] {
                    Err(LoadError::InvalidOrientation { block_id: b, orient_idx: op.orient_idx.unwrap() })
                } else if parts[b as int].entry is Some {
                    Err(LoadError::DuplicateEntry { block_id: b })
                } else {
                    let e = EntryRecord {
                        time: t,
                        bay_id: op.bay_id,
                        orient_idx: op.orient_idx.unwrap(),
                        x: op.x.unwrap(),
                        y: op.y.unwrap(),
                    };
                    Ok(parts.update(b as int, PartialBlock { entry: Some(e), exit: parts[b as int].exit }))
                }
            },
            OpType::Exit => {
                if op.x is Some || op.y is Some || op.orient_idx is Some {
                    Err(LoadError::ExitWithPlacement { block_id: b })
                } else if parts[b as int].exit is Some {
                    Err(LoadError::DuplicateExit { block_id: b })
                } else {
                    let x = ExitRecord { time: t, bay_id: op.bay_id };
                    Ok(parts.update(b as int, PartialBlock { entry: parts[b as int].entry, exit: Some(x) }))
                }
            },
        }
    }
}

/// Reads the timed operations in order, stopping at the first error.
pub open spec fn read_ops(ops: Seq<(i64, Operation)>, n_blocks: nat, n_bays: usize, orient_counts: Seq<usize>) -> Result<Seq<PartialBlock>, LoadError>
    decreases ops.len(),
{
    if ops.len() == 0 {
        Ok(unread(n_blocks))
    } else {
        match read_ops(ops.drop_last(), n_blocks, n_bays, orient_counts) {
            Err(e) => Err(e),
            Ok(parts) => read_op(parts, ops.last().0, ops.last().1, n_bays, orient_counts),
        }
    }
}

/// The placement of block `i` from what was read of it.
pub open spec fn assemble_one(p: PartialBlock, i: int) -> Result<ScheduledBlock, LoadError> {
    if p.entry is None {
        Err(LoadError::NoEntry { block_id: i as usize })
    } else if p.exit is None {
        Err(LoadError::NoExit { block_id: i as usize })
    } else if p.entry.unwrap().bay_id != p.exit.unwrap().bay_id {
        Err(LoadError::BayMismatch { block_id: i as usize })
    } else if p.entry.unwrap().time >= p.exit.unwrap().time {
        Err(LoadError::NonPositiveOccupancy { block_id: i as usize })
    } else {
        let e = p.entry.unwrap();
        Ok(ScheduledBlock {
            block_id: i as usize,
            bay_id: e.bay_id,
            orient_idx: e.orient_idx,
            x: e.x,
            y: e.y,
            entry_time: e.time,
            exit_time: p.exit.unwrap().time,
        })
    }
}

/// The placements of all blocks in order of their ids, or the first
/// block's error.
pub open spec fn assemble(parts: Seq<PartialBlock>) -> Result<Seq<ScheduledBlock>, LoadError>
    decreases parts.len(),
{
    if parts.len() == 0 {
        Ok(Seq::empty())
    } else {
        match assemble(parts.drop_last()) {
            Err(e) => Err(e),
            Ok(v) => match assemble_one(parts.last(), parts.len() - 1) {
                Err(e) => Err(e),
                Ok(b) => Ok(v.push(b)),
            },
        }
    }
}

/// A schedule assembled from what was read lists one placement per block,
/// in order of ids, each with the entry and exit read for it, and each
/// entering strictly before it leaves.
pub proof fn lemma_assembled_placements_occupy_time(parts: Seq<PartialBlock>)
    ensures
        assemble(parts) matches Ok(v) ==> {
            &&& v.len() == parts.len()
            &&& forall|i: int| #![trigger v[i]] 0 <= i < v.len() ==> {
                &&& v[i].block_id == i as usize
                &&& v[i].entry_time < v[i].exit_time
                &&& parts[i].entry matches Some(e) && e.time == v[i].entry_time && e.bay_id == v[i].bay_id
                    && e.orient_idx == v[i].orient_idx && e.x == v[i].x && e.y == v[i].y
                &&& parts[i].exit matches Some(x) && x.time == v[i].exit_time && x.bay_id == v[i].bay_id
            }
        },
    decreases parts.len(),
{
    if parts.len() > 0 {
        let pre = parts.drop_last();
        lemma_assembled_placements_occupy_time(pre);
        if let Ok(v) = assemble(parts) {
            let v0 = assemble(pre).unwrap();
            assert(v == v0.push(assemble_one(parts.last(), parts.len() - 1).unwrap()));
            assert forall|i: int| #![trigger v[i]] 0 <= i < v.len() implies {
                &&& v[i].block_id == i as usize
                &&& v[i].entry_time < v[i].exit_time
                &&& parts[i].entry matches Some(e) && e.time == v[i].entry_time && e.bay_id == v[i].bay_id
                    && e.orient_idx == v[i].orient_idx && e.x == v[i].x && e.y == v[i].y
                &&& parts[i].exit matches Some(x) && x.time == v[i].exit_time && x.bay_id == v[i].bay_id
            } by {
                if i < v0.len() {
                    assert(v[i] == v0[i]);
                    assert(pre[i] == parts[i]);
                } else {
                    assert(i == parts.len() - 1);
                    assert(parts.last() == parts[i]);
                    assert(v[i] == assemble_one(parts[i], i).unwrap());
                }
            }
        }
    }
}

/// The operations of the time steps, each with its time, in the order of
/// the steps.
pub open spec fn timed_ops(steps: Seq<(&i64, &Vec<Operation>)>) -> Seq<(i64, Operation)>
    decreases steps.len(),
{
    if steps.len() == 0 {
        Seq::empty()
    } else {
        let (t, ops) = steps.last();
        timed_ops(steps.drop_last()) + ops@.map_values(|op: Operation| (*t, op))
    }
}

/// The schedule that the time steps of a solution describe, read in the
/// order given.
pub open spec fn schedule_of(steps: Seq<(&i64, &Vec<Operation>)>, n_bays: usize, orient_counts: Seq<usize>) -> Result<Seq<ScheduledBlock>, LoadError> {
    match read_ops(timed_ops(steps), orient_counts.len(), n_bays, orient_counts) {
        Err(e) => Err(e),
        Ok(parts) => assemble(parts),
    }
}

/// An error met while reading stays the result of reading more.
proof fn lemma_read_error_stays(ops: Seq<(i64, Operation)>, k: int, n_blocks: nat, n_bays: usize, orient_counts: Seq<usize>)
    requires
        0 <= k <= ops.len(),
        read_ops(ops.take(k), n_blocks, n_bays, orient_counts) is Err,
    ensures
        read_ops(ops, n_blocks, n_bays, orient_counts) == read_ops(ops.take(k), n_blocks, n_bays, orient_counts),
    decreases ops.len() - k,
{
    if k < ops.len() {
        assert(ops.take(k + 1).drop_last() =~= ops.take(k));
        lemma_read_error_stays(ops, k + 1, n_blocks, n_bays, orient_counts);
    } else {
        assert(ops.take(k) =~= ops);
    }
}

/// Reading never changes how many blocks there are.
proof fn lemma_read_len(ops: Seq<(i64, Operation)>, n_blocks: nat, n_bays: usize, orient_counts: Seq<usize>)
    ensures
        read_ops(ops, n_blocks, n_bays, orient_counts) matches Ok(p) ==> p.len() == n_blocks,
    decreases ops.len(),
{
    if ops.len() > 0 {
        lemma_read_len(ops.drop_last(), n_blocks, n_bays, orient_counts);
    }
}

/// Reads one operation into `parts`, as `read_op` says.
fn apply_op(parts: &mut Vec<PartialBlock>, t: i64, op: Operation, n_bays: usize, orient_counts: &Vec<usize>) -> (res: Result<(), LoadError>)
    requires
        orient_counts@.len() == old(parts)@.len(),
    ensures
        match read_op(old(parts)@, t, op, n_bays, orient_counts@) {
            Ok(p) => res is Ok && final(parts)@ == p,
            Err(e) => res == Err::<(), LoadError>(e),
        },
{
    let b = op.block_id;
    if b >= parts.len() {
        return Err(LoadError::MissingBlock { block_id: b });
    }
    match op.op_type {
        OpType::Entry => {
            let x = match op.x {
                Some(v) => v,
                None => {
                    return Err(LoadError::EntryWithoutX);
                },
            };
            let y = match op.y {
                Some(v) => v,
                None => {
                    return Err(LoadError::EntryWithoutY);
                },
            };
            let orient_idx = match op.orient_idx {
                Some(v) => v,
                None => {
                    return Err(LoadError::EntryWithoutOrientation);
                },
            };
            if op.bay_id >= n_bays {
                return Err(LoadError::InvalidBay { block_id: b, bay_id: op.bay_id });
            }
            if orient_idx >= orient_counts[b] {
                return Err(LoadError::InvalidOrientation { block_id: b, orient_idx });
            }
            let cur = parts[b];
            if cur.entry.is_some() {
                return Err(LoadError::DuplicateEntry { block_id: b });
            }
            let e = EntryRecord { time: t, bay_id: op.bay_id, orient_idx, x, y };
            parts.set(b, PartialBlock { entry: Some(e), exit: cur.exit });
            Ok(())
        },
        OpType::Exit => {
            if op.x.is_some() || op.y.is_some() || op.orient_idx.is_some() {
                return Err(LoadError::ExitWithPlacement { block_id: b });
            }
            let cur = parts[b];
            if cur.exit.is_some() {
                return Err(LoadError::DuplicateExit { block_id: b });
            }
            parts.set(b, PartialBlock { entry: cur.entry, exit: Some(ExitRecord { time: t, bay_id: op.bay_id }) });
            Ok(())
        },
    }
}

/// The placement of block `i`, as `assemble_one` says.
fn assemble_block(p: PartialBlock, i: usize) -> (res: Result<ScheduledBlock, LoadError>)
    ensures
        res == assemble_one(p, i as int),
        res matches Ok(b) ==> b.entry_time < b.exit_time,
{
    let e = match p.entry {
        Some(e) => e,
        None => {
            return Err(LoadError::NoEntry { block_id: i });
        },
    };
    let x = match p.exit {
        Some(x) => x,
        None => {
            return Err(LoadError::NoExit { block_id: i });
        },
    };
    if e.bay_id != x.bay_id {
        return Err(LoadError::BayMismatch { block_id: i });
    }
    if e.time >= x.time {
        return Err(LoadError::NonPositiveOccupancy { block_id: i });
    }
    Ok(ScheduledBlock {
        block_id: i,
        bay_id: e.bay_id,
        orient_idx: e.orient_idx,
        x: e.x,
        y: e.y,
        entry_time: e.time,
        exit_time: x.time,
    })
}

/// The placements of all blocks, as `assemble` says.
fn assemble_schedule(parts: &Vec<PartialBlock>) -> (res: Result<Vec<ScheduledBlock>, LoadError>)
    ensures
        match assemble(parts@) {
            Ok(v) => res matches Ok(r) && r@ == v,
            Err(e) => res == Err::<Vec<ScheduledBlock>, LoadError>(e),
        },
{
    let mut out: Vec<ScheduledBlock> = Vec::new();
    let mut i: usize = 0;
    while i < parts.len()
        invariant
            i <= parts@.len(),
            assemble(parts@.take(i as int)) == Ok::<Seq<ScheduledBlock>, LoadError>(out@),
        decreases parts@.len() - i,
    {
        proof {
            assert(parts@.take(i + 1).drop_last() =~= parts@.take(i as int));
            assert(parts@.take(i + 1).last() == parts@[i as int]);
        }
        match assemble_block(parts[i], i) {
            Ok(b) => {
                out.push(b);
            },
            Err(e) => {
                proof {
                    lemma_assemble_error_stays(parts@, i + 1);
                }
                return Err(e);
            },
        }
        i += 1;
    }
    proof {
        assert(parts@.take(i as int) =~= parts@);
    }
    Ok(out)
}

/// An error met while assembling stays the result of assembling more.
proof fn lemma_assemble_error_stays(parts: Seq<PartialBlock>, k: int)
    requires
        0 <= k <= parts.len(),
        assemble(parts.take(k)) is Err,
    ensures
        assemble(parts) == assemble(parts.take(k)),
    decreases parts.len() - k,
{
    if k < parts.len() {
        assert(parts.take(k + 1).drop_last() =~= parts.take(k));
        lemma_assemble_error_stays(parts, k + 1);
    } else {
        assert(parts.take(k) =~= parts);
    }
}

/// The schedule that a solution describes for a problem with `n_bays` bays
/// and blocks with `orient_counts` orientations each, or the first error:
/// time steps are read in increasing order, the operations of a step in
/// order, then the blocks are checked in order of their ids.
pub fn load_schedule(solution: &Solution, n_bays: usize, orient_counts: &Vec<usize>) -> (res: Result<Vec<ScheduledBlock>, LoadError>)
    ensures
        match schedule_of(spec_btree_map_iter(&solution.operations).remaining(), n_bays, orient_counts@) {
            Ok(v) => res matches Ok(r) && r@ == v,
            Err(e) => res == Err::<Vec<ScheduledBlock>, LoadError>(e),
        },
        res matches Ok(r) ==> r@.len() == orient_counts@.len() && forall|i: int| #![trigger r@[i]] 0 <= i < r@.len() ==>
            r@[i].block_id == i && r@[i].entry_time < r@[i].exit_time,
{
    broadcast use vstd::std_specs::btree::group_btree_axioms;
    proof {
        crate::solution::lemma_time_keys_ordered();
    }
    let n = orient_counts.len();
    let mut parts: Vec<PartialBlock> = Vec::new();
    let mut i: usize = 0;
    while i < n
        invariant
            i <= n,
            n == orient_counts@.len(),
            parts@ == unread(i as nat),
        decreases n - i,
    {
        parts.push(PartialBlock { entry: None, exit: None });
        proof {
            assert(parts@ =~= unread((i + 1) as nat));
        }
        i += 1;
    }
    let ghost all = timed_ops(spec_btree_map_iter(&solution.operations).remaining());
    let ghost mut done_len: int = 0;
    for (t, ops) in it: solution.operations.iter()
        invariant
            n == orient_counts@.len(),
            all == timed_ops(it.seq()),
            all == timed_ops(spec_btree_map_iter(&solution.operations).remaining()),
            0 <= done_len <= all.len(),
            timed_ops(it.seq().take(it.index())) == all.take(done_len),
            it.index() == it.seq().len() ==> done_len == all.len(),
            read_ops(all.take(done_len), n as nat, n_bays, orient_counts@) == Ok::<Seq<PartialBlock>, LoadError>(parts@),
            parts@.len() == n,
    {
        let ghost before = timed_ops(it.seq().take(it.index()));
        let ghost step = it.seq()[it.index()];
        proof {
            assert(step.0 == t && step.1 == ops);
        }
        let mut j: usize = 0;
        while j < ops.len()
            invariant
                j <= ops@.len(),
                n == orient_counts@.len(),
                all == timed_ops(it.seq()),
                all == timed_ops(spec_btree_map_iter(&solution.operations).remaining()),
                0 <= it.index() < it.seq().len(),
                before == timed_ops(it.seq().take(it.index())),
                it.seq()[it.index()].0 == t,
                it.seq()[it.index()].1 == ops,
                read_ops(before + ops@.map_values(|op: Operation| (*t, op)).take(j as int), n as nat, n_bays, orient_counts@) == Ok::<Seq<PartialBlock>, LoadError>(parts@),
                parts@.len() == n,
            decreases ops@.len() - j,
        {
            let ghost done = before + ops@.map_values(|op: Operation| (*t, op)).take(j as int);
            let ghost next = before + ops@.map_values(|op: Operation| (*t, op)).take(j + 1);
            proof {
                assert(next.drop_last() =~= done);
                assert(next.last() == (*t, ops@[j as int]));
                lemma_read_len(done, n as nat, n_bays, orient_counts@);
            }
            let ghost parts_before = parts@;
            match apply_op(&mut parts, *t, ops[j], n_bays, orient_counts) {
                Ok(()) => {},
                Err(e) => {
                    proof {
                        assert(read_ops(done, n as nat, n_bays, orient_counts@) == Ok::<Seq<PartialBlock>, LoadError>(parts_before));
                        assert(read_op(parts_before, *t, ops@[j as int], n_bays, orient_counts@) == Err::<Seq<PartialBlock>, LoadError>(e));
                        assert(read_ops(next, n as nat, n_bays, orient_counts@) == Err::<Seq<PartialBlock>, LoadError>(e));
                        lemma_timed_ops_prefix(it.seq(), it.index(), j as int);
                        lemma_read_error_stays(all, next.len() as int, n as nat, n_bays, orient_counts@);
                    }
                    return Err(e);
                },
            }
            j += 1;
        }
        proof {
            assert(it.seq().take(it.index() + 1).drop_last() =~= it.seq().take(it.index()));
            assert(ops@.map_values(|op: Operation| (*t, op)).take(ops@.len() as int) =~= ops@.map_values(|op: Operation| (*t, op)));
            done_len = done_len + ops@.len();
            lemma_timed_ops_step(it.seq(), it.index());
            assert(it.index() + 1 == it.seq().len() ==> it.seq().take(it.index() + 1) =~= it.seq());
        }
    }
    proof {
        assert(all.take(done_len) =~= all);
        lemma_assembled_placements_occupy_time(parts@);
    }
    assemble_schedule(&parts)
}

/// The operations of the first `k + 1` steps are a prefix of all timed
/// operations, those of the first `k` steps followed by those of step `k`.
proof fn lemma_timed_ops_step(steps: Seq<(&i64, &Vec<Operation>)>, k: int)
    requires
        0 <= k < steps.len(),
    ensures
        timed_ops(steps.take(k + 1)) == timed_ops(steps.take(k)) + steps[k].1@.map_values(|op: Operation| (*steps[k].0, op)),
        timed_ops(steps.take(k + 1)).len() <= timed_ops(steps).len(),
        timed_ops(steps).take(timed_ops(steps.take(k + 1)).len() as int) == timed_ops(steps.take(k + 1)),
    decreases steps.len(),
{
    assert(steps.take(k + 1).drop_last() =~= steps.take(k));
    assert(steps.take(k + 1).last() == steps[k]);
    if k + 1 == steps.len() {
        assert(steps.take(k + 1) =~= steps);
        assert(timed_ops(steps).take(timed_ops(steps).len() as int) =~= timed_ops(steps));
    } else {
        let p = steps.drop_last();
        assert(p.take(k + 1) =~= steps.take(k + 1));
        assert(p.take(k) =~= steps.take(k));
        assert(p[k] == steps[k]);
        lemma_timed_ops_step(p, k);
        let q = timed_ops(steps.take(k + 1));
        assert(timed_ops(steps).take(q.len() as int) =~= timed_ops(p).take(q.len() as int));
    }
}

/// The operations read before the `j`-th operation of step `k`, and that
/// operation, are a prefix of all timed operations.
proof fn lemma_timed_ops_prefix(steps: Seq<(&i64, &Vec<Operation>)>, k: int, j: int)
    requires
        0 <= k < steps.len(),
        0 <= j < steps[k].1@.len(),
    ensures
        ({
            let next = timed_ops(steps.take(k)) + steps[k].1@.map_values(|op: Operation| (*steps[k].0, op)).take(j + 1);
            &&& next.len() <= timed_ops(steps).len()
            &&& timed_ops(steps).take(next.len() as int) == next
        }),
    decreases steps.len(),
{
    let next = timed_ops(steps.take(k)) + steps[k].1@.map_values(|op: Operation| (*steps[k].0, op)).take(j + 1);
    if k == steps.len() - 1 {
        assert(steps.drop_last() =~= steps.take(k));
        assert(timed_ops(steps).take(next.len() as int) =~= next);
    } else {
        let p = steps.drop_last();
        assert(p.take(k) =~= steps.take(k));
        assert(p[k] == steps[k]);
        lemma_timed_ops_prefix(p, k, j);
        assert(timed_ops(steps).take(next.len() as int) =~= timed_ops(p).take(next.len() as int));
    }
}

/// A schedule that a solution can describe for a problem with `n_bays`
/// bays and blocks with `orient_counts` orientations each: one placement
/// per block in order of ids, in a bay and orientation that exist, leaving
/// later than it enters.
pub open spec fn loadable(s: Seq<ScheduledBlock>, n_bays: usize, orient_counts: Seq<usize>) -> bool {
    &&& s.len() == orient_counts.len()
    &&& forall|i: int| #![trigger s[i]] 0 <= i < s.len() ==> {
        &&& s[i].block_id == i
        &&& s[i].bay_id < n_bays
        &&& s[i].orient_idx < orient_counts[i]
        &&& s[i].entry_time < s[i].exit_time
    }
}

/// Every operation of a time step is the exit or the entry of a placement
/// at that time.
proof fn lemma_ops_at_member(s: Seq<ScheduledBlock>, t: i64, k: int)
    requires
        0 <= k < ops_at(s, t).len(),
    ensures
        exists|j: int| 0 <= j < s.len() && #[trigger] s[j] == s[j] && (
            (ops_at(s, t)[k] == exit_op(s[j]) && s[j].exit_time == t)
            || (ops_at(s, t)[k] == entry_op(s[j]) && s[j].entry_time == t)),
    decreases s.len(),
{
    let p = s.drop_last();
    let last = s.len() - 1;
    if k < exits_at(s, t).len() {
        if s.last().exit_time == t && k == exits_at(s, t).len() - 1 {
            assert(s[last] == s.last());
            assert(ops_at(s, t)[k] == exit_op(s[last]));
        } else {
            assert(ops_at(s, t)[k] == ops_at(p, t)[k]);
            lemma_ops_at_member(p, t, k);
            let j = choose|j: int| 0 <= j < p.len() && #[trigger] p[j] == p[j] && (
                (ops_at(p, t)[k] == exit_op(p[j]) && p[j].exit_time == t)
                || (ops_at(p, t)[k] == entry_op(p[j]) && p[j].entry_time == t));
            assert(s[j] == p[j]);
        }
    } else {
        let e = k - exits_at(s, t).len();
        assert(ops_at(s, t)[k] == entries_at(s, t)[e]);
        if s.last().entry_time == t && e == entries_at(s, t).len() - 1 {
            assert(s[last] == s.last());
        } else {
            let q = exits_at(p, t).len() + e;
            assert(ops_at(p, t)[q] == entries_at(p, t)[e]);
            lemma_ops_at_member(p, t, q);
            let j = choose|j: int| 0 <= j < p.len() && #[trigger] p[j] == p[j] && (
                (ops_at(p, t)[q] == exit_op(p[j]) && p[j].exit_time == t)
                || (ops_at(p, t)[q] == entry_op(p[j]) && p[j].entry_time == t));
            assert(s[j] == p[j]);
        }
    }
}

/// The exits and the entries of a time step name blocks of the schedule,
/// and none twice when no block is listed twice.
proof fn lemma_ops_block_bound(s: Seq<ScheduledBlock>, t: i64)
    requires
        forall|a: int, b: int| 0 <= a < b < s.len() ==> s[a].block_id != s[b].block_id,
    ensures
        forall|k: int| 0 <= k < exits_at(s, t).len() ==> exists|j: int| 0 <= j < s.len() && (#[trigger] exits_at(s, t)[k]).block_id == s[j].block_id,
        forall|k: int| 0 <= k < entries_at(s, t).len() ==> exists|j: int| 0 <= j < s.len() && (#[trigger] entries_at(s, t)[k]).block_id == s[j].block_id,
        forall|k: int| 0 <= k < exits_at(s, t).len() ==> (#[trigger] exits_at(s, t)[k]).op_type == OpType::Exit,
        forall|k: int| 0 <= k < entries_at(s, t).len() ==> (#[trigger] entries_at(s, t)[k]).op_type == OpType::Entry,
        exits_at(s, t).no_duplicates(),
        entries_at(s, t).no_duplicates(),
    decreases s.len(),
{
    if s.len() > 0 {
        let p = s.drop_last();
        let n = s.len() - 1;
        assert(s[n] == s.last());
        assert forall|a: int, b: int| 0 <= a < b < p.len() implies p[a].block_id != p[b].block_id by {
            assert(p[a] == s[a] && p[b] == s[b]);
        }
        lemma_ops_block_bound(p, t);
        let xp = exits_at(p, t);
        let ep = entries_at(p, t);
        assert forall|k: int| 0 <= k < xp.len() implies (#[trigger] xp[k]).block_id != s[n].block_id by {
            let j = choose|j: int| 0 <= j < p.len() && xp[k].block_id == p[j].block_id;
            assert(p[j] == s[j]);
        }
        assert forall|k: int| 0 <= k < ep.len() implies (#[trigger] ep[k]).block_id != s[n].block_id by {
            let j = choose|j: int| 0 <= j < p.len() && ep[k].block_id == p[j].block_id;
            assert(p[j] == s[j]);
        }
        assert forall|k: int| 0 <= k < exits_at(s, t).len() implies exists|j: int| 0 <= j < s.len() && (#[trigger] exits_at(s, t)[k]).block_id == s[j].block_id by {
            if k < xp.len() {
                assert(exits_at(s, t)[k] == xp[k]);
                let j = choose|j: int| 0 <= j < p.len() && xp[k].block_id == p[j].block_id;
                assert(p[j] == s[j]);
            } else {
                assert(exits_at(s, t)[k].block_id == s[n].block_id);
            }
        }
        assert forall|k: int| 0 <= k < entries_at(s, t).len() implies exists|j: int| 0 <= j < s.len() && (#[trigger] entries_at(s, t)[k]).block_id == s[j].block_id by {
            if k < ep.len() {
                assert(entries_at(s, t)[k] == ep[k]);
                let j = choose|j: int| 0 <= j < p.len() && ep[k].block_id == p[j].block_id;
                assert(p[j] == s[j]);
            } else {
                assert(entries_at(s, t)[k].block_id == s[n].block_id);
            }
        }
        if s.last().exit_time == t {
            let x = exits_at(s, t);
            assert forall|a: int, b: int| 0 <= a < x.len() && 0 <= b < x.len() && a != b implies x[a] != x[b] by {
                if a < xp.len() && b < xp.len() {
                    assert(x[a] == xp[a] && x[b] == xp[b]);
                } else if a < xp.len() {
                    assert(x[a] == xp[a]);
                } else {
                    assert(x[b] == xp[b]);
                }
            }
        }
        if s.last().entry_time == t {
            let e = entries_at(s, t);
            assert forall|a: int, b: int| 0 <= a < e.len() && 0 <= b < e.len() && a != b implies e[a] != e[b] by {
                if a < ep.len() && b < ep.len() {
                    assert(e[a] == ep[a] && e[b] == ep[b]);
                } else if a < ep.len() {
                    assert(e[a] == ep[a]);
                } else {
                    assert(e[b] == ep[b]);
                }
            }
        }
    }
}

/// The operations of a time step are all different.
proof fn lemma_ops_no_duplicates(s: Seq<ScheduledBlock>, t: i64)
    requires
        forall|a: int, b: int| 0 <= a < b < s.len() ==> s[a].block_id != s[b].block_id,
    ensures
        ops_at(s, t).no_duplicates(),
{
    lemma_ops_block_bound(s, t);
    vstd::seq_lib::lemma_no_dup_in_concat(exits_at(s, t), entries_at(s, t));
}

/// What the timed operations of some steps hold.
proof fn lemma_timed_ops_facts(steps: Seq<(&i64, &Vec<Operation>)>)
    ensures
        forall|i: int| #![trigger timed_ops(steps)[i]] 0 <= i < timed_ops(steps).len() ==> exists|k: int|
            #![trigger steps[k]] 0 <= k < steps.len() && timed_ops(steps)[i].0 == *steps[k].0 && steps[k].1@.contains(timed_ops(steps)[i].1),
        forall|k: int, j: int| 0 <= k < steps.len() && 0 <= j < steps[k].1@.len() ==> timed_ops(steps).contains((*steps[k].0, #[trigger] steps[k].1@[j])),
        (forall|a: int, b: int| 0 <= a < b < steps.len() ==> *steps[a].0 != *steps[b].0)
            && (forall|k: int| 0 <= k < steps.len() ==> (#[trigger] steps[k]).1@.no_duplicates())
            ==> timed_ops(steps).no_duplicates(),
    decreases steps.len(),
{
    if steps.len() > 0 {
        let p = steps.drop_last();
        let (t, ops) = steps.last();
        let f = timed_ops(p);
        let l = ops@.map_values(|op: Operation| (*t, op));
        lemma_timed_ops_facts(p);
        assert(timed_ops(steps) == f + l);
        let last = steps.len() - 1;
        assert(steps[last] == steps.last());
        assert forall|i: int| #![trigger timed_ops(steps)[i]] 0 <= i < timed_ops(steps).len() implies exists|k: int|
            #![trigger steps[k]] 0 <= k < steps.len() && timed_ops(steps)[i].0 == *steps[k].0 && steps[k].1@.contains(timed_ops(steps)[i].1) by {
            if i < f.len() {
                assert(timed_ops(steps)[i] == f[i]);
                let k = choose|k: int| #![trigger p[k]] 0 <= k < p.len() && f[i].0 == *p[k].0 && p[k].1@.contains(f[i].1);
                assert(steps[k] == p[k]);
            } else {
                let j = i - f.len();
                assert(timed_ops(steps)[i] == l[j]);
                assert(ops@[j] == l[j].1);
                assert(steps[last].1@.contains(timed_ops(steps)[i].1));
            }
        }
        assert forall|k: int, j: int| 0 <= k < steps.len() && 0 <= j < steps[k].1@.len() implies timed_ops(steps).contains((*steps[k].0, #[trigger] steps[k].1@[j])) by {
            if k < p.len() {
                assert(steps[k] == p[k]);
                assert(f.contains((*p[k].0, p[k].1@[j])));
                let i = choose|i: int| 0 <= i < f.len() && f[i] == (*p[k].0, p[k].1@[j]);
                assert(timed_ops(steps)[i] == f[i]);
            } else {
                assert(timed_ops(steps)[f.len() + j] == l[j]);
            }
        }
        if (forall|a: int, b: int| 0 <= a < b < steps.len() ==> *steps[a].0 != *steps[b].0)
            && (forall|k: int| 0 <= k < steps.len() ==> (#[trigger] steps[k]).1@.no_duplicates()) {
            assert forall|a: int, b: int| 0 <= a < b < p.len() implies *p[a].0 != *p[b].0 by {
                assert(p[a] == steps[a] && p[b] == steps[b]);
            }
            assert forall|k: int| 0 <= k < p.len() implies (#[trigger] p[k]).1@.no_duplicates() by {
                assert(p[k] == steps[k]);
            }
            assert(steps[last].1@.no_duplicates());
            assert forall|a: int, b: int| 0 <= a < b < l.len() implies l[a] != l[b] by {
                assert(ops@[a] != ops@[b]);
            }
            assert forall|a: int, b: int| 0 <= a < f.len() && 0 <= b < l.len() implies f[a] != l[b] by {
                let k = choose|k: int| #![trigger p[k]] 0 <= k < p.len() && f[a].0 == *p[k].0 && p[k].1@.contains(f[a].1);
                assert(steps[k] == p[k]);
            }
            vstd::seq_lib::lemma_no_dup_in_concat(f, l);
        }
    }
}

/// The time steps of a map, listed once each, have different times.
proof fn lemma_steps_keys_distinct(m: Map<i64, Vec<Operation>>, steps: Seq<(&i64, &Vec<Operation>)>)
    requires
        m.dom().finite(),
        steps.len() == m.dom().len(),
        forall|i: int| 0 <= i < steps.len() ==> m.contains_key(*(#[trigger] steps[i]).0),
        forall|k: i64| m.contains_key(k) ==> exists|i: int| 0 <= i < steps.len() && *(#[trigger] steps[i]).0 == k,
    ensures
        forall|a: int, b: int| 0 <= a < b < steps.len() ==> *steps[a].0 != *steps[b].0,
{
    let keys = Seq::new(steps.len(), |i: int| *steps[i].0);
    assert forall|k: i64| keys.to_set().contains(k) <==> m.dom().contains(k) by {
        if m.dom().contains(k) {
            let i = choose|i: int| 0 <= i < steps.len() && *(#[trigger] steps[i]).0 == k;
            assert(keys[i] == k);
        }
        if keys.to_set().contains(k) {
            let i = choose|i: int| 0 <= i < keys.len() && keys[i] == k;
            assert(m.contains_key(*steps[i].0));
        }
    }
    assert(keys.to_set() =~= m.dom());
    keys.lemma_no_dup_set_cardinality();
    assert forall|a: int, b: int| 0 <= a < b < steps.len() implies *steps[a].0 != *steps[b].0 by {
        assert(keys[a] == *steps[a].0 && keys[b] == *steps[b].0);
    }
}

/// The timed entry of placement `b`.
pub open spec fn timed_entry(b: ScheduledBlock) -> (i64, Operation) {
    (b.entry_time, entry_op(b))
}

/// The timed exit of placement `b`.
pub open spec fn timed_exit(b: ScheduledBlock) -> (i64, Operation) {
    (b.exit_time, exit_op(b))
}

/// What reading the first `k` timed operations gives when they are
/// entries and exits of `s`, each once.
pub open spec fn read_prefix(s: Seq<ScheduledBlock>, ops: Seq<(i64, Operation)>, k: int) -> Seq<PartialBlock> {
    Seq::new(s.len(), |i: int| PartialBlock {
        entry: if ops.take(k).contains(timed_entry(s[i])) {
            Some(EntryRecord { time: s[i].entry_time, bay_id: s[i].bay_id, orient_idx: s[i].orient_idx, x: s[i].x, y: s[i].y })
        } else {
            None
        },
        exit: if ops.take(k).contains(timed_exit(s[i])) {
            Some(ExitRecord { time: s[i].exit_time, bay_id: s[i].bay_id })
        } else {
            None
        },
    })
}

/// Reading the entries and exits of a loadable schedule, each once and in
/// any order, records each as it comes and meets no error.
proof fn lemma_read_back(s: Seq<ScheduledBlock>, ops: Seq<(i64, Operation)>, n_bays: usize, orient_counts: Seq<usize>, k: int)
    requires
        loadable(s, n_bays, orient_counts),
        ops.no_duplicates(),
        forall|i: int| #![trigger ops[i]] 0 <= i < ops.len() ==> exists|j: int|
            0 <= j < s.len() && (ops[i] == timed_entry(#[trigger] s[j]) || ops[i] == timed_exit(s[j])),
        0 <= k <= ops.len(),
    ensures
        read_ops(ops.take(k), s.len(), n_bays, orient_counts) == Ok::<Seq<PartialBlock>, LoadError>(read_prefix(s, ops, k)),
    decreases k,
{
    if k == 0 {
        assert(ops.take(0) =~= Seq::<(i64, Operation)>::empty());
        assert(read_prefix(s, ops, 0) =~= unread(s.len()));
    } else {
        lemma_read_back(s, ops, n_bays, orient_counts, k - 1);
        let before = read_prefix(s, ops, k - 1);
        let after = read_prefix(s, ops, k);
        assert(ops.take(k).drop_last() =~= ops.take(k - 1));
        assert(ops.take(k) =~= ops.take(k - 1).push(ops[k - 1]));
        assert(!ops.take(k - 1).contains(ops[k - 1]));
        let pre = ops.take(k - 1);
        let cur = ops.take(k);
        let last = ops[k - 1];
        let j = choose|j: int| 0 <= j < s.len() && (last == timed_entry(#[trigger] s[j]) || last == timed_exit(s[j]));
        assert(s[j].block_id == j);
        assert forall|i: int| 0 <= i < s.len() implies
            (cur.contains(timed_entry(#[trigger] s[i])) == (pre.contains(timed_entry(s[i])) || last == timed_entry(s[i])))
            && (cur.contains(timed_exit(s[i])) == (pre.contains(timed_exit(s[i])) || last == timed_exit(s[i]))) by {
            if cur.contains(timed_entry(s[i])) && !(last == timed_entry(s[i])) {
                let q = choose|q: int| 0 <= q < cur.len() && cur[q] == timed_entry(s[i]);
                assert(pre[q] == timed_entry(s[i]));
            }
            if pre.contains(timed_entry(s[i])) {
                let q = choose|q: int| 0 <= q < pre.len() && pre[q] == timed_entry(s[i]);
                assert(cur[q] == timed_entry(s[i]));
            }
            if last == timed_entry(s[i]) {
                assert(cur[k - 1] == timed_entry(s[i]));
            }
            if cur.contains(timed_exit(s[i])) && !(last == timed_exit(s[i])) {
                let q = choose|q: int| 0 <= q < cur.len() && cur[q] == timed_exit(s[i]);
                assert(pre[q] == timed_exit(s[i]));
            }
            if pre.contains(timed_exit(s[i])) {
                let q = choose|q: int| 0 <= q < pre.len() && pre[q] == timed_exit(s[i]);
                assert(cur[q] == timed_exit(s[i]));
            }
            if last == timed_exit(s[i]) {
                assert(cur[k - 1] == timed_exit(s[i]));
            }
        }
        assert forall|i: int| 0 <= i < s.len() && i != j implies
            ops[k - 1] != timed_entry(#[trigger] s[i]) && ops[k - 1] != timed_exit(s[i]) by {
            assert(s[i].block_id == i);
        }
        if ops[k - 1] == timed_entry(s[j]) {
            assert(before[j].entry is None);
            assert(after =~= before.update(j, PartialBlock { entry: after[j].entry, exit: before[j].exit }));
        } else {
            assert(before[j].exit is None);
            assert(after =~= before.update(j, PartialBlock { entry: before[j].entry, exit: after[j].exit }));
        }
    }
}

/// Assembling what was read of every block of a loadable schedule, all
/// of it, gives the schedule back.
proof fn lemma_assemble_back(s: Seq<ScheduledBlock>, parts: Seq<PartialBlock>, n_bays: usize, orient_counts: Seq<usize>, k: int)
    requires
        loadable(s, n_bays, orient_counts),
        parts.len() == s.len(),
        forall|i: int| #![trigger parts[i]] 0 <= i < s.len() ==> parts[i] == (PartialBlock {
            entry: Some(EntryRecord { time: s[i].entry_time, bay_id: s[i].bay_id, orient_idx: s[i].orient_idx, x: s[i].x, y: s[i].y }),
            exit: Some(ExitRecord { time: s[i].exit_time, bay_id: s[i].bay_id }),
        }),
        0 <= k <= s.len(),
    ensures
        assemble(parts.take(k)) == Ok::<Seq<ScheduledBlock>, LoadError>(s.take(k)),
    decreases k,
{
    if k == 0 {
        assert(parts.take(0) =~= Seq::<PartialBlock>::empty());
        assert(s.take(0) =~= Seq::<ScheduledBlock>::empty());
    } else {
        lemma_assemble_back(s, parts, n_bays, orient_counts, k - 1);
        assert(parts.take(k).drop_last() =~= parts.take(k - 1));
        assert(parts.take(k).last() == parts[k - 1]);
        assert(s[k - 1].block_id == k - 1);
        assert(s.take(k) =~= s.take(k - 1).push(s[k - 1]));
    }
}

/// Some placement of `s` is of block `i`.
pub open spec fn has_block(s: Seq<ScheduledBlock>, i: int) -> bool {
    exists|j: int| 0 <= j < s.len() && #[trigger] s[j].block_id == i
}

/// A schedule that lists each block of ids `0..orient_counts.len()` once,
/// in any order, in a bay and orientation that exist, leaving later than
/// it enters.
pub open spec fn loadable_any_order(s: Seq<ScheduledBlock>, n_bays: usize, orient_counts: Seq<usize>) -> bool {
    &&& s.len() == orient_counts.len()
    &&& forall|a: int, b: int| 0 <= a < b < s.len() ==> s[a].block_id != s[b].block_id
    &&& forall|i: int| 0 <= i < s.len() ==> #[trigger] has_block(s, i)
    &&& forall|j: int| #![trigger s[j]] 0 <= j < s.len() ==> {
        &&& s[j].block_id < s.len()
        &&& s[j].bay_id < n_bays
        &&& s[j].orient_idx < orient_counts[s[j].block_id as int]
        &&& s[j].entry_time < s[j].exit_time
    }
}

/// The placements of `s` listed by block id.
pub open spec fn by_block_id(s: Seq<ScheduledBlock>) -> Seq<ScheduledBlock> {
    Seq::new(s.len(), |i: int| s[choose|j: int| 0 <= j < s.len() && #[trigger] s[j].block_id == i])
}

/// Listing by block id a schedule that has each id once gives a loadable
/// schedule that holds each placement at the index of its block.
proof fn lemma_by_block_id(s: Seq<ScheduledBlock>, n_bays: usize, orient_counts: Seq<usize>)
    requires
        loadable_any_order(s, n_bays, orient_counts),
    ensures
        loadable(by_block_id(s), n_bays, orient_counts),
        forall|j: int| 0 <= j < s.len() ==> by_block_id(s)[(#[trigger] s[j]).block_id as int] == s[j],
{
    let u = by_block_id(s);
    assert forall|i: int| #![trigger u[i]] 0 <= i < u.len() implies {
        &&& u[i].block_id == i
        &&& u[i].bay_id < n_bays
        &&& u[i].orient_idx < orient_counts[i]
        &&& u[i].entry_time < u[i].exit_time
    } by {
        assert(has_block(s, i));
        let j = choose|j: int| 0 <= j < s.len() && #[trigger] s[j].block_id == i;
        assert(u[i] == s[j]);
    }
    assert forall|j: int| 0 <= j < s.len() implies by_block_id(s)[(#[trigger] s[j]).block_id as int] == s[j] by {
        let i = s[j].block_id as int;
        assert(exists|q: int| 0 <= q < s.len() && #[trigger] s[q].block_id == i) by {
            assert(s[j].block_id == i);
        }
        let q = choose|q: int| 0 <= q < s.len() && #[trigger] s[q].block_id == i;
        assert(u[i] == s[q]);
        if q != j {
            if q < j {
                assert(s[q].block_id != s[j].block_id);
            } else {
                assert(s[j].block_id != s[q].block_id);
            }
        }
    }
}

/// Reading back a solution written from a schedule that lists each block
/// once, in any order, gives the schedule listed by block id: each
/// placement comes back at the index of its block.
pub proof fn lemma_load_reads_back_any_order(sol: &Solution, s: Seq<ScheduledBlock>, n_bays: usize, orient_counts: Seq<usize>)
    requires
        solution_of(sol, s),
        loadable_any_order(s, n_bays, orient_counts),
    ensures
        schedule_of(spec_btree_map_iter(&sol.operations).remaining(), n_bays, orient_counts) == Ok::<Seq<ScheduledBlock>, LoadError>(by_block_id(s)),
        forall|j: int| 0 <= j < s.len() ==> by_block_id(s)[(#[trigger] s[j]).block_id as int] == s[j],
{
    broadcast use vstd::std_specs::btree::group_btree_axioms;
    lemma_by_block_id(s, n_bays, orient_counts);
    let u = by_block_id(s);
    let m = sol.operations@;
    let steps = spec_btree_map_iter(&sol.operations).remaining();
    assert(steps.len() == m.dom().len());
    assert(m.dom().finite());
    assert forall|k: i64| m.contains_key(k) implies exists|i: int| 0 <= i < steps.len() && *(#[trigger] steps[i]).0 == k by {
        assert(steps.contains((&k, &m[k])));
        let i = choose|i: int| 0 <= i < steps.len() && steps[i] == (&k, &m[k]);
        assert(*steps[i].0 == k);
    }
    assert forall|i: int| 0 <= i < steps.len() implies m.contains_key(*(#[trigger] steps[i]).0) && (*steps[i].1)@ == ops_at(s, *steps[i].0) by {
        assert(m.contains_key(*steps[i].0) && m[*steps[i].0] == *steps[i].1);
        assert(sol.operations@[*steps[i].0]@ == ops_at(s, *steps[i].0));
    }
    lemma_steps_keys_distinct(m, steps);
    assert forall|k: int| 0 <= k < steps.len() implies (#[trigger] steps[k]).1@.no_duplicates() by {
        lemma_ops_no_duplicates(s, *steps[k].0);
    }
    lemma_timed_ops_facts(steps);
    let ops = timed_ops(steps);
    assert forall|i: int| #![trigger ops[i]] 0 <= i < ops.len() implies exists|j: int|
        0 <= j < u.len() && (ops[i] == timed_entry(#[trigger] u[j]) || ops[i] == timed_exit(u[j])) by {
        let k = choose|k: int| #![trigger steps[k]] 0 <= k < steps.len() && ops[i].0 == *steps[k].0 && steps[k].1@.contains(ops[i].1);
        let t = *steps[k].0;
        let q = choose|q: int| 0 <= q < steps[k].1@.len() && steps[k].1@[q] == ops[i].1;
        lemma_ops_at_member(s, t, q);
        let j = choose|j: int| 0 <= j < s.len() && #[trigger] s[j] == s[j] && (
            (ops_at(s, t)[q] == exit_op(s[j]) && s[j].exit_time == t)
            || (ops_at(s, t)[q] == entry_op(s[j]) && s[j].entry_time == t));
        assert(ops[i] == timed_entry(s[j]) || ops[i] == timed_exit(s[j]));
        let b = s[j].block_id as int;
        assert(u[b] == s[j]);
    }
    assert forall|i: int| 0 <= i < u.len() implies ops.contains(timed_entry(#[trigger] u[i])) && ops.contains(timed_exit(u[i])) by {
        assert(has_block(s, i));
        let j = choose|j: int| 0 <= j < s.len() && #[trigger] s[j].block_id == i;
        assert(u[i] == s[j]);
        lemma_solution_lists_block(s, j);
        let te = s[j].entry_time;
        let tx = s[j].exit_time;
        assert(ops_at(s, te).len() > 0);
        assert(ops_at(s, tx).len() > 0);
        assert(sol.operations@.contains_key(te));
        assert(sol.operations@.contains_key(tx));
        let ke = choose|k: int| 0 <= k < steps.len() && *(#[trigger] steps[k]).0 == te;
        let kx = choose|k: int| 0 <= k < steps.len() && *(#[trigger] steps[k]).0 == tx;
        let qe = choose|q: int| 0 <= q < ops_at(s, te).len() && ops_at(s, te)[q] == entry_op(s[j]);
        let qx = choose|q: int| 0 <= q < ops_at(s, tx).len() && ops_at(s, tx)[q] == exit_op(s[j]);
        assert(steps[ke].1@[qe] == entry_op(s[j]));
        assert(steps[kx].1@[qx] == exit_op(s[j]));
    }
    lemma_read_back(u, ops, n_bays, orient_counts, ops.len() as int);
    assert(ops.take(ops.len() as int) =~= ops);
    let parts = read_prefix(u, ops, ops.len() as int);
    assert forall|i: int| #![trigger parts[i]] 0 <= i < u.len() implies parts[i] == (PartialBlock {
        entry: Some(EntryRecord { time: u[i].entry_time, bay_id: u[i].bay_id, orient_idx: u[i].orient_idx, x: u[i].x, y: u[i].y }),
        exit: Some(ExitRecord { time: u[i].exit_time, bay_id: u[i].bay_id }),
    }) by {
        assert(ops.contains(timed_entry(u[i])) && ops.contains(timed_exit(u[i])));
    }
    lemma_assemble_back(u, parts, n_bays, orient_counts, u.len() as int);
    assert(parts.take(u.len() as int) =~= parts);
    assert(u.take(u.len() as int) =~= u);
}

/// Reading back a solution written from a loadable schedule gives the
/// schedule: `load_schedule` undoes `schedule_to_solution`.
pub proof fn lemma_load_reads_back_schedule(sol: &Solution, s: Seq<ScheduledBlock>, n_bays: usize, orient_counts: Seq<usize>)
    requires
        solution_of(sol, s),
        loadable(s, n_bays, orient_counts),
    ensures
        schedule_of(spec_btree_map_iter(&sol.operations).remaining(), n_bays, orient_counts) == Ok::<Seq<ScheduledBlock>, LoadError>(s),
{
    assert forall|i: int| 0 <= i < s.len() implies #[trigger] has_block(s, i) by {
        assert(s[i].block_id == i);
    }
    assert(loadable_any_order(s, n_bays, orient_counts));
    lemma_load_reads_back_any_order(sol, s, n_bays, orient_counts);
    assert forall|i: int| 0 <= i < s.len() implies by_block_id(s)[i] == s[i] by {
        assert(s[i].block_id == i);
    }
    assert(by_block_id(s) =~= s);
}

} // verus!
