//! Entry-time windows of removed blocks under precedence constraints: a
//! block enters after its predecessors leave and leaves before its
//! successors enter. Predecessors that are themselves removed are placed
//! again first, so their exits are only known per partial state.
use vstd::prelude::*;

use crate::model::{coord_ok, placed_ok, Problem, ScheduledBlock};

verus! {

/// The window `[min, max]` of entry times of a block.
#[derive(Clone, Copy, Debug, PartialEq, Eq, Structural)]
pub struct EntryTimeBounds {
    pub min: i64,
    pub max: i64,
}

/// For each block, the blocks that must leave before it enters and those
/// that must enter after it leaves.
pub struct HeuristicPrecedence {
    pub predecessors: Vec<Vec<usize>>,
    pub successors: Vec<Vec<usize>>,
}

/// The windows of the removed blocks as far as the kept blocks fix them,
/// and, per block, the positions in the removal order of its removed
/// predecessors.
pub struct BeamPrecedenceContext {
    pub base_bounds: Vec<EntryTimeBounds>,
    pub removed_predecessor_positions: Vec<Vec<usize>>,
}

/// The last position of block `b` in `order`; -1 where it is absent.
pub open spec fn last_pos(order: Seq<usize>, b: int) -> int
    decreases order.len(),
{
    if order.len() == 0 {
        -1
    } else if order.last() == b {
        order.len() - 1
    } else {
        last_pos(order.drop_last(), b)
    }
}

/// The window of a block that nothing constrains but its release.
pub open spec fn open_bounds(release: i64) -> EntryTimeBounds {
    EntryTimeBounds { min: release, max: i64::MAX }
}

/// The latest exit of the kept predecessors among `preds`, no earlier
/// than `init`; `None` where a kept predecessor has no placement.
pub open spec fn pred_min(base: Seq<Option<ScheduledBlock>>, order: Seq<usize>, preds: Seq<usize>, init: i64) -> Option<i64>
    decreases preds.len(),
{
    if preds.len() == 0 {
        Some(init)
    } else {
        match pred_min(base, order, preds.drop_last(), init) {
            None => None,
            Some(m) => {
                let q = preds.last();
                if last_pos(order, q as int) >= 0 {
                    Some(m)
                } else {
                    match base[q as int] {
                        None => None,
                        Some(s) => Some(if m >= s.exit_time { m } else { s.exit_time }),
                    }
                }
            },
        }
    }
}

/// The earliest entry of the kept successors among `succs` less the
/// processing time, no later than `init`; `None` where a kept successor
/// has no placement.
pub open spec fn succ_max(base: Seq<Option<ScheduledBlock>>, order: Seq<usize>, succs: Seq<usize>, process_t: i64, init: i64) -> Option<i64>
    decreases succs.len(),
{
    if succs.len() == 0 {
        Some(init)
    } else {
        match succ_max(base, order, succs.drop_last(), process_t, init) {
            None => None,
            Some(m) => {
                let q = succs.last();
                if last_pos(order, q as int) >= 0 {
                    Some(m)
                } else {
                    match base[q as int] {
                        None => None,
                        Some(s) => Some(if m <= s.entry_time - process_t { m } else { (s.entry_time - process_t) as i64 }),
                    }
                }
            },
        }
    }
}

/// The positions in `order` of the removed predecessors among `preds`.
pub open spec fn removed_positions(order: Seq<usize>, preds: Seq<usize>) -> Seq<usize>
    decreases preds.len(),
{
    if preds.len() == 0 {
        Seq::empty()
    } else {
        let prev = removed_positions(order, preds.drop_last());
        let p = last_pos(order, preds.last() as int);
        if p >= 0 {
            prev.push(p as usize)
        } else {
            prev
        }
    }
}

/// The window of removed block `b`, or `None` where it is empty or a kept
/// neighbour has no placement.
pub open spec fn block_bounds(problem: &Problem, constraints: &HeuristicPrecedence, base: Seq<Option<ScheduledBlock>>, order: Seq<usize>, b: int) -> Option<EntryTimeBounds> {
    let block = problem.blocks@[b];
    match (
        pred_min(base, order, constraints.predecessors@[b]@, block.release_time),
        succ_max(base, order, constraints.successors@[b]@, block.processing_time, i64::MAX),
    ) {
        (Some(min), Some(max)) => if min > max { None } else { Some(EntryTimeBounds { min, max }) },
        _ => None,
    }
}

/// The removed-predecessor positions of `b` once for each time that `b`
/// occurs in `prefix`.
pub open spec fn repeated_positions(order: Seq<usize>, prefix: Seq<usize>, preds: Seq<usize>, b: int) -> Seq<usize>
    decreases prefix.len(),
{
    if prefix.len() == 0 {
        Seq::empty()
    } else {
        let prev = repeated_positions(order, prefix.drop_last(), preds, b);
        if prefix.last() == b {
            prev + removed_positions(order, preds)
        } else {
            prev
        }
    }
}

/// The inputs index what they name, times stay within the coordinate
/// limit, and removed predecessors come earlier in the removal order.
pub open spec fn context_inputs_ok(problem: &Problem, constraints: &HeuristicPrecedence, base: Seq<Option<ScheduledBlock>>, order: Seq<usize>) -> bool {
    let n = problem.blocks@.len();
    &&& constraints.predecessors@.len() == n
    &&& constraints.successors@.len() == n
    &&& base.len() == n
    &&& forall|p: int| 0 <= p < order.len() ==> (#[trigger] order[p]) < n
    &&& forall|b: int, k: int| 0 <= b < n && 0 <= k < constraints.predecessors@[b]@.len() ==> #[trigger] constraints.predecessors@[b]@[k] < n
    &&& forall|b: int, k: int| 0 <= b < n && 0 <= k < constraints.successors@[b]@.len() ==> #[trigger] constraints.successors@[b]@[k] < n
    &&& forall|b: int| 0 <= b < n ==> coord_ok((#[trigger] problem.blocks@[b]).release_time as int) && coord_ok(problem.blocks@[b].processing_time as int)
    &&& forall|b: int| 0 <= b < n && (#[trigger] base[b]) is Some ==> placed_ok(base[b].unwrap())
    &&& forall|p: int, k: int| 0 <= p < order.len() && 0 <= k < constraints.predecessors@[order[p] as int]@.len()
        && last_pos(order, constraints.predecessors@[order[p] as int]@[k] as int) >= 0
        ==> #[trigger] last_pos(order, constraints.predecessors@[order[p] as int]@[k] as int) < p
}

proof fn lemma_last_pos(order: Seq<usize>, b: int)
    ensures
        -1 <= last_pos(order, b) < order.len(),
        last_pos(order, b) >= 0 ==> order[last_pos(order, b)] == b,
    decreases order.len(),
{
    if order.len() > 0 && order.last() != b {
        lemma_last_pos(order.drop_last(), b);
    }
}

/// The latest exit of the kept predecessors, as `pred_min` says.
fn kept_pred_min(base: &[Option<ScheduledBlock>], removed: &Vec<Option<usize>>, preds: &Vec<usize>, init: i64, Ghost(order): Ghost<Seq<usize>>) -> (res: Option<i64>)
    requires
        base@.len() == removed@.len(),
        forall|k: int| 0 <= k < preds@.len() ==> #[trigger] preds@[k] < base@.len(),
        forall|q: int| 0 <= q < removed@.len() ==> (#[trigger] removed@[q] matches Some(p) ==> p == last_pos(order, q)) && (removed@[q] is None ==> last_pos(order, q) < 0),
    ensures
        res == pred_min(base@, order, preds@, init),
{
    let mut m = init;
    let mut i: usize = 0;
    while i < preds.len()
        invariant
            i <= preds@.len(),
            base@.len() == removed@.len(),
            forall|k: int| 0 <= k < preds@.len() ==> #[trigger] preds@[k] < base@.len(),
            forall|q: int| 0 <= q < removed@.len() ==> (#[trigger] removed@[q] matches Some(p) ==> p == last_pos(order, q)) && (removed@[q] is None ==> last_pos(order, q) < 0),
            pred_min(base@, order, preds@.take(i as int), init) == Some(m),
        decreases preds@.len() - i,
    {
        proof {
            assert(preds@.take(i + 1).drop_last() =~= preds@.take(i as int));
            assert(preds@.take(i + 1).last() == preds@[i as int]);
            lemma_last_pos(order, preds@[i as int] as int);
        }
        let q = preds[i];
        if removed[q].is_none() {
            match base[q] {
                None => {
                    proof {
                        lemma_pred_none_stays(base@, order, preds@, init, i as int + 1);
                    }
                    return None;
                },
                Some(s) => {
                    if s.exit_time > m {
                        m = s.exit_time;
                    }
                },
            }
        }
        i += 1;
    }
    proof {
        assert(preds@.take(preds@.len() as int) =~= preds@);
    }
    Some(m)
}

proof fn lemma_pred_none_stays(base: Seq<Option<ScheduledBlock>>, order: Seq<usize>, preds: Seq<usize>, init: i64, k: int)
    requires
        0 <= k <= preds.len(),
        pred_min(base, order, preds.take(k), init) is None,
    ensures
        pred_min(base, order, preds, init) is None,
    decreases preds.len() - k,
{
    if k < preds.len() {
        assert(preds.take(k + 1).drop_last() =~= preds.take(k));
        lemma_pred_none_stays(base, order, preds, init, k + 1);
    } else {
        assert(preds.take(k) =~= preds);
    }
}

proof fn lemma_succ_none_stays(base: Seq<Option<ScheduledBlock>>, order: Seq<usize>, succs: Seq<usize>, process_t: i64, init: i64, k: int)
    requires
        0 <= k <= succs.len(),
        succ_max(base, order, succs.take(k), process_t, init) is None,
    ensures
        succ_max(base, order, succs, process_t, init) is None,
    decreases succs.len() - k,
{
    if k < succs.len() {
        assert(succs.take(k + 1).drop_last() =~= succs.take(k));
        lemma_succ_none_stays(base, order, succs, process_t, init, k + 1);
    } else {
        assert(succs.take(k) =~= succs);
    }
}

/// The earliest entry of the kept successors less the processing time, as
/// `succ_max` says.
fn kept_succ_max(base: &[Option<ScheduledBlock>], removed: &Vec<Option<usize>>, succs: &Vec<usize>, process_t: i64, Ghost(order): Ghost<Seq<usize>>) -> (res: Option<i64>)
    requires
        base@.len() == removed@.len(),
        coord_ok(process_t as int),
        forall|k: int| 0 <= k < succs@.len() ==> #[trigger] succs@[k] < base@.len(),
        forall|q: int| 0 <= q < base@.len() && (#[trigger] base@[q]) is Some ==> placed_ok(base@[q].unwrap()),
        forall|q: int| 0 <= q < removed@.len() ==> (#[trigger] removed@[q] matches Some(p) ==> p == last_pos(order, q)) && (removed@[q] is None ==> last_pos(order, q) < 0),
    ensures
        res == succ_max(base@, order, succs@, process_t, i64::MAX),
{
    let mut m = i64::MAX;
    let mut i: usize = 0;
    while i < succs.len()
        invariant
            i <= succs@.len(),
            base@.len() == removed@.len(),
            coord_ok(process_t as int),
            forall|k: int| 0 <= k < succs@.len() ==> #[trigger] succs@[k] < base@.len(),
            forall|q: int| 0 <= q < base@.len() && (#[trigger] base@[q]) is Some ==> placed_ok(base@[q].unwrap()),
            forall|q: int| 0 <= q < removed@.len() ==> (#[trigger] removed@[q] matches Some(p) ==> p == last_pos(order, q)) && (removed@[q] is None ==> last_pos(order, q) < 0),
            succ_max(base@, order, succs@.take(i as int), process_t, i64::MAX) == Some(m),
        decreases succs@.len() - i,
    {
        proof {
            assert(succs@.take(i + 1).drop_last() =~= succs@.take(i as int));
            assert(succs@.take(i + 1).last() == succs@[i as int]);
            lemma_last_pos(order, succs@[i as int] as int);
        }
        let q = succs[i];
        if removed[q].is_none() {
            match base[q] {
                None => {
                    proof {
                        lemma_succ_none_stays(base@, order, succs@, process_t, i64::MAX, i as int + 1);
                    }
                    return None;
                },
                Some(s) => {
                    proof {
                        assert(base@[q as int] is Some);
                    }
                    let limit = s.entry_time - process_t;
                    if limit < m {
                        m = limit;
                    }
                },
            }
        }
        i += 1;
    }
    proof {
        assert(succs@.take(succs@.len() as int) =~= succs@);
    }
    Some(m)
}

/// The positions of the removed predecessors, as `removed_positions` says.
fn removed_pred_positions(removed: &Vec<Option<usize>>, preds: &Vec<usize>, Ghost(order): Ghost<Seq<usize>>) -> (res: Vec<usize>)
    requires
        forall|k: int| 0 <= k < preds@.len() ==> #[trigger] preds@[k] < removed@.len(),
        forall|q: int| 0 <= q < removed@.len() ==> (#[trigger] removed@[q] matches Some(p) ==> p == last_pos(order, q)) && (removed@[q] is None ==> last_pos(order, q) < 0),
    ensures
        res@ == removed_positions(order, preds@),
{
    let mut out: Vec<usize> = Vec::new();
    let mut i: usize = 0;
    while i < preds.len()
        invariant
            i <= preds@.len(),
            forall|k: int| 0 <= k < preds@.len() ==> #[trigger] preds@[k] < removed@.len(),
            forall|q: int| 0 <= q < removed@.len() ==> (#[trigger] removed@[q] matches Some(p) ==> p == last_pos(order, q)) && (removed@[q] is None ==> last_pos(order, q) < 0),
            out@ == removed_positions(order, preds@.take(i as int)),
        decreases preds@.len() - i,
    {
        proof {
            assert(preds@.take(i + 1).drop_last() =~= preds@.take(i as int));
            assert(preds@.take(i + 1).last() == preds@[i as int]);
        }
        if let Some(p) = removed[preds[i]] {
            out.push(p);
        }
        i += 1;
    }
    proof {
        assert(preds@.take(preds@.len() as int) =~= preds@);
    }
    out
}

/// `a` followed by `b`.
fn concat(a: &Vec<usize>, b: &Vec<usize>) -> (res: Vec<usize>)
    ensures
        res@ == a@ + b@,
{
    let mut out: Vec<usize> = Vec::new();
    let mut i: usize = 0;
    while i < a.len()
        invariant
            i <= a@.len(),
            out@ == a@.take(i as int),
        decreases a@.len() - i,
    {
        out.push(a[i]);
        proof {
            assert(out@ =~= a@.take(i + 1));
        }
        i += 1;
    }
    let mut j: usize = 0;
    while j < b.len()
        invariant
            j <= b@.len(),
            out@ == a@ + b@.take(j as int),
        decreases b@.len() - j,
    {
        out.push(b[j]);
        proof {
            assert(out@ =~= a@ + b@.take(j + 1));
        }
        j += 1;
    }
    proof {
        assert(a@.take(a@.len() as int) =~= a@);
        assert(b@.take(b@.len() as int) =~= b@);
    }
    out
}

proof fn lemma_last_pos_step(order: Seq<usize>, p: int, q: int)
    requires
        0 <= p < order.len(),
    ensures
        last_pos(order.take(p + 1), q) == if order[p] == q { p } else { last_pos(order.take(p), q) },
{
    assert(order.take(p + 1).drop_last() =~= order.take(p));
    assert(order.take(p + 1).last() == order[p]);
}

/// The windows of the removed blocks in `order` as the kept blocks fix
/// them, and the positions of their removed predecessors; `None` where a
/// window is empty or a kept neighbour of a removed block has no
/// placement.
pub fn build_beam_precedence_context(
    problem: &Problem,
    constraints: &HeuristicPrecedence,
    base_by_id: &[Option<ScheduledBlock>],
    order: &[usize],
) -> (res: Option<BeamPrecedenceContext>)
    requires
        context_inputs_ok(problem, constraints, base_by_id@, order@),
    ensures
        res is None <==> exists|p: int| 0 <= p < order@.len()
            && block_bounds(problem, constraints, base_by_id@, order@, #[trigger] order@[p] as int) is None,
        res matches Some(ctx) ==> {
            &&& ctx.base_bounds@.len() == problem.blocks@.len()
            &&& ctx.removed_predecessor_positions@.len() == problem.blocks@.len()
            &&& forall|b: int| 0 <= b < problem.blocks@.len() ==> (#[trigger] ctx.base_bounds@[b]) == if last_pos(order@, b) >= 0 {
                block_bounds(problem, constraints, base_by_id@, order@, b).unwrap()
            } else {
                open_bounds(problem.blocks@[b].release_time)
            }
            &&& forall|b: int| 0 <= b < problem.blocks@.len() ==> (#[trigger] ctx.removed_predecessor_positions@[b])@
                == repeated_positions(order@, order@, constraints.predecessors@[b]@, b)
        },
{
    let n = problem.blocks.len();
    let ghost ord = order@;
    let ghost base = base_by_id@;
    let mut removed: Vec<Option<usize>> = Vec::new();
    let mut i: usize = 0;
    while i < n
        invariant
            i <= n,
            removed@.len() == i,
            forall|q: int| 0 <= q < i ==> #[trigger] removed@[q] is None,
        decreases n - i,
    {
        removed.push(None);
        i += 1;
    }
    let mut p: usize = 0;
    while p < order.len()
        invariant
            p <= ord.len(),
            ord == order@,
            n == problem.blocks@.len(),
            removed@.len() == n,
            forall|k: int| 0 <= k < ord.len() ==> (#[trigger] ord[k]) < n,
            forall|q: int| 0 <= q < n ==> (#[trigger] removed@[q] matches Some(pp) ==> pp == last_pos(ord.take(p as int), q))
                && (removed@[q] is None ==> last_pos(ord.take(p as int), q) < 0),
        decreases ord.len() - p,
    {
        let b = order[p];
        proof {
            assert forall|q: int| 0 <= q < n implies last_pos(ord.take(p + 1), q) == if ord[p as int] == q { p as int } else { last_pos(ord.take(p as int), q) } by {
                lemma_last_pos_step(ord, p as int, q);
            }
        }
        removed.set(b, Some(p));
        p += 1;
    }
    proof {
        assert(ord.take(ord.len() as int) =~= ord);
    }
    let mut base_bounds: Vec<EntryTimeBounds> = Vec::new();
    let mut positions: Vec<Vec<usize>> = Vec::new();
    let mut k: usize = 0;
    while k < n
        invariant
            k <= n,
            n == problem.blocks@.len(),
            base_bounds@.len() == k,
            positions@.len() == k,
            forall|q: int| 0 <= q < k ==> #[trigger] base_bounds@[q] == open_bounds(problem.blocks@[q].release_time),
            forall|q: int| 0 <= q < k ==> (#[trigger] positions@[q])@ == Seq::<usize>::empty(),
        decreases n - k,
    {
        base_bounds.push(EntryTimeBounds { min: problem.blocks[k].release_time, max: i64::MAX });
        positions.push(Vec::new());
        k += 1;
    }
    let mut p: usize = 0;
    while p < order.len()
        invariant
            p <= ord.len(),
            ord == order@,
            base == base_by_id@,
            n == problem.blocks@.len(),
            context_inputs_ok(problem, constraints, base, ord),
            removed@.len() == n,
            forall|q: int| 0 <= q < n ==> (#[trigger] removed@[q] matches Some(pp) ==> pp == last_pos(ord, q))
                && (removed@[q] is None ==> last_pos(ord, q) < 0),
            base_bounds@.len() == n,
            positions@.len() == n,
            forall|pp: int| 0 <= pp < p ==> block_bounds(problem, constraints, base, ord, #[trigger] ord[pp] as int) is Some,
            forall|q: int| 0 <= q < n ==> (#[trigger] base_bounds@[q]) == if last_pos(ord.take(p as int), q) >= 0 {
                block_bounds(problem, constraints, base, ord, q).unwrap()
            } else {
                open_bounds(problem.blocks@[q].release_time)
            },
            forall|q: int| 0 <= q < n ==> (#[trigger] positions@[q])@ == repeated_positions(ord, ord.take(p as int), constraints.predecessors@[q]@, q),
        decreases ord.len() - p,
    {
        let b = order[p];
        proof {
            assert(ord[p as int] == b);
            assert(problem.blocks@[b as int] == problem.blocks@[b as int]);
        }
        let preds = &constraints.predecessors[b];
        let succs = &constraints.successors[b];
        let block = &problem.blocks[b];
        proof {
            assert forall|kk: int| 0 <= kk < preds@.len() implies #[trigger] preds@[kk] < base_by_id@.len() by {
                assert(constraints.predecessors@[b as int]@[kk] < n);
            }
            assert forall|kk: int| 0 <= kk < succs@.len() implies #[trigger] succs@[kk] < base_by_id@.len() by {
                assert(constraints.successors@[b as int]@[kk] < n);
            }
        }
        let min = kept_pred_min(base_by_id, &removed, preds, block.release_time, Ghost(ord));
        let min = match min {
            Some(v) => v,
            None => {
                return None;
            },
        };
        let max = kept_succ_max(base_by_id, &removed, succs, block.processing_time, Ghost(ord));
        let max = match max {
            Some(v) => v,
            None => {
                return None;
            },
        };
        if min > max {
            return None;
        }
        let found = removed_pred_positions(&removed, preds, Ghost(ord));
        let joined = concat(&positions[b], &found);
        positions.set(b, joined);
        base_bounds.set(b, EntryTimeBounds { min, max });
        proof {
            assert forall|q: int| 0 <= q < n implies last_pos(ord.take(p + 1), q) == if ord[p as int] == q { p as int } else { last_pos(ord.take(p as int), q) } by {
                lemma_last_pos_step(ord, p as int, q);
            }
            assert forall|q: int| 0 <= q < n implies (#[trigger] positions@[q])@ == repeated_positions(ord, ord.take(p + 1), constraints.predecessors@[q]@, q) by {
                assert(ord.take(p + 1).drop_last() =~= ord.take(p as int));
                assert(ord.take(p + 1).last() == ord[p as int]);
            }
        }
        p += 1;
    }
    proof {
        assert(ord.take(ord.len() as int) =~= ord);
    }
    Some(BeamPrecedenceContext { base_bounds, removed_predecessor_positions: positions })
}

/// The latest of `min` and the exits of the placements at `positions`;
/// `None` where a position lies beyond `added`.
pub open spec fn narrowed_min(min: i64, positions: Seq<usize>, added: Seq<ScheduledBlock>) -> Option<i64>
    decreases positions.len(),
{
    if positions.len() == 0 {
        Some(min)
    } else {
        match narrowed_min(min, positions.drop_last(), added) {
            None => None,
            Some(m) => {
                let pos = positions.last() as int;
                if pos < added.len() {
                    Some(if m >= added[pos].exit_time { m } else { added[pos].exit_time })
                } else {
                    None
                }
            },
        }
    }
}

/// Narrowing succeeds exactly when every position lies within `added`,
/// and then gives the latest of `min` and the exits at those positions: no
/// earlier than any of them, and equal to one of them.
pub proof fn lemma_narrowed_min_is_latest_exit(min: i64, positions: Seq<usize>, added: Seq<ScheduledBlock>)
    ensures
        narrowed_min(min, positions, added) is Some <==> forall|k: int| 0 <= k < positions.len() ==> (#[trigger] positions[k] as int) < added.len(),
        narrowed_min(min, positions, added) matches Some(m) ==> {
            &&& min <= m
            &&& forall|k: int| 0 <= k < positions.len() ==> added[#[trigger] positions[k] as int].exit_time <= m
            &&& (m == min || exists|k: int| 0 <= k < positions.len() && m == added[#[trigger] positions[k] as int].exit_time)
        },
    decreases positions.len(),
{
    if positions.len() > 0 {
        let pre = positions.drop_last();
        lemma_narrowed_min_is_latest_exit(min, pre, added);
        let n = positions.len() - 1;
        assert forall|k: int| 0 <= k < pre.len() implies #[trigger] pre[k] == positions[k] by {}
        if narrowed_min(min, positions, added) is Some {
            assert forall|k: int| 0 <= k < positions.len() implies (#[trigger] positions[k] as int) < added.len() by {
                if k < n {
                    assert(pre[k] == positions[k]);
                }
            }
        }
        if forall|k: int| 0 <= k < positions.len() ==> (#[trigger] positions[k] as int) < added.len() {
            assert forall|k: int| 0 <= k < pre.len() implies (#[trigger] pre[k] as int) < added.len() by {
                assert(pre[k] == positions[k]);
            }
            assert((positions[n] as int) < added.len());
        }
        if let Some(m) = narrowed_min(min, positions, added) {
            let m0 = narrowed_min(min, pre, added).unwrap();
            assert forall|k: int| 0 <= k < positions.len() implies added[#[trigger] positions[k] as int].exit_time <= m by {
                if k < n {
                    assert(pre[k] == positions[k]);
                    assert(added[pre[k] as int].exit_time <= m0);
                }
            }
            if m != min && m != m0 {
                assert(m == added[positions[n] as int].exit_time);
            } else if m != min {
                let k = choose|k: int| 0 <= k < pre.len() && m0 == added[#[trigger] pre[k] as int].exit_time;
                assert(pre[k] == positions[k]);
                assert(m == added[positions[k] as int].exit_time);
            }
        }
    }
}

proof fn lemma_narrowed_none_stays(min: i64, positions: Seq<usize>, added: Seq<ScheduledBlock>, k: int)
    requires
        0 <= k <= positions.len(),
        narrowed_min(min, positions.take(k), added) is None,
    ensures
        narrowed_min(min, positions, added) is None,
    decreases positions.len() - k,
{
    if k < positions.len() {
        assert(positions.take(k + 1).drop_last() =~= positions.take(k));
        lemma_narrowed_none_stays(min, positions, added, k + 1);
    } else {
        assert(positions.take(k) =~= positions);
    }
}

/// The entry-time window of `block_id` once the blocks placed so far are
/// `added`: without a context, from its release on; with one, its window
/// narrowed by the exits of its removed predecessors, which must have been
/// placed already.
pub fn entry_time_bounds_for_state(
    problem: &Problem,
    context: Option<&BeamPrecedenceContext>,
    added: &[ScheduledBlock],
    block_id: usize,
) -> (res: Option<EntryTimeBounds>)
    requires
        block_id < problem.blocks@.len(),
        context matches Some(ctx) ==> block_id < ctx.base_bounds@.len() && block_id < ctx.removed_predecessor_positions@.len(),
    ensures
        res == match context {
            None => Some(open_bounds(problem.blocks@[block_id as int].release_time)),
            Some(ctx) => match narrowed_min(ctx.base_bounds@[block_id as int].min, ctx.removed_predecessor_positions@[block_id as int]@, added@) {
                None => None,
                Some(m) => if m <= ctx.base_bounds@[block_id as int].max {
                    Some(EntryTimeBounds { min: m, max: ctx.base_bounds@[block_id as int].max })
                } else {
                    None
                },
            },
        },
        context matches Some(ctx) ==> {
            let base = ctx.base_bounds@[block_id as int];
            let positions = ctx.removed_predecessor_positions@[block_id as int]@;
            res matches Some(w) ==> {
                &&& base.min <= w.min <= w.max
                &&& w.max == base.max
                &&& forall|k: int| 0 <= k < positions.len() ==> (#[trigger] positions[k] as int) < added@.len()
                    && w.min >= added@[positions[k] as int].exit_time
                &&& (w.min == base.min || exists|k: int| 0 <= k < positions.len() && w.min == added@[#[trigger] positions[k] as int].exit_time)
            }
        },
{
    let ctx = match context {
        None => {
            return Some(EntryTimeBounds { min: problem.blocks[block_id].release_time, max: i64::MAX });
        },
        Some(c) => c,
    };
    let bounds = ctx.base_bounds[block_id];
    let positions = &ctx.removed_predecessor_positions[block_id];
    let mut min = bounds.min;
    let mut i: usize = 0;
    while i < positions.len()
        invariant
            i <= positions@.len(),
            context == Some(ctx),
            block_id < ctx.base_bounds@.len(),
            block_id < ctx.removed_predecessor_positions@.len(),
            bounds == ctx.base_bounds@[block_id as int],
            positions@ == ctx.removed_predecessor_positions@[block_id as int]@,
            narrowed_min(bounds.min, positions@.take(i as int), added@) == Some(min),
        decreases positions@.len() - i,
    {
        proof {
            assert(positions@.take(i + 1).drop_last() =~= positions@.take(i as int));
            assert(positions@.take(i + 1).last() == positions@[i as int]);
        }
        let pos = positions[i];
        if pos >= added.len() {
            proof {
                lemma_narrowed_none_stays(bounds.min, positions@, added@, i + 1);
            }
            return None;
        }
        let exit = added[pos].exit_time;
        if exit > min {
            min = exit;
        }
        i += 1;
    }
    proof {
        assert(positions@.take(positions@.len() as int) =~= positions@);
        lemma_narrowed_min_is_latest_exit(bounds.min, positions@, added@);
    }
    if min <= bounds.max {
        Some(EntryTimeBounds { min, max: bounds.max })
    } else {
        None
    }
}

proof fn lemma_pred_min_bound(base: Seq<Option<ScheduledBlock>>, order: Seq<usize>, preds: Seq<usize>, init: i64, m: i64)
    requires
        pred_min(base, order, preds, init) == Some(m),
    ensures
        init <= m,
        forall|k: int| 0 <= k < preds.len() && last_pos(order, preds[k] as int) < 0 ==>
            (#[trigger] base[preds[k] as int]) is Some && base[preds[k] as int].unwrap().exit_time <= m,
    decreases preds.len(),
{
    if preds.len() > 0 {
        let p = preds.drop_last();
        let m0 = pred_min(base, order, p, init).unwrap();
        lemma_pred_min_bound(base, order, p, init, m0);
        assert forall|k: int| 0 <= k < preds.len() && last_pos(order, preds[k] as int) < 0 implies
            (#[trigger] base[preds[k] as int]) is Some && base[preds[k] as int].unwrap().exit_time <= m by {
            if k < p.len() {
                assert(preds[k] == p[k]);
            }
        }
    }
}

proof fn lemma_succ_max_bound(base: Seq<Option<ScheduledBlock>>, order: Seq<usize>, succs: Seq<usize>, process_t: i64, init: i64, m: i64)
    requires
        succ_max(base, order, succs, process_t, init) == Some(m),
        forall|k: int| 0 <= k < succs.len() && (#[trigger] base[succs[k] as int]) is Some ==>
            i64::MIN <= base[succs[k] as int].unwrap().entry_time - process_t <= i64::MAX,
    ensures
        m <= init,
        forall|k: int| 0 <= k < succs.len() && last_pos(order, succs[k] as int) < 0 ==>
            (#[trigger] base[succs[k] as int]) is Some && m + process_t <= base[succs[k] as int].unwrap().entry_time,
    decreases succs.len(),
{
    if succs.len() > 0 {
        let p = succs.drop_last();
        let m0 = succ_max(base, order, p, process_t, init).unwrap();
        lemma_succ_max_bound(base, order, p, process_t, init, m0);
        assert forall|k: int| 0 <= k < succs.len() && last_pos(order, succs[k] as int) < 0 implies
            (#[trigger] base[succs[k] as int]) is Some && m + process_t <= base[succs[k] as int].unwrap().entry_time by {
            if k < p.len() {
                assert(succs[k] == p[k]);
            }
        }
        assert(forall|k: int| 0 <= k < p.len() && (#[trigger] base[p[k] as int]) is Some ==>
            i64::MIN <= base[p[k] as int].unwrap().entry_time - process_t <= i64::MAX) by {
            assert forall|k: int| 0 <= k < p.len() && (#[trigger] base[p[k] as int]) is Some implies
                i64::MIN <= base[p[k] as int].unwrap().entry_time - process_t <= i64::MAX by {
                assert(succs[k] == p[k]);
            }
        }
    }
}

/// A removed block that enters within its window enters no earlier than
/// its release and than every kept predecessor leaves, and leaves no later
/// than every kept successor enters.
pub proof fn lemma_window_respects_kept_neighbours(
    problem: &Problem,
    constraints: &HeuristicPrecedence,
    base: Seq<Option<ScheduledBlock>>,
    order: Seq<usize>,
    b: int,
    entry_time: int,
)
    requires
        context_inputs_ok(problem, constraints, base, order),
        0 <= b < problem.blocks@.len(),
        block_bounds(problem, constraints, base, order, b) matches Some(w) && w.min <= entry_time <= w.max,
    ensures
        problem.blocks@[b].release_time <= entry_time,
        forall|k: int| 0 <= k < constraints.predecessors@[b]@.len() && last_pos(order, constraints.predecessors@[b]@[k] as int) < 0 ==>
            (#[trigger] base[constraints.predecessors@[b]@[k] as int]) is Some
            && base[constraints.predecessors@[b]@[k] as int].unwrap().exit_time <= entry_time,
        forall|k: int| 0 <= k < constraints.successors@[b]@.len() && last_pos(order, constraints.successors@[b]@[k] as int) < 0 ==>
            (#[trigger] base[constraints.successors@[b]@[k] as int]) is Some
            && entry_time + problem.blocks@[b].processing_time <= base[constraints.successors@[b]@[k] as int].unwrap().entry_time,
{
    let block = problem.blocks@[b];
    let min = pred_min(base, order, constraints.predecessors@[b]@, block.release_time).unwrap();
    let max = succ_max(base, order, constraints.successors@[b]@, block.processing_time, i64::MAX).unwrap();
    lemma_pred_min_bound(base, order, constraints.predecessors@[b]@, block.release_time, min);
    let succs = constraints.successors@[b]@;
    assert forall|k: int| 0 <= k < succs.len() && (#[trigger] base[succs[k] as int]) is Some implies
        i64::MIN <= base[succs[k] as int].unwrap().entry_time - block.processing_time <= i64::MAX by {
        assert(succs[k] < problem.blocks@.len());
        assert(placed_ok(base[succs[k] as int].unwrap()));
    }
    lemma_succ_max_bound(base, order, succs, block.processing_time, i64::MAX, max);
}

} // verus!
