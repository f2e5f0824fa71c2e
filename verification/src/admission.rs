//! The order in which blocks are admitted into the rolling construction:
//! by the entry time that the pre-optimization gave them, then due date,
//! then id.
use vstd::prelude::*;

use std::cmp::Ordering;

use crate::model::Problem;

verus! {

/// The bay and entry time that the pre-optimization chose for a block.
#[derive(Clone, Copy, Debug, PartialEq, Eq, Structural)]
pub struct PreoptimizedBlock {
    pub bay_id: usize,
    pub entry_time: i64,
}

/// Block `a` is admitted before block `b`.
pub open spec fn admitted_before(problem: &Problem, preopt: Seq<PreoptimizedBlock>, a: usize, b: usize) -> bool {
    let ta = preopt[a as int].entry_time;
    let tb = preopt[b as int].entry_time;
    let da = problem.blocks@[a as int].due_date;
    let db = problem.blocks@[b as int].due_date;
    ta < tb || (ta == tb && (da < db || (da == db && a < b)))
}

/// Compares two blocks by admission order.
pub fn admission_order(problem: &Problem, preopt: &[PreoptimizedBlock], a: usize, b: usize) -> (res: Ordering)
    requires
        a < problem.blocks@.len(),
        b < problem.blocks@.len(),
        a < preopt@.len(),
        b < preopt@.len(),
    ensures
        (res == Ordering::Less) == admitted_before(problem, preopt@, a, b),
        (res == Ordering::Greater) == admitted_before(problem, preopt@, b, a),
        (res == Ordering::Equal) == (a == b),
{
    let ta = preopt[a].entry_time;
    let tb = preopt[b].entry_time;
    if ta != tb {
        return if ta < tb { Ordering::Less } else { Ordering::Greater };
    }
    let da = problem.blocks[a].due_date;
    let db = problem.blocks[b].due_date;
    if da != db {
        return if da < db { Ordering::Less } else { Ordering::Greater };
    }
    if a < b {
        Ordering::Less
    } else if b < a {
        Ordering::Greater
    } else {
        Ordering::Equal
    }
}

/// Sorts block ids by admission order (`slice::sort_unstable_by` with
/// `admission_order`, a total order on the ids of the problem's blocks).
#[verifier::external_body]
fn sort_by_admission(order: &mut Vec<usize>, problem: &Problem, preopt: &[PreoptimizedBlock])
    requires
        forall|i: int| 0 <= i < old(order)@.len() ==> #[trigger] old(order)@[i] < problem.blocks@.len() && old(order)@[i] < preopt@.len(),
    ensures
        final(order)@.to_multiset() == old(order)@.to_multiset(),
        final(order)@.len() == old(order)@.len(),
        forall|i: int, j: int| 0 <= i < j < final(order)@.len() ==> !admitted_before(problem, preopt@, final(order)@[j], final(order)@[i]),
{
    order.sort_unstable_by(|a, b| admission_order(problem, preopt, *a, *b));
}

/// The ids of all blocks in admission order.
pub fn build_admission_order(problem: &Problem, preopt: &[PreoptimizedBlock]) -> (res: Vec<usize>)
    requires
        preopt@.len() >= problem.blocks@.len(),
    ensures
        res@.len() == problem.blocks@.len(),
        res@.to_multiset() == Seq::new(problem.blocks@.len(), |i: int| i as usize).to_multiset(),
        forall|i: int, j: int| 0 <= i < j < res@.len() ==> admitted_before(problem, preopt@, res@[i], res@[j]),
{
    let n = problem.blocks.len();
    let mut order: Vec<usize> = Vec::new();
    let mut i: usize = 0;
    while i < n
        invariant
            i <= n,
            n == problem.blocks@.len(),
            order@ == Seq::new(i as nat, |k: int| k as usize),
        decreases n - i,
    {
        order.push(i);
        proof {
            assert(order@ =~= Seq::new((i + 1) as nat, |k: int| k as usize));
        }
        i += 1;
    }
    let ghost initial = order@;
    sort_by_admission(&mut order, problem, preopt);
    proof {
        broadcast use vstd::seq_lib::group_to_multiset_ensures;
        let o = order@;
        assert forall|k: int| 0 <= k < o.len() implies o[k] < n by {
            assert(o.to_multiset().count(o[k]) > 0);
            assert(initial.to_multiset().count(o[k]) > 0);
            assert(initial.contains(o[k]));
        }
        assert forall|a: int, b: int| 0 <= a < b < o.len() implies admitted_before(problem, preopt@, o[a], o[b]) by {
            assert(!admitted_before(problem, preopt@, o[b], o[a]));
            if o[a] == o[b] {
                initial.lemma_multiset_has_no_duplicates();
                o.lemma_multiset_has_no_duplicates_conv();
            }
        }
    }
    order
}

} // verus!
