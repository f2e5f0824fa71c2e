//! Per-block tables derived from the bay preferences: the penalty of each
//! bay, the spread of the preferences and the bays in order of preference.
use vstd::prelude::*;

use std::cmp::Ordering;

use crate::model::Problem;
use crate::solver_util::{seq_max, seq_min};

verus! {

/// The spread of every block's preferences fits in `i64`.
pub open spec fn prefs_ok(problem: &Problem) -> bool {
    forall|b: int| 0 <= b < problem.blocks@.len() && (#[trigger] problem.blocks@[b]).bay_preferences@.len() > 0
        ==> seq_max(problem.blocks@[b].bay_preferences@) - seq_min(problem.blocks@[b].bay_preferences@) <= i64::MAX
}

proof fn lemma_extrema_bounds(s: Seq<i64>)
    requires
        s.len() > 0,
    ensures
        forall|k: int| 0 <= k < s.len() ==> seq_min(s) <= #[trigger] s[k] <= seq_max(s),
        exists|k: int| 0 <= k < s.len() && #[trigger] s[k] == seq_max(s),
        exists|k: int| 0 <= k < s.len() && #[trigger] s[k] == seq_min(s),
    decreases s.len(),
{
    if s.len() > 1 {
        lemma_extrema_bounds(s.drop_last());
        let p = s.drop_last();
        assert forall|k: int| 0 <= k < s.len() implies seq_min(s) <= #[trigger] s[k] <= seq_max(s) by {
            if k < p.len() {
                assert(s[k] == p[k]);
            }
        }
        let a = choose|k: int| 0 <= k < p.len() && #[trigger] p[k] == seq_max(p);
        let c = choose|k: int| 0 <= k < p.len() && #[trigger] p[k] == seq_min(p);
        assert(s[a] == p[a]);
        assert(s[c] == p[c]);
        assert(s[s.len() - 1] == s.last());
    } else {
        assert(s[0] == seq_max(s));
    }
}

/// The largest preference of a block; zero without preferences.
fn max_preference(prefs: &Vec<i64>) -> (res: i64)
    ensures
        res == if prefs@.len() == 0 { 0 } else { seq_max(prefs@) },
{
    if prefs.len() == 0 {
        return 0;
    }
    let mut best = prefs[0];
    let mut i: usize = 1;
    while i < prefs.len()
        invariant
            1 <= i <= prefs@.len(),
            best == seq_max(prefs@.take(i as int)),
        decreases prefs@.len() - i,
    {
        proof {
            assert(prefs@.take(i as int + 1).drop_last() =~= prefs@.take(i as int));
        }
        if prefs[i] > best {
            best = prefs[i];
        }
        i += 1;
    }
    proof {
        assert(prefs@.take(prefs@.len() as int) =~= prefs@);
    }
    best
}

/// For each block and bay, how far the bay's preference falls short of
/// the block's best preference.
pub fn build_pref_penalty(problem: &Problem) -> (res: Vec<Vec<i64>>)
    requires
        prefs_ok(problem),
    ensures
        res@.len() == problem.blocks@.len(),
        forall|b: int| 0 <= b < res@.len() ==> (#[trigger] res@[b])@.len() == problem.blocks@[b].bay_preferences@.len(),
        forall|b: int, k: int| 0 <= b < res@.len() && 0 <= k < res@[b]@.len() ==>
            #[trigger] res@[b]@[k] == seq_max(problem.blocks@[b].bay_preferences@) - problem.blocks@[b].bay_preferences@[k],
{
    let mut res: Vec<Vec<i64>> = Vec::new();
    let mut b: usize = 0;
    while b < problem.blocks.len()
        invariant
            b <= problem.blocks@.len(),
            prefs_ok(problem),
            res@.len() == b,
            forall|q: int| 0 <= q < b ==> (#[trigger] res@[q])@.len() == problem.blocks@[q].bay_preferences@.len(),
            forall|q: int, k: int| 0 <= q < b && 0 <= k < res@[q]@.len() ==>
                #[trigger] res@[q]@[k] == seq_max(problem.blocks@[q].bay_preferences@) - problem.blocks@[q].bay_preferences@[k],
        decreases problem.blocks@.len() - b,
    {
        let prefs = &problem.blocks[b].bay_preferences;
        let best = max_preference(prefs);
        proof {
            if prefs@.len() > 0 {
                lemma_extrema_bounds(prefs@);
                assert(problem.blocks@[b as int].bay_preferences@.len() > 0);
            }
        }
        let mut row: Vec<i64> = Vec::new();
        let mut k: usize = 0;
        while k < prefs.len()
            invariant
                k <= prefs@.len(),
                prefs@ == problem.blocks@[b as int].bay_preferences@,
                prefs_ok(problem),
                b < problem.blocks@.len(),
                prefs@.len() > 0 ==> best == seq_max(prefs@),
                prefs@.len() > 0 ==> best - seq_min(prefs@) <= i64::MAX,
                forall|q: int| 0 <= q < prefs@.len() ==> seq_min(prefs@) <= #[trigger] prefs@[q] <= seq_max(prefs@),
                row@.len() == k,
                forall|q: int| 0 <= q < k ==> #[trigger] row@[q] == best - prefs@[q],
            decreases prefs@.len() - k,
        {
            row.push(best - prefs[k]);
            k += 1;
        }
        res.push(row);
        b += 1;
    }
    res
}

/// For each block, the spread between its largest and smallest preference.
pub fn build_pref_spread(problem: &Problem) -> (res: Vec<i64>)
    requires
        prefs_ok(problem),
    ensures
        res@.len() == problem.blocks@.len(),
        forall|b: int| 0 <= b < res@.len() ==> #[trigger] res@[b] == if problem.blocks@[b].bay_preferences@.len() == 0 {
            0
        } else {
            seq_max(problem.blocks@[b].bay_preferences@) - seq_min(problem.blocks@[b].bay_preferences@)
        },
{
    let mut res: Vec<i64> = Vec::new();
    let mut b: usize = 0;
    while b < problem.blocks.len()
        invariant
            b <= problem.blocks@.len(),
            prefs_ok(problem),
            res@.len() == b,
            forall|q: int| 0 <= q < b ==> #[trigger] res@[q] == if problem.blocks@[q].bay_preferences@.len() == 0 {
                0
            } else {
                seq_max(problem.blocks@[q].bay_preferences@) - seq_min(problem.blocks@[q].bay_preferences@)
            },
        decreases problem.blocks@.len() - b,
    {
        proof {
            let prefs = problem.blocks@[b as int].bay_preferences@;
            if prefs.len() > 0 {
                assert(problem.blocks@[b as int].bay_preferences@.len() > 0);
            }
        }
        let spread = crate::solver_util::block_pref_spread(problem, b);
        res.push(spread);
        b += 1;
    }
    res
}

/// The preference of a block for a bay; zero for bays it lists none for.
pub open spec fn pref_of(prefs: Seq<i64>, bay: usize) -> i64 {
    if bay < prefs.len() { prefs[bay as int] } else { 0 }
}

/// Bay `a` comes before bay `b`: a higher preference first, then the
/// smaller index.
pub open spec fn bay_before(prefs: Seq<i64>, a: usize, b: usize) -> bool {
    pref_of(prefs, a) > pref_of(prefs, b) || (pref_of(prefs, a) == pref_of(prefs, b) && a < b)
}

/// Compares bays by preference, then index.
pub fn bay_pref_order(prefs: &Vec<i64>, a: usize, b: usize) -> (res: Ordering)
    ensures
        (res == Ordering::Less) == bay_before(prefs@, a, b),
        (res == Ordering::Greater) == bay_before(prefs@, b, a),
        (res == Ordering::Equal) == (a == b),
{
    let pa = if a < prefs.len() { prefs[a] } else { 0 };
    let pb = if b < prefs.len() { prefs[b] } else { 0 };
    if pa != pb {
        if pa > pb { Ordering::Less } else { Ordering::Greater }
    } else if a != b {
        if a < b { Ordering::Less } else { Ordering::Greater }
    } else {
        Ordering::Equal
    }
}

/// Sorts bay indices by preference (`slice::sort_unstable_by` with
/// `bay_pref_order`, a total order).
#[verifier::external_body]
fn sort_bays_by_pref(order: &mut Vec<usize>, prefs: &Vec<i64>)
    ensures
        final(order)@.to_multiset() == old(order)@.to_multiset(),
        final(order)@.len() == old(order)@.len(),
        forall|i: int, j: int| 0 <= i < j < final(order)@.len() ==> !bay_before(prefs@, final(order)@[j], final(order)@[i]),
{
    order.sort_unstable_by(|a, b| bay_pref_order(prefs, *a, *b));
}

/// For each block, all bays from the most to the least preferred, ties by
/// index.
pub fn build_bay_order_by_pref(problem: &Problem) -> (res: Vec<Vec<usize>>)
    ensures
        res@.len() == problem.blocks@.len(),
        forall|b: int| 0 <= b < res@.len() ==> {
            let order = #[trigger] res@[b];
            &&& order@.len() == problem.bays@.len()
            &&& order@.to_multiset() == Seq::new(problem.bays@.len(), |i: int| i as usize).to_multiset()
            &&& forall|i: int, j: int| 0 <= i < j < order@.len() ==>
                bay_before(problem.blocks@[b].bay_preferences@, order@[i], order@[j])
        },
{
    let n_bays = problem.bays.len();
    let mut res: Vec<Vec<usize>> = Vec::new();
    let mut b: usize = 0;
    while b < problem.blocks.len()
        invariant
            b <= problem.blocks@.len(),
            n_bays == problem.bays@.len(),
            res@.len() == b,
            forall|q: int| 0 <= q < b ==> {
                let order = #[trigger] res@[q];
                &&& order@.len() == problem.bays@.len()
                &&& order@.to_multiset() == Seq::new(problem.bays@.len(), |i: int| i as usize).to_multiset()
                &&& forall|i: int, j: int| 0 <= i < j < order@.len() ==>
                    bay_before(problem.blocks@[q].bay_preferences@, order@[i], order@[j])
            },
        decreases problem.blocks@.len() - b,
    {
        let mut order: Vec<usize> = Vec::new();
        let mut i: usize = 0;
        while i < n_bays
            invariant
                i <= n_bays,
                order@ == Seq::new(i as nat, |k: int| k as usize),
            decreases n_bays - i,
        {
            order.push(i);
            proof {
                assert(order@ =~= Seq::new((i + 1) as nat, |k: int| k as usize));
            }
            i += 1;
        }
        let ghost initial = order@;
        let prefs = &problem.blocks[b].bay_preferences;
        sort_bays_by_pref(&mut order, prefs);
        proof {
            broadcast use vstd::seq_lib::group_to_multiset_ensures;
            let o = order@;
            assert forall|i: int, j: int| 0 <= i < j < o.len() implies bay_before(prefs@, o[i], o[j]) by {
                assert(!bay_before(prefs@, o[j], o[i]));
                if o[i] == o[j] {
                    initial.lemma_multiset_has_no_duplicates();
                    o.lemma_multiset_has_no_duplicates_conv();
                }
            }
        }
        res.push(order);
        b += 1;
    }
    res
}

} // verus!
