//! Table of the collision data of all block orientations: the range of
//! reference positions at which each orientation fits in each bay, and the
//! crane collision grid of each ordered pair of orientations of two
//! distinct blocks.
use vstd::prelude::*;

use crate::grid::CollisionGrid;
use crate::model::{coord_ok, Boundsi};

verus! {

/// One orientation of one block.
#[derive(Clone, Copy, Debug, PartialEq, Eq, Structural)]
pub struct BlockOrient {
    pub block_id: usize,
    pub orient_idx: usize,
}

/// Where the moving orientation's crane path hits the fixed one.
#[derive(Clone, Debug)]
pub struct OrientPairCollision {
    pub crane: CollisionGrid,
}

/// The collision data of one ordered orientation pair, once published.
pub struct OrientPairCache {
    pub slot: Option<OrientPairCollision>,
}

impl OrientPairCache {
    /// An empty cache.
    pub fn new() -> (res: Self)
        ensures
            res.slot is None,
    {
        OrientPairCache { slot: None }
    }

    /// Stores `collision` unless a value is already stored; the stored
    /// value is kept either way.
    pub fn publish(&mut self, collision: OrientPairCollision)
        ensures
            final(self).slot == (match old(self).slot {
                Some(c) => Some(c),
                None => Some(collision),
            }),
    {
        if self.slot.is_none() {
            self.slot = Some(collision);
        }
    }
}

/// The caches of every orientation pair of an ordered block pair, indexed
/// by `moving_orient * fixed_orients + fixed_orient`.
pub struct BlockPairCollision {
    pub fixed_orients: usize,
    pub orient_pairs: Vec<OrientPairCache>,
}

/// A block pair whose `moving_orients * fixed_orients` caches are empty.
pub fn build_empty_block_pair(moving_orients: usize, fixed_orients: usize) -> (res: BlockPairCollision)
    requires
        moving_orients * fixed_orients <= usize::MAX,
    ensures
        res.fixed_orients == fixed_orients,
        res.orient_pairs@.len() == moving_orients * fixed_orients,
        forall|k: int| 0 <= k < res.orient_pairs@.len() ==> (#[trigger] res.orient_pairs@[k]).slot is None,
{
    let count = moving_orients * fixed_orients;
    let mut orient_pairs: Vec<OrientPairCache> = Vec::new();
    let mut k: usize = 0;
    while k < count
        invariant
            k <= count,
            orient_pairs@.len() == k,
            forall|q: int| 0 <= q < k ==> (#[trigger] orient_pairs@[q]).slot is None,
        decreases count - k,
    {
        orient_pairs.push(OrientPairCache::new());
        k += 1;
    }
    BlockPairCollision { fixed_orients, orient_pairs }
}

/// Fit ranges per bay, block and orientation; for each ordered pair of
/// distinct blocks `(i, j)`, `block_pair_index[i * n + j]` points at its
/// caches in `block_pairs`.
pub struct CollisionPrecompute {
    pub fit_ranges: Vec<Vec<Vec<Option<Boundsi>>>>,
    pub block_pair_index: Vec<Option<usize>>,
    pub block_pairs: Vec<BlockPairCollision>,
    pub n: usize,
}

/// A fit range whose coordinates stay within the limit and whose width
/// fits in the 32-bit offsets of the x-sweep.
pub open spec fn fit_range_ok(b: Boundsi) -> bool {
    &&& coord_ok(b.min_x as int)
    &&& coord_ok(b.max_x as int)
    &&& coord_ok(b.min_y as int)
    &&& coord_ok(b.max_y as int)
    &&& b.min_x <= b.max_x
    &&& b.min_y <= b.max_y
    &&& b.max_x - b.min_x + 2 <= u32::MAX
}

/// The index of a pair of blocks below `n` lies inside the `n * n` table.
proof fn lemma_pair_index_in_range(a: int, b: int, n: int)
    requires
        0 <= a < n,
        0 <= b < n,
    ensures
        0 <= a * n + b < n * n,
{
    assert(0 <= a * n + b < n * n) by (nonlinear_arith)
        requires
            0 <= a < n,
            0 <= b < n,
    ;
}

/// Digits below the radix `n` are fixed by the number they write.
proof fn lemma_mixed_radix(a1: int, b1: int, a2: int, b2: int, n: int)
    requires
        0 <= a1,
        0 <= a2,
        0 <= b1 < n,
        0 <= b2 < n,
        a1 * n + b1 == a2 * n + b2,
    ensures
        a1 == a2,
        b1 == b2,
{
    if a1 < a2 {
        assert(a1 * n + b1 < a2 * n) by (nonlinear_arith)
            requires
                a1 < a2,
                0 <= b1 < n,
        ;
    } else if a2 < a1 {
        assert(a2 * n + b2 < a1 * n) by (nonlinear_arith)
            requires
                a2 < a1,
                0 <= b2 < n,
        ;
    }
}

/// The caches of blocks `a` and `b` exist, sized for `counts[a]` moving
/// and `counts[b]` fixed orientations.
spec fn pair_sized(index: Seq<Option<usize>>, pairs: Seq<BlockPairCollision>, counts: Seq<usize>, n: int, a: int, b: int) -> bool {
    match index[a * n + b] {
        Some(p) => {
            &&& (p as int) < pairs.len()
            &&& pairs[p as int].fixed_orients == counts[b]
            &&& pairs[p as int].orient_pairs@.len() == counts[a] * counts[b]
        },
        None => false,
    }
}

/// A moving orientation below `ma` and a fixed one below `fb` index a cache
/// below `ma * fb`.
proof fn lemma_orient_key_in_range(mo: int, fo: int, ma: int, fb: int)
    requires
        0 <= mo < ma,
        0 <= fo < fb,
    ensures
        mo * fb + fo < ma * fb,
{
    assert(mo * fb + fo < ma * fb) by (nonlinear_arith)
        requires
            0 <= mo < ma,
            0 <= fo < fb,
    ;
}

impl CollisionPrecompute {
    pub open spec fn wf(&self) -> bool {
        &&& self.n * self.n <= usize::MAX
        &&& self.block_pair_index@.len() == self.n * self.n
        &&& forall|i: int| 0 <= i < self.block_pair_index@.len() ==> match #[trigger] self.block_pair_index@[i] {
            Some(p) => (p as int) < self.block_pairs@.len(),
            None => true,
        }
        &&& forall|i: int, j: int| 0 <= i < j < self.block_pair_index@.len() && #[trigger] self.block_pair_index@[i] is Some
            && #[trigger] self.block_pair_index@[j] is Some ==> self.block_pair_index@[i] != self.block_pair_index@[j]
        &&& forall|p: int, k: int| 0 <= p < self.block_pairs@.len() && 0 <= k < self.block_pairs@[p].orient_pairs@.len() ==>
            match (#[trigger] self.block_pairs@[p].orient_pairs@[k]).slot {
                Some(c) => c.crane.wf(),
                None => true,
            }
        &&& forall|b: int, k: int, o: int| 0 <= b < self.fit_ranges@.len() && 0 <= k < self.fit_ranges@[b]@.len()
            && 0 <= o < self.fit_ranges@[b]@[k]@.len() ==> match #[trigger] self.fit_ranges@[b]@[k]@[o] {
                Some(r) => fit_range_ok(r),
                None => true,
            }
    }

    /// The fit range of an orientation in a bay; `None` where it does not
    /// fit or the indices are out of range.
    pub open spec fn fit_range_spec(&self, bay_id: int, block_id: int, orient_idx: int) -> Option<Boundsi> {
        if 0 <= bay_id < self.fit_ranges@.len() && 0 <= block_id < self.fit_ranges@[bay_id]@.len()
            && 0 <= orient_idx < self.fit_ranges@[bay_id]@[block_id]@.len() {
            self.fit_ranges@[bay_id]@[block_id]@[orient_idx]
        } else {
            None
        }
    }

    /// The published crane grid of `moving` over `fixed`; `None` for the
    /// same block, for indices out of range and for pairs not published.
    pub open spec fn crane_grid(&self, moving: BlockOrient, fixed: BlockOrient) -> Option<CollisionGrid> {
        if moving.block_id == fixed.block_id || moving.block_id >= self.n || fixed.block_id >= self.n {
            None
        } else {
            match self.block_pair_index@[moving.block_id * self.n + fixed.block_id] {
                Some(p) => {
                    let pair = self.block_pairs@[p as int];
                    let key = moving.orient_idx * pair.fixed_orients + fixed.orient_idx;
                    if fixed.orient_idx < pair.fixed_orients && key < pair.orient_pairs@.len() {
                        match pair.orient_pairs@[key].slot {
                            Some(c) => Some(c.crane),
                            None => None,
                        }
                    } else {
                        None
                    }
                },
                None => None,
            }
        }
    }

    /// An empty table for the orientation counts of `n` blocks: every
    /// ordered pair of distinct blocks gets empty caches.
    pub fn with_fit_ranges(fit_ranges: Vec<Vec<Vec<Option<Boundsi>>>>, orient_counts: &[usize]) -> (res: Self)
        requires
            orient_counts@.len() * orient_counts@.len() <= usize::MAX,
            forall|i: int, j: int| 0 <= i < orient_counts@.len() && 0 <= j < orient_counts@.len() ==>
                #[trigger] orient_counts@[i] * #[trigger] orient_counts@[j] <= usize::MAX,
            forall|b: int, k: int, o: int| 0 <= b < fit_ranges@.len() && 0 <= k < fit_ranges@[b]@.len()
                && 0 <= o < fit_ranges@[b]@[k]@.len() ==> match #[trigger] fit_ranges@[b]@[k]@[o] {
                    Some(r) => fit_range_ok(r),
                    None => true,
                },
        ensures
            res.wf(),
            res.n == orient_counts@.len(),
            res.fit_ranges@ == fit_ranges@,
            forall|i: int, j: int| 0 <= i < res.n && 0 <= j < res.n && i != j ==> (#[trigger] res.block_pair_index@[i * res.n + j]) is Some,
            forall|m: BlockOrient, f: BlockOrient| #[trigger] res.crane_grid(m, f) is None,
            forall|m: BlockOrient, f: BlockOrient| m.block_id != f.block_id && m.block_id < orient_counts@.len()
                && f.block_id < orient_counts@.len() && m.orient_idx < orient_counts@[m.block_id as int]
                && f.orient_idx < orient_counts@[f.block_id as int] ==> #[trigger] res.has_slot(m, f),
    {
        let n = orient_counts.len();
        let mut block_pair_index: Vec<Option<usize>> = Vec::new();
        let mut block_pairs: Vec<BlockPairCollision> = Vec::new();
        let mut i: usize = 0;
        while i < n
            invariant
                n == orient_counts@.len(),
                n * n <= usize::MAX,
                forall|a: int, b: int| 0 <= a < n && 0 <= b < n ==> #[trigger] orient_counts@[a] * #[trigger] orient_counts@[b] <= usize::MAX,
                i <= n,
                block_pair_index@.len() == i * n,
                forall|q: int| 0 <= q < block_pair_index@.len() ==> match #[trigger] block_pair_index@[q] {
                    Some(p) => (p as int) < block_pairs@.len(),
                    None => true,
                },
                forall|a: int, b: int| 0 <= a < b < block_pair_index@.len() && #[trigger] block_pair_index@[a] is Some
                    && #[trigger] block_pair_index@[b] is Some ==> block_pair_index@[a] != block_pair_index@[b],
                forall|a: int, b: int| 0 <= a < i && 0 <= b < n && a != b ==> (#[trigger] block_pair_index@[a * n + b]) is Some,
                forall|a: int, b: int| 0 <= a < i && 0 <= b < n && a != b ==> #[trigger] pair_sized(block_pair_index@, block_pairs@, orient_counts@, n as int, a, b),
                forall|p: int, k: int| 0 <= p < block_pairs@.len() && 0 <= k < block_pairs@[p].orient_pairs@.len() ==>
                    (#[trigger] block_pairs@[p].orient_pairs@[k]).slot is None,
            decreases n - i,
        {
            let mut j: usize = 0;
            while j < n
                invariant
                    n == orient_counts@.len(),
                    n * n <= usize::MAX,
                    forall|a: int, b: int| 0 <= a < n && 0 <= b < n ==> #[trigger] orient_counts@[a] * #[trigger] orient_counts@[b] <= usize::MAX,
                    i < n,
                    j <= n,
                    block_pair_index@.len() == i * n + j,
                    forall|q: int| 0 <= q < block_pair_index@.len() ==> match #[trigger] block_pair_index@[q] {
                        Some(p) => (p as int) < block_pairs@.len(),
                        None => true,
                    },
                    forall|a: int, b: int| 0 <= a < b < block_pair_index@.len() && #[trigger] block_pair_index@[a] is Some
                        && #[trigger] block_pair_index@[b] is Some ==> block_pair_index@[a] != block_pair_index@[b],
                    forall|a: int, b: int| 0 <= a < i && 0 <= b < n && a != b ==> (#[trigger] block_pair_index@[a * n + b]) is Some,
                    forall|b: int| 0 <= b < j && i != b ==> (#[trigger] block_pair_index@[i * n + b]) is Some,
                    forall|a: int, b: int| 0 <= a < i && 0 <= b < n && a != b ==> #[trigger] pair_sized(block_pair_index@, block_pairs@, orient_counts@, n as int, a, b),
                    forall|b: int| 0 <= b < j && i != b ==> #[trigger] pair_sized(block_pair_index@, block_pairs@, orient_counts@, n as int, i as int, b),
                    forall|p: int, k: int| 0 <= p < block_pairs@.len() && 0 <= k < block_pairs@[p].orient_pairs@.len() ==>
                        (#[trigger] block_pairs@[p].orient_pairs@[k]).slot is None,
                decreases n - j,
            {
                proof {
                    assert((i as int) * (n as int) + (j as int) < (n as int) * (n as int)) by (nonlinear_arith)
                        requires
                            i < n,
                            j < n,
                    ;
                }
                let ghost idx0 = block_pair_index@;
                let ghost pairs0 = block_pairs@;
                if i == j {
                    block_pair_index.push(None);
                } else {
                    let pair_idx = block_pairs.len();
                    let pair = build_empty_block_pair(orient_counts[i], orient_counts[j]);
                    block_pairs.push(pair);
                    block_pair_index.push(Some(pair_idx));
                }
                proof {
                    assert forall|a: int, b: int| 0 <= a < i && 0 <= b < n && a != b implies (#[trigger] block_pair_index@[a * n + b]) is Some by {
                        assert(a * n + b < i * n) by (nonlinear_arith)
                            requires
                                0 <= a < i,
                                0 <= b < n,
                        ;
                    }
                    assert forall|a: int, b: int| 0 <= a < i && 0 <= b < n && a != b implies
                        #[trigger] pair_sized(block_pair_index@, block_pairs@, orient_counts@, n as int, a, b) by {
                        assert(a * n + b < i * n) by (nonlinear_arith)
                            requires
                                0 <= a < i,
                                0 <= b < n,
                        ;
                        assert(pair_sized(idx0, pairs0, orient_counts@, n as int, a, b));
                        assert(block_pair_index@[a * n + b] == idx0[a * n + b]);
                        let p = idx0[a * n + b].unwrap() as int;
                        assert(block_pairs@[p] == pairs0[p]);
                    }
                    assert forall|b: int| 0 <= b < j + 1 && i != b implies
                        #[trigger] pair_sized(block_pair_index@, block_pairs@, orient_counts@, n as int, i as int, b) by {
                        if b < j {
                            assert(pair_sized(idx0, pairs0, orient_counts@, n as int, i as int, b));
                            assert(block_pair_index@[i * n + b] == idx0[i * n + b]);
                            let p = idx0[i * n + b].unwrap() as int;
                            assert(block_pairs@[p] == pairs0[p]);
                        } else {
                            assert(block_pair_index@[i * n + b] == Some(pairs0.len() as usize));
                        }
                    }
                }
                j += 1;
            }
            proof {
                assert((i as int + 1) * (n as int) == (i as int) * (n as int) + (n as int)) by (nonlinear_arith);
            }
            i += 1;
        }
        let res = CollisionPrecompute { fit_ranges, block_pair_index, block_pairs, n };
        proof {
            assert forall|m: BlockOrient, f: BlockOrient| m.block_id != f.block_id && m.block_id < orient_counts@.len()
                && f.block_id < orient_counts@.len() && m.orient_idx < orient_counts@[m.block_id as int]
                && f.orient_idx < orient_counts@[f.block_id as int] implies #[trigger] res.has_slot(m, f) by {
                let a = m.block_id as int;
                let b = f.block_id as int;
                assert(pair_sized(res.block_pair_index@, res.block_pairs@, orient_counts@, n as int, a, b));
                lemma_orient_key_in_range(m.orient_idx as int, f.orient_idx as int, orient_counts@[a] as int, orient_counts@[b] as int);
            }
            assert forall|m: BlockOrient, f: BlockOrient| #[trigger] res.crane_grid(m, f) is None by {
                if !(m.block_id == f.block_id || m.block_id >= n || f.block_id >= n) {
                    let q = m.block_id * n + f.block_id;
                    assert(q < n * n) by (nonlinear_arith)
                        requires
                            m.block_id < n,
                            f.block_id < n,
                            q == m.block_id * n + f.block_id,
                    ;
                    match res.block_pair_index@[q as int] {
                        Some(p) => {
                            let pair = res.block_pairs@[p as int];
                            let key = m.orient_idx * pair.fixed_orients + f.orient_idx;
                            if f.orient_idx < pair.fixed_orients && key < pair.orient_pairs@.len() {
                                assert(pair.orient_pairs@[key].slot is None);
                            }
                        },
                        None => {},
                    }
                }
            }
        }
        res
    }

    /// The fit range of an orientation in a bay.
    pub fn fit_range(&self, bay_id: usize, block_id: usize, orient_idx: usize) -> (res: Option<Boundsi>)
        ensures
            res == self.fit_range_spec(bay_id as int, block_id as int, orient_idx as int),
    {
        if bay_id >= self.fit_ranges.len() {
            return None;
        }
        let per_block = &self.fit_ranges[bay_id];
        if block_id >= per_block.len() {
            return None;
        }
        let per_orient = &per_block[block_id];
        if orient_idx >= per_orient.len() {
            return None;
        }
        per_orient[orient_idx]
    }

    /// The cache of an ordered orientation pair of distinct blocks, when
    /// the table has one.
    fn pair_cache(&self, moving: BlockOrient, fixed: BlockOrient) -> (res: Option<&OrientPairCache>)
        requires
            self.wf(),
        ensures
            match res {
                Some(c) => match c.slot {
                    Some(g) => self.crane_grid(moving, fixed) == Some(g.crane) && g.crane.wf(),
                    None => self.crane_grid(moving, fixed) is None,
                },
                None => self.crane_grid(moving, fixed) is None,
            },
    {
        if moving.block_id == fixed.block_id || moving.block_id >= self.n || fixed.block_id >= self.n {
            return None;
        }
        proof {
            assert(moving.block_id * self.n + fixed.block_id < self.n * self.n) by (nonlinear_arith)
                requires
                    moving.block_id < self.n,
                    fixed.block_id < self.n,
            ;
        }
        let q = moving.block_id * self.n + fixed.block_id;
        match self.block_pair_index[q] {
            Some(p) => {
                let pair = &self.block_pairs[p];
                if fixed.orient_idx >= pair.fixed_orients {
                    return None;
                }
                let limit = (usize::MAX - fixed.orient_idx) / pair.fixed_orients;
                let pair_count = pair.orient_pairs.len();
                if moving.orient_idx > limit {
                    proof {
                        assert(moving.orient_idx * pair.fixed_orients + fixed.orient_idx > usize::MAX) by (nonlinear_arith)
                            requires
                                limit == (usize::MAX - fixed.orient_idx) as int / pair.fixed_orients as int,
                                moving.orient_idx > limit,
                                pair.fixed_orients > 0,
                                fixed.orient_idx < pair.fixed_orients,
                        ;
                    }
                    return None;
                }
                proof {
                    assert(moving.orient_idx * pair.fixed_orients + fixed.orient_idx <= usize::MAX) by (nonlinear_arith)
                        requires
                            limit == (usize::MAX - fixed.orient_idx) as int / pair.fixed_orients as int,
                            moving.orient_idx <= limit,
                            pair.fixed_orients > 0,
                            fixed.orient_idx < pair.fixed_orients,
                    ;
                }
                let key = moving.orient_idx * pair.fixed_orients + fixed.orient_idx;
                if key >= pair.orient_pairs.len() {
                    return None;
                }
                proof {
                    assert(match self.block_pairs@[p as int].orient_pairs@[key as int].slot {
                        Some(g) => g.crane.wf(),
                        None => true,
                    });
                }
                Some(&pair.orient_pairs[key])
            },
            None => None,
        }
    }

    /// The crane collision of `moving` over `fixed`.
    pub fn crane_pair(&self, moving: BlockOrient, fixed: BlockOrient) -> (res: Option<&OrientPairCollision>)
        requires
            self.wf(),
        ensures
            match res {
                Some(c) => self.crane_grid(moving, fixed) == Some(c.crane) && c.crane.wf(),
                None => self.crane_grid(moving, fixed) is None,
            },
    {
        match self.pair_cache(moving, fixed) {
            Some(cache) => match &cache.slot {
                Some(c) => {
                    Some(c)
                },
                None => None,
            },
            None => None,
        }
    }

    /// The crane collisions of `a` over `b` and of `b` over `a`, when both
    /// are published.
    pub fn crane_pairs_both_directions(&self, a: BlockOrient, b: BlockOrient) -> (res: Option<(&OrientPairCollision, &OrientPairCollision)>)
        requires
            self.wf(),
        ensures
            match res {
                Some((ab, ba)) => {
                    &&& self.crane_grid(a, b) == Some(ab.crane)
                    &&& self.crane_grid(b, a) == Some(ba.crane)
                    &&& ab.crane.wf()
                    &&& ba.crane.wf()
                },
                None => self.crane_grid(a, b) is None || self.crane_grid(b, a) is None,
            },
    {
        let ab = match self.crane_pair(a, b) {
            Some(c) => c,
            None => return None,
        };
        let ba = match self.crane_pair(b, a) {
            Some(c) => c,
            None => return None,
        };
        Some((ab, ba))
    }
}

impl CollisionPrecompute {
    /// The table has a cache for `moving` over `fixed`.
    pub open spec fn has_slot(&self, moving: BlockOrient, fixed: BlockOrient) -> bool {
        &&& moving.block_id != fixed.block_id
        &&& moving.block_id < self.n
        &&& fixed.block_id < self.n
        &&& match self.block_pair_index@[moving.block_id * self.n + fixed.block_id] {
            Some(p) => {
                let pair = self.block_pairs@[p as int];
                fixed.orient_idx < pair.fixed_orients
                    && moving.orient_idx * pair.fixed_orients + fixed.orient_idx < pair.orient_pairs@.len()
            },
            None => false,
        }
    }

    /// Publishes the crane collision of `moving` over `fixed`, unless one
    /// is already published; the first published value stays.
    pub fn publish_crane_pair(&mut self, moving: BlockOrient, fixed: BlockOrient, collision: OrientPairCollision)
        requires
            old(self).wf(),
            collision.crane.wf(),
        ensures
            final(self).wf(),
            final(self).n == old(self).n,
            final(self).fit_ranges@ == old(self).fit_ranges@,
            final(self).has_slot(moving, fixed) == old(self).has_slot(moving, fixed),
            final(self).crane_grid(moving, fixed) == (match old(self).crane_grid(moving, fixed) {
                Some(g) => Some(g),
                None => if old(self).has_slot(moving, fixed) { Some(collision.crane) } else { None },
            }),
            forall|m: BlockOrient, f: BlockOrient| !(m == moving && f == fixed) ==>
                #[trigger] final(self).crane_grid(m, f) == old(self).crane_grid(m, f),
            forall|m: BlockOrient, f: BlockOrient| #[trigger] final(self).has_slot(m, f) == old(self).has_slot(m, f),
    {
        if moving.block_id == fixed.block_id || moving.block_id >= self.n || fixed.block_id >= self.n {
            return;
        }
        proof {
            assert(moving.block_id * self.n + fixed.block_id < self.n * self.n) by (nonlinear_arith)
                requires
                    moving.block_id < self.n,
                    fixed.block_id < self.n,
            ;
        }
        let q = moving.block_id * self.n + fixed.block_id;
        let p = match self.block_pair_index[q] {
            Some(p) => p,
            None => return,
        };
        let fixed_orients = self.block_pairs[p].fixed_orients;
        if fixed.orient_idx >= fixed_orients {
            return;
        }
        let limit = (usize::MAX - fixed.orient_idx) / fixed_orients;
        let pair_count = self.block_pairs[p].orient_pairs.len();
        if moving.orient_idx > limit {
            proof {
                assert(moving.orient_idx * fixed_orients + fixed.orient_idx > usize::MAX) by (nonlinear_arith)
                    requires
                        limit == (usize::MAX - fixed.orient_idx) as int / fixed_orients as int,
                        moving.orient_idx > limit,
                        fixed_orients > 0,
                        fixed.orient_idx < fixed_orients,
                ;
            }
            return;
        }
        proof {
            assert(moving.orient_idx * fixed_orients + fixed.orient_idx <= usize::MAX) by (nonlinear_arith)
                requires
                    limit == (usize::MAX - fixed.orient_idx) as int / fixed_orients as int,
                    moving.orient_idx <= limit,
                    fixed_orients > 0,
                    fixed.orient_idx < fixed_orients,
            ;
        }
        let key = moving.orient_idx * fixed_orients + fixed.orient_idx;
        if key >= pair_count {
            return;
        }
        let ghost before = *self;
        let mut pair_caches: Vec<OrientPairCache> = Vec::new();
        std::mem::swap(&mut pair_caches, &mut self.block_pairs[p].orient_pairs);
        pair_caches[key].publish(collision);
        std::mem::swap(&mut pair_caches, &mut self.block_pairs[p].orient_pairs);
        proof {
            assert(self.block_pair_index@ == before.block_pair_index@);
            assert(self.block_pairs@.len() == before.block_pairs@.len());
            assert forall|pp: int, k: int| 0 <= pp < self.block_pairs@.len() && 0 <= k < self.block_pairs@[pp].orient_pairs@.len() implies
                match (#[trigger] self.block_pairs@[pp].orient_pairs@[k]).slot {
                    Some(c) => c.crane.wf(),
                    None => true,
                } by {
                if pp != p as int || k != key as int {
                    if pp != p as int {
                        assert(self.block_pairs@[pp] == before.block_pairs@[pp]);
                    }
                    assert(self.block_pairs@[pp].orient_pairs@[k] == before.block_pairs@[pp].orient_pairs@[k]);
                } else {
                    assert(match before.block_pairs@[pp].orient_pairs@[k].slot {
                        Some(c) => c.crane.wf(),
                        None => true,
                    });
                }
            }
            assert forall|pp: int| 0 <= pp < self.block_pairs@.len() implies
                (#[trigger] self.block_pairs@[pp]).fixed_orients == before.block_pairs@[pp].fixed_orients
                && self.block_pairs@[pp].orient_pairs@.len() == before.block_pairs@[pp].orient_pairs@.len() by {
                if pp != p as int {
                    assert(self.block_pairs@[pp] == before.block_pairs@[pp]);
                }
            }
            assert forall|m: BlockOrient, f: BlockOrient| #[trigger] self.has_slot(m, f) == before.has_slot(m, f) by {
                if m.block_id != f.block_id && m.block_id < self.n && f.block_id < self.n {
                    lemma_pair_index_in_range(m.block_id as int, f.block_id as int, self.n as int);
                }
            }
            assert forall|m: BlockOrient, f: BlockOrient| !(m == moving && f == fixed) implies
                #[trigger] self.crane_grid(m, f) == before.crane_grid(m, f) by {
                if !(m.block_id == f.block_id || m.block_id >= self.n || f.block_id >= self.n) {
                    lemma_pair_index_in_range(m.block_id as int, f.block_id as int, self.n as int);
                    let q2 = m.block_id * self.n + f.block_id;
                    match before.block_pair_index@[q2 as int] {
                        Some(p2) => {
                            if p2 as int == p as int {
                                if q2 != q {
                                    if q2 < q {
                                        assert(before.block_pair_index@[q2 as int] != before.block_pair_index@[q as int]);
                                    } else {
                                        assert(before.block_pair_index@[q as int] != before.block_pair_index@[q2 as int]);
                                    }
                                }
                                lemma_mixed_radix(m.block_id as int, f.block_id as int, moving.block_id as int, fixed.block_id as int, self.n as int);
                                let key2 = m.orient_idx * fixed_orients + f.orient_idx;
                                if f.orient_idx < fixed_orients && key2 < pair_count {
                                    if key2 == key {
                                        lemma_mixed_radix(m.orient_idx as int, f.orient_idx as int, moving.orient_idx as int, fixed.orient_idx as int, fixed_orients as int);
                                        assert(m == moving && f == fixed);
                                    }
                                    assert(key2 != key);
                                    assert(self.block_pairs@[p as int].orient_pairs@[key2 as int] == before.block_pairs@[p as int].orient_pairs@[key2 as int]);
                                }
                            } else {
                                assert(self.block_pairs@[p2 as int] == before.block_pairs@[p2 as int]);
                            }
                        },
                        None => {},
                    }
                }
            }
        }
    }
}

} // verus!
