//! A tabu list of recently seen schedules, kept as 64-bit hash keys: the
//! last `capacity` distinct keys inserted, oldest first.
use vstd::prelude::*;

use std::collections::{HashSet, VecDeque};

use crate::model::ScheduledBlock;

verus! {

/// The FNV-1a 64-bit offset basis.
pub const FNV_OFFSET: u64 = 1469598103934665603;

/// The FNV-1a 64-bit prime.
pub const FNV_PRIME: u64 = 1099511628211;

/// One FNV-1a step: xor in `value`, multiply by the prime modulo 2^64.
pub open spec fn mix(hash: u64, value: u64) -> u64 {
    vstd::wrapping::u64_specs::wrapping_mul(hash ^ value, FNV_PRIME)
}

/// One FNV-1a step.
pub fn mix_hash(hash: u64, value: u64) -> (res: u64)
    ensures
        res == mix(hash, value),
{
    let h = hash ^ value;
    h.wrapping_mul(FNV_PRIME)
}

/// The hash of a placement: its fields mixed in order, each as a 64-bit
/// value.
pub open spec fn block_hash(b: ScheduledBlock) -> u64 {
    let h = mix(FNV_OFFSET, b.block_id as u64);
    let h = mix(h, b.bay_id as u64);
    let h = mix(h, b.orient_idx as u64);
    let h = mix(h, b.x as u64);
    let h = mix(h, b.y as u64);
    let h = mix(h, b.entry_time as u64);
    mix(h, b.exit_time as u64)
}

/// The hash of a placement.
pub fn hash_scheduled_block(block: ScheduledBlock) -> (res: u64)
    ensures
        res == block_hash(block),
{
    let mut hash = FNV_OFFSET;
    hash = mix_hash(hash, block.block_id as u64);
    hash = mix_hash(hash, block.bay_id as u64);
    hash = mix_hash(hash, block.orient_idx as u64);
    hash = mix_hash(hash, block.x as u64);
    hash = mix_hash(hash, block.y as u64);
    hash = mix_hash(hash, block.entry_time as u64);
    mix_hash(hash, block.exit_time as u64)
}

/// Xor of the hashes of the placements of `s`, over `start`.
pub open spec fn xor_hashes(s: Seq<ScheduledBlock>, start: u64) -> u64
    decreases s.len(),
{
    if s.len() == 0 {
        start
    } else {
        xor_hashes(s.drop_last(), start) ^ block_hash(s.last())
    }
}

/// The key of a schedule: the length mixed into the offset basis, then the
/// hash of every placement xored in, so that the order of the placements
/// does not matter.
pub open spec fn schedule_key(s: Seq<ScheduledBlock>) -> u64 {
    xor_hashes(s, mix(FNV_OFFSET, s.len() as u64))
}

/// The hash key of a schedule.
#[derive(Clone, Copy, Debug, PartialEq, Eq, Hash, Structural)]
pub struct ScheduleKey(pub u64);

/// The keys after inserting `k` into `keys` with room for `capacity`: an
/// existing key changes nothing; a new one is appended and, when over
/// capacity, the oldest is dropped.
pub open spec fn inserted(keys: Seq<u64>, k: u64, capacity: int) -> Seq<u64> {
    if keys.contains(k) {
        keys
    } else if keys.len() + 1 > capacity {
        keys.push(k).subrange(1, keys.len() as int + 1)
    } else {
        keys.push(k)
    }
}

/// The tabu list.
pub struct ScheduleTabu {
    capacity: usize,
    queue: VecDeque<u64>,
    set: HashSet<u64>,
}

impl ScheduleTabu {
    /// The keys held, oldest first.
    pub closed spec fn view(&self) -> Seq<u64> {
        self.queue@
    }

    /// The capacity.
    pub closed spec fn capacity_spec(&self) -> int {
        self.capacity as int
    }

    /// The hash set mirrors the queue, which holds each key once and no
    /// more than the capacity.
    pub closed spec fn wf(&self) -> bool {
        &&& self.set@ == self.queue@.to_set()
        &&& self.queue@.no_duplicates()
        &&& self.queue@.len() <= self.capacity
    }

    /// An empty list with room for `capacity` keys.
    pub fn new(capacity: usize) -> (res: Self)
        requires
            capacity * 2 <= usize::MAX,
        ensures
            res.wf(),
            res.view() == Seq::<u64>::empty(),
            res.capacity_spec() == capacity,
    {
        let res = ScheduleTabu {
            capacity,
            queue: VecDeque::with_capacity(capacity),
            set: HashSet::with_capacity(capacity * 2),
        };
        proof {
            assert(res.queue@.to_set() =~= Set::<u64>::empty());
        }
        res
    }

    /// The key of `schedule`.
    pub fn key(schedule: &[ScheduledBlock]) -> (res: ScheduleKey)
        ensures
            res.0 == schedule_key(schedule@),
    {
        let mut hash = mix_hash(FNV_OFFSET, schedule.len() as u64);
        let ghost start = hash;
        let mut i: usize = 0;
        while i < schedule.len()
            invariant
                i <= schedule@.len(),
                start == mix(FNV_OFFSET, schedule@.len() as u64),
                hash == xor_hashes(schedule@.take(i as int), start),
            decreases schedule@.len() - i,
        {
            proof {
                assert(schedule@.take(i as int + 1).drop_last() =~= schedule@.take(i as int));
            }
            hash = hash ^ hash_scheduled_block(schedule[i]);
            i += 1;
        }
        proof {
            assert(schedule@.take(schedule@.len() as int) =~= schedule@);
        }
        ScheduleKey(hash)
    }

    /// Whether `key` is in the list.
    pub fn contains(&self, key: ScheduleKey) -> (res: bool)
        requires
            self.wf(),
        ensures
            res == self.view().contains(key.0),
    {
        broadcast use vstd::std_specs::hash::group_hash_axioms;
        let k = key.0;
        self.set.contains(&k)
    }

    /// Inserts `key`; a new key beyond the capacity pushes out the oldest.
    pub fn insert(&mut self, key: ScheduleKey)
        requires
            old(self).wf(),
        ensures
            final(self).wf(),
            final(self).capacity_spec() == old(self).capacity_spec(),
            final(self).view() == inserted(old(self).view(), key.0, old(self).capacity_spec()),
    {
        broadcast use vstd::std_specs::hash::group_hash_axioms;
        let k = key.0;
        let ghost q0 = self.queue@;
        if !self.set.insert(k) {
            proof {
                assert(self.set@ =~= q0.to_set());
                assert(q0.to_set().contains(k));
                assert(q0.contains(k));
            }
            return;
        }
        proof {
            assert(!q0.to_set().contains(k));
            assert(!q0.contains(k));
        }
        self.queue.push_back(k);
        proof {
            let q1 = q0.push(k);
            assert(self.queue@ == q1);
            q0.lemma_push_to_set_commute(k);
            assert(q1.to_set() == q0.to_set().insert(k));
            assert(q1.no_duplicates()) by {
                assert forall|i: int, j: int| 0 <= i < q1.len() && 0 <= j < q1.len() && i != j implies q1[i] != q1[j] by {
                    if i < q0.len() && j < q0.len() {
                    } else if i < q0.len() {
                        assert(q0.contains(q0[i]));
                    } else {
                        assert(q0.contains(q0[j]));
                    }
                }
            }
        }
        if self.queue.len() > self.capacity {
            let ghost q1 = self.queue@;
            match self.queue.pop_front() {
                Some(old_key) => {
                    self.set.remove(&old_key);
                    proof {
                        let q2 = q1.subrange(1, q1.len() as int);
                        assert(self.queue@ == q2);
                        assert(q2.to_set() =~= q1.to_set().remove(old_key)) by {
                            assert forall|v: u64| q2.to_set().contains(v) <==> q1.to_set().remove(old_key).contains(v) by {
                                if q2.contains(v) {
                                    let i = choose|i: int| 0 <= i < q2.len() && q2[i] == v;
                                    assert(q1[i + 1] == v);
                                    assert(q1[0] != q1[i + 1]);
                                }
                                if q1.contains(v) && v != old_key {
                                    let i = choose|i: int| 0 <= i < q1.len() && q1[i] == v;
                                    assert(i != 0);
                                    assert(q2[i - 1] == v);
                                }
                            }
                        }
                        assert(q2.no_duplicates()) by {
                            assert forall|i: int, j: int| 0 <= i < q2.len() && 0 <= j < q2.len() && i != j implies q2[i] != q2[j] by {
                                assert(q2[i] == q1[i + 1] && q2[j] == q1[j + 1]);
                            }
                        }
                    }
                },
                None => {},
            }
        }
    }

    /// A well-formed list holds each key once and no more keys than its
    /// capacity, whatever inserts came before.
    pub proof fn lemma_bounded(&self)
        requires
            self.wf(),
        ensures
            self.view().len() <= self.capacity_spec(),
            self.view().no_duplicates(),
    {
    }

    /// Inserts the key of `schedule`.
    pub fn insert_schedule(&mut self, schedule: &[ScheduledBlock])
        requires
            old(self).wf(),
        ensures
            final(self).wf(),
            final(self).capacity_spec() == old(self).capacity_spec(),
            final(self).view() == inserted(old(self).view(), schedule_key(schedule@), old(self).capacity_spec()),
    {
        let key = Self::key(schedule);
        self.insert(key);
    }
}

/// The tabu list of states of the annealing; a capacity of zero turns it
/// off.
pub struct TabuList {
    list: ScheduleTabu,
}

impl TabuList {
    /// The keys held, oldest first.
    pub closed spec fn view(&self) -> Seq<u64> {
        self.list.view()
    }

    /// The capacity.
    pub closed spec fn capacity_spec(&self) -> int {
        self.list.capacity_spec()
    }

    /// The keys are held as in `ScheduleTabu`.
    pub closed spec fn wf(&self) -> bool {
        self.list.wf()
    }

    /// An empty list with room for `capacity` keys.
    pub fn new(capacity: usize) -> (res: Self)
        requires
            capacity * 2 <= usize::MAX,
        ensures
            res.wf(),
            res.view() == Seq::<u64>::empty(),
            res.capacity_spec() == capacity,
    {
        TabuList { list: ScheduleTabu::new(capacity) }
    }

    /// A well-formed list holds each key once and no more keys than its
    /// capacity, whatever inserts came before.
    pub proof fn lemma_bounded(&self)
        requires
            self.wf(),
        ensures
            self.view().len() <= self.capacity_spec(),
            self.view().no_duplicates(),
    {
        self.list.lemma_bounded();
    }

    /// Whether `key` is in the list; never, when the list is off.
    pub fn contains(&self, key: u64) -> (res: bool)
        requires
            self.wf(),
        ensures
            res == (self.capacity_spec() > 0 && self.view().contains(key)),
    {
        self.list.capacity > 0 && self.list.contains(ScheduleKey(key))
    }

    /// Inserts `key` unless the list is off; a new key beyond the capacity
    /// pushes out the oldest.
    pub fn insert(&mut self, key: u64)
        requires
            old(self).wf(),
        ensures
            final(self).wf(),
            final(self).capacity_spec() == old(self).capacity_spec(),
            final(self).view() == if old(self).capacity_spec() == 0 {
                old(self).view()
            } else {
                inserted(old(self).view(), key, old(self).capacity_spec())
            },
    {
        if self.list.capacity == 0 {
            return;
        }
        self.list.insert(ScheduleKey(key));
    }
}

/// A key just inserted into a list with room for at least one key is held.
pub proof fn lemma_inserted_contains(keys: Seq<u64>, k: u64, capacity: int)
    requires
        capacity > 0,
        keys.len() <= capacity,
    ensures
        inserted(keys, k, capacity).contains(k),
{
    if !keys.contains(k) {
        let q = keys.push(k);
        assert(q[keys.len() as int] == k);
        if keys.len() + 1 > capacity {
            let r = q.subrange(1, keys.len() as int + 1);
            assert(r[keys.len() - 1] == k);
        }
    }
}

/// Multiplying by the FNV prime modulo 2^64 can be undone: the prime is
/// odd, so it has an inverse modulo 2^64.
proof fn lemma_prime_product_cancels(u: u64)
    ensures
        ((u as int * FNV_PRIME as int) % 0x1_0000_0000_0000_0000int) * 14886173955864302971int % 0x1_0000_0000_0000_0000int == u as int,
{
    let m: int = 0x1_0000_0000_0000_0000int;
    let q: int = 14886173955864302971int;
    let k: int = 887285111055int;
    let a = u as int * FNV_PRIME as int;
    vstd::arithmetic::div_mod::lemma_mul_mod_noop_left(a, q, m);
    assert(a * q == m * (u as int * k) + u as int) by (nonlinear_arith)
        requires
            a == u as int * 1099511628211int,
            q == 14886173955864302971int,
            k == 887285111055int,
            m == 0x1_0000_0000_0000_0000int,
    ;
    vstd::arithmetic::div_mod::lemma_mod_multiples_vanish(u as int * k, u as int, m);
    vstd::arithmetic::div_mod::lemma_small_mod(u as nat, m as nat);
}

/// Multiplying by the FNV prime modulo 2^64 is one-to-one.
proof fn lemma_prime_product_injective(u: u64, v: u64)
    requires
        vstd::wrapping::u64_specs::wrapping_mul(u, FNV_PRIME) == vstd::wrapping::u64_specs::wrapping_mul(v, FNV_PRIME),
    ensures
        u == v,
{
    let m: int = 0x1_0000_0000_0000_0000int;
    let pu = (u as int * FNV_PRIME as int) % m;
    let pv = (v as int * FNV_PRIME as int) % m;
    assert(0 <= pu < m && 0 <= pv < m);
    assert(pu == pv);
    lemma_prime_product_cancels(u);
    lemma_prime_product_cancels(v);
}

/// Mixing a value into a hash is one-to-one in the value and in the hash.
pub proof fn lemma_mix_injective(h1: u64, v1: u64, h2: u64, v2: u64)
    requires
        mix(h1, v1) == mix(h2, v2),
    ensures
        h1 == h2 ==> v1 == v2,
        v1 == v2 ==> h1 == h2,
{
    lemma_prime_product_injective(h1 ^ v1, h2 ^ v2);
    assert(h1 ^ v1 == h2 ^ v2 ==> (h1 == h2 ==> v1 == v2) && (v1 == v2 ==> h1 == h2)) by (bit_vector);
}

/// Two placements that differ only in their x position hash differently:
/// the hash mixes in x, and every step of the mixing is one-to-one.
pub proof fn lemma_hash_separates_x(a: ScheduledBlock, b: ScheduledBlock)
    requires
        a.block_id == b.block_id,
        a.bay_id == b.bay_id,
        a.orient_idx == b.orient_idx,
        a.x != b.x,
        a.y == b.y,
        a.entry_time == b.entry_time,
        a.exit_time == b.exit_time,
    ensures
        block_hash(a) != block_hash(b),
{
    let ax = a.x;
    let bx = b.x;
    assert(ax != bx ==> ax as u64 != bx as u64) by (bit_vector);
    let h = mix(mix(mix(FNV_OFFSET, a.block_id as u64), a.bay_id as u64), a.orient_idx as u64);
    let ha = mix(h, a.x as u64);
    let hb = mix(h, b.x as u64);
    if ha == hb {
        lemma_mix_injective(h, a.x as u64, h, b.x as u64);
    }
    let ha2 = mix(ha, a.y as u64);
    let hb2 = mix(hb, b.y as u64);
    if ha2 == hb2 {
        lemma_mix_injective(ha, a.y as u64, hb, b.y as u64);
    }
    let ha3 = mix(ha2, a.entry_time as u64);
    let hb3 = mix(hb2, b.entry_time as u64);
    if ha3 == hb3 {
        lemma_mix_injective(ha2, a.entry_time as u64, hb2, b.entry_time as u64);
    }
    if mix(ha3, a.exit_time as u64) == mix(hb3, b.exit_time as u64) {
        lemma_mix_injective(ha3, a.exit_time as u64, hb3, b.exit_time as u64);
    }
}

/// One-placement schedules whose placements differ only in their x
/// position have different keys, so a move along x is never mistaken for
/// the schedule it left.
pub proof fn lemma_key_separates_x(a: ScheduledBlock, b: ScheduledBlock)
    requires
        a.block_id == b.block_id,
        a.bay_id == b.bay_id,
        a.orient_idx == b.orient_idx,
        a.x != b.x,
        a.y == b.y,
        a.entry_time == b.entry_time,
        a.exit_time == b.exit_time,
    ensures
        schedule_key(seq![a]) != schedule_key(seq![b]),
{
    lemma_hash_separates_x(a, b);
    let start = mix(FNV_OFFSET, 1u64);
    let sa = seq![a];
    let sb = seq![b];
    assert(sa.len() == 1 && sb.len() == 1);
    assert(sa.drop_last() =~= Seq::<ScheduledBlock>::empty());
    assert(sb.drop_last() =~= Seq::<ScheduledBlock>::empty());
    assert(sa.last() == a && sb.last() == b);
    assert(xor_hashes(Seq::<ScheduledBlock>::empty(), start) == start);
    assert(xor_hashes(sa, start) == start ^ block_hash(a));
    assert(xor_hashes(sb, start) == start ^ block_hash(b));
    assert(schedule_key(seq![a]) == start ^ block_hash(a));
    assert(schedule_key(seq![b]) == start ^ block_hash(b));
    let ha = block_hash(a);
    let hb = block_hash(b);
    assert(ha != hb ==> start ^ ha != start ^ hb) by (bit_vector);
}

/// The key of a schedule does not depend on the order of its placements
/// when two neighbouring placements swap.
pub proof fn lemma_key_swap(s: Seq<ScheduledBlock>, i: int)
    requires
        0 <= i,
        i + 1 < s.len(),
    ensures
        schedule_key(s) == schedule_key(s.update(i, s[i + 1]).update(i + 1, s[i])),
{
    let t = s.update(i, s[i + 1]).update(i + 1, s[i]);
    let start = mix(FNV_OFFSET, s.len() as u64);
    lemma_xor_swap(s, t, i, start);
}

/// The key of a schedule does not depend on the order of its placements:
/// any reordering of them has the same key.
pub proof fn lemma_key_permutation(s: Seq<ScheduledBlock>, t: Seq<ScheduledBlock>)
    requires
        s.to_multiset() == t.to_multiset(),
    ensures
        schedule_key(s) == schedule_key(t),
{
    s.to_multiset_ensures();
    t.to_multiset_ensures();
    assert(s.len() == t.len());
    lemma_xor_permutation(s, t, mix(FNV_OFFSET, s.len() as u64));
}

/// Taking placement `i` out of the xor leaves its hash to xor back in.
proof fn lemma_xor_remove(s: Seq<ScheduledBlock>, i: int, start: u64)
    requires
        0 <= i < s.len(),
    ensures
        xor_hashes(s, start) == xor_hashes(s.remove(i), start) ^ block_hash(s[i]),
    decreases s.len(),
{
    if i == s.len() - 1 {
        assert(s.remove(i) =~= s.drop_last());
    } else {
        let p = s.drop_last();
        assert(p.remove(i) =~= s.remove(i).drop_last());
        assert(s.remove(i).last() == s.last());
        assert(p[i] == s[i]);
        lemma_xor_remove(p, i, start);
        let x = xor_hashes(p.remove(i), start);
        let a = block_hash(s[i]);
        let b = block_hash(s.last());
        assert(xor_hashes(s, start) == (x ^ a) ^ b);
        assert(xor_hashes(s.remove(i), start) == x ^ b);
        assert((x ^ a) ^ b == (x ^ b) ^ a) by (bit_vector);
    }
}

proof fn lemma_xor_permutation(s: Seq<ScheduledBlock>, t: Seq<ScheduledBlock>, start: u64)
    requires
        s.to_multiset() == t.to_multiset(),
    ensures
        xor_hashes(s, start) == xor_hashes(t, start),
    decreases t.len(),
{
    s.to_multiset_ensures();
    t.to_multiset_ensures();
    assert(s.len() == t.len());
    if t.len() > 0 {
        let last = t.last();
        assert(t =~= t.drop_last().push(last));
        assert(t.to_multiset().count(last) > 0);
        assert(s.contains(last));
        let i = choose|i: int| 0 <= i < s.len() && s[i] == last;
        let r = s.remove(i);
        assert(s =~= r.insert(i, last));
        assert(s.to_multiset() =~= r.to_multiset().insert(last)) by {
            r.to_multiset_ensures();
        }
        assert(t.to_multiset() =~= t.drop_last().to_multiset().insert(last)) by {
            t.drop_last().to_multiset_ensures();
        }
        assert(r.to_multiset() =~= t.drop_last().to_multiset());
        lemma_xor_permutation(r, t.drop_last(), start);
        lemma_xor_remove(s, i, start);
    }
}

proof fn lemma_xor_swap(s: Seq<ScheduledBlock>, t: Seq<ScheduledBlock>, i: int, start: u64)
    requires
        0 <= i,
        i + 1 < s.len(),
        t == s.update(i, s[i + 1]).update(i + 1, s[i]),
    ensures
        xor_hashes(s, start) == xor_hashes(t, start),
    decreases s.len(),
{
    if s.len() > i + 2 {
        assert(t.drop_last() =~= s.drop_last().update(i, s[i + 1]).update(i + 1, s[i]));
        lemma_xor_swap(s.drop_last(), t.drop_last(), i, start);
    } else {
        let p = s.drop_last().drop_last();
        assert(t.drop_last().drop_last() =~= p);
        let a = block_hash(s[i]);
        let b = block_hash(s[i + 1]);
        let x = xor_hashes(p, start);
        assert(s.drop_last().last() == s[i]);
        assert(t.drop_last().last() == s[i + 1]);
        assert(t.last() == s[i]);
        assert(s.last() == s[i + 1]);
        assert(xor_hashes(s.drop_last(), start) == x ^ a);
        assert(xor_hashes(t.drop_last(), start) == x ^ b);
        assert(xor_hashes(s, start) == (x ^ a) ^ b);
        assert(xor_hashes(t, start) == (x ^ b) ^ a);
        assert((x ^ a) ^ b == (x ^ b) ^ a) by (bit_vector);
    }
}

} // verus!
