//! A two-level bitset of active interval slots, and the earliest-free-time
//! scan over the intervals whose slots are active.
use vstd::prelude::*;
use vstd::std_specs::bits::{u64_trailing_zeros, axiom_u64_trailing_zeros};

use crate::window::{scan_fold, scan_result, scan_step, ScanState, Interval};

verus! {

/// Bit `b` of `w` is set.
pub open spec fn bit(w: u64, b: int) -> bool {
    ((w >> (b as u64)) & 1u64) == 1u64
}

proof fn lemma_bit_or(w: u64, b: u64, j: u64)
    requires
        b < 64,
        j < 64,
    ensures
        (((w | (1u64 << b)) >> j) & 1u64 == 1u64) == (j == b || (w >> j) & 1u64 == 1u64),
{
    assert((((w | (1u64 << b)) >> j) & 1u64 == 1u64) == (j == b || (w >> j) & 1u64 == 1u64)) by (bit_vector)
        requires
            b < 64,
            j < 64,
    ;
}

proof fn lemma_bit_and_not(w: u64, b: u64, j: u64)
    requires
        b < 64,
        j < 64,
    ensures
        (((w & !(1u64 << b)) >> j) & 1u64 == 1u64) == (j != b && (w >> j) & 1u64 == 1u64),
{
    assert((((w & !(1u64 << b)) >> j) & 1u64 == 1u64) == (j != b && (w >> j) & 1u64 == 1u64)) by (bit_vector)
        requires
            b < 64,
            j < 64,
    ;
}

proof fn lemma_bit_zero(j: u64)
    requires
        j < 64,
    ensures
        (0u64 >> j) & 1u64 != 1u64,
{
    assert((0u64 >> j) & 1u64 != 1u64) by (bit_vector);
}

/// A word is zero exactly when none of its 64 bits is set.
proof fn lemma_word_zero(w: u64)
    ensures
        (w == 0) <==> (forall|j: int| 0 <= j < 64 ==> !#[trigger] bit(w, j)),
{
    if w == 0 {
        assert forall|j: int| 0 <= j < 64 implies !#[trigger] bit(w, j) by {
            lemma_bit_zero(j as u64);
        }
    } else {
        axiom_u64_trailing_zeros(w);
        let t = u64_trailing_zeros(w);
        assert(bit(w, t as int));
    }
}

/// Clearing the lowest set bit keeps every other bit.
proof fn lemma_clear_lowest(w: u64, j: u64)
    requires
        w != 0,
        j < 64,
    ensures
        (((w & ((w - 1) as u64)) >> j) & 1u64 == 1u64) == (j != u64_trailing_zeros(w) as u64 && (w >> j) & 1u64 == 1u64),
        j < u64_trailing_zeros(w) ==> (w >> j) & 1u64 != 1u64,
        u64_trailing_zeros(w) < 64,
        (w >> (u64_trailing_zeros(w) as u64)) & 1u64 == 1u64,
{
    axiom_u64_trailing_zeros(w);
    let t = u64_trailing_zeros(w) as u64;
    assert(w << ((64 - t) as u64) == 0);
    assert((((w & ((w - 1) as u64)) >> j) & 1u64 == 1u64) == (j != t && (w >> j) & 1u64 == 1u64)) by (bit_vector)
        requires
            w != 0,
            j < 64,
            t < 64,
            (w >> t) & 1u64 == 1u64,
            w << ((64 - t) as u64) == 0,
    ;
    assert(j < t ==> (w >> j) & 1u64 != 1u64) by (bit_vector)
        requires
            t < 64,
            w << ((64 - t) as u64) == 0,
    ;
}

proof fn lemma_and_pred_smaller(w: u64)
    requires
        w != 0,
    ensures
        (w & ((w - 1) as u64)) < w,
{
    assert((w & ((w - 1) as u64)) < w) by (bit_vector)
        requires
            w != 0,
    ;
}

/// Up to two slot numbers, kept in a fixed array.
#[derive(Clone, Copy, Debug)]
pub struct SlotSet {
    pub slots: [u32; 2],
    pub len: u8,
}

impl SlotSet {
    pub open spec fn wf(&self) -> bool {
        self.len <= 2
    }

    pub open spec fn view(&self) -> Seq<u32> {
        self.slots@.subrange(0, self.len as int)
    }

    /// The empty set.
    pub fn empty() -> (res: Self)
        ensures
            res.wf(),
            res.view().len() == 0,
    {
        SlotSet { slots: [0, 0], len: 0 }
    }

    /// The slot numbers held, as a slice.
    pub fn as_slice(&self) -> (res: &[u32])
        requires
            self.wf(),
        ensures
            res@ == self.view(),
    {
        let all = self.slots.as_slice();
        &all[0..self.len as usize]
    }
}

/// Active slots as bits of `words`, and in `summary` one bit per word that
/// tells whether the word has any bit set.
pub struct ActiveIntervalSlots {
    pub words: Vec<u64>,
    pub summary: Vec<u64>,
}

impl ActiveIntervalSlots {
    pub open spec fn wf(&self) -> bool {
        &&& self.words@.len() <= self.summary@.len() * 64
        &&& self.summary@.len() * 64 * 64 < usize::MAX
        &&& forall|w: int| #![trigger bit(self.summary@[w / 64], w % 64)]
            0 <= w < self.summary@.len() * 64 ==> (bit(self.summary@[w / 64], w % 64) <==> (w < self.words@.len() && self.words@[w] != 0))
    }

    /// Number of slots the bitset can hold.
    pub open spec fn capacity(&self) -> int {
        (self.words@.len() * 64) as int
    }

    /// Slot `s` is active.
    pub open spec fn active(&self, s: int) -> bool {
        0 <= s < self.words@.len() * 64 && bit(self.words@[s / 64], s % 64)
    }

    /// Intervals of the active slots below `n`, in increasing slot order.
    pub open spec fn active_prefix(&self, intervals: Seq<Interval>, n: int) -> Seq<Interval>
        decreases n,
    {
        if n <= 0 {
            Seq::empty()
        } else if self.active(n - 1) {
            self.active_prefix(intervals, n - 1).push(intervals[n - 1])
        } else {
            self.active_prefix(intervals, n - 1)
        }
    }

    /// Intervals of all active slots, in increasing slot order.
    pub open spec fn active_intervals(&self, intervals: Seq<Interval>) -> Seq<Interval> {
        self.active_prefix(intervals, self.capacity())
    }

    /// A bitset with room for `slot_count` slots, none active.
    pub fn new(slot_count: usize) -> (res: Self)
        requires
            slot_count < usize::MAX / 64,
        ensures
            res.wf(),
            res.capacity() >= slot_count,
            forall|s: int| !res.active(s),
    {
        let word_count = slot_count / 64 + if slot_count % 64 != 0 { 1 } else { 0 };
        let summary_count = word_count / 64 + if word_count % 64 != 0 { 1 } else { 0 };
        let words = vec![0u64; word_count];
        let summary = vec![0u64; summary_count];
        let res = ActiveIntervalSlots { words, summary };
        proof {
            assert forall|w: int| #![trigger bit(res.summary@[w / 64], w % 64)]
                0 <= w < res.summary@.len() * 64 implies (bit(res.summary@[w / 64], w % 64) <==> (w < res.words@.len() && res.words@[w] != 0)) by {
                lemma_bit_zero((w % 64) as u64);
            }
            assert forall|s: int| !res.active(s) by {
                if 0 <= s < res.words@.len() * 64 {
                    lemma_bit_zero((s % 64) as u64);
                }
            }
        }
        res
    }

    /// Deactivates every slot.
    pub fn clear(&mut self)
        requires
            old(self).wf(),
        ensures
            final(self).wf(),
            final(self).words@.len() == old(self).words@.len(),
            final(self).summary@.len() == old(self).summary@.len(),
            forall|s: int| !final(self).active(s),
    {
        let mut i: usize = 0;
        while i < self.words.len()
            invariant
                i <= self.words@.len(),
                self.words@.len() == old(self).words@.len(),
                self.summary@ == old(self).summary@,
                forall|k: int| 0 <= k < i ==> self.words@[k] == 0,
            decreases self.words@.len() - i,
        {
            self.words.set(i, 0);
            i += 1;
        }
        let mut i: usize = 0;
        while i < self.summary.len()
            invariant
                i <= self.summary@.len(),
                self.summary@.len() == old(self).summary@.len(),
                self.words@.len() == old(self).words@.len(),
                forall|k: int| 0 <= k < self.words@.len() ==> self.words@[k] == 0,
                forall|k: int| 0 <= k < i ==> self.summary@[k] == 0,
            decreases self.summary@.len() - i,
        {
            self.summary.set(i, 0);
            i += 1;
        }
        proof {
            assert forall|w: int| #![trigger bit(self.summary@[w / 64], w % 64)]
                0 <= w < self.summary@.len() * 64 implies (bit(self.summary@[w / 64], w % 64) <==> (w < self.words@.len() && self.words@[w] != 0)) by {
                lemma_bit_zero((w % 64) as u64);
            }
            assert forall|s: int| !self.active(s) by {
                if 0 <= s < self.words@.len() * 64 {
                    lemma_bit_zero((s % 64) as u64);
                }
            }
        }
    }

    /// Sets whether `slot` is active.
    pub fn set(&mut self, slot: usize, active: bool)
        requires
            old(self).wf(),
            slot < old(self).capacity(),
        ensures
            final(self).wf(),
            final(self).words@.len() == old(self).words@.len(),
            final(self).summary@.len() == old(self).summary@.len(),
            final(self).active(slot as int) == active,
            forall|s: int| s != slot ==> final(self).active(s) == old(self).active(s),
    {
        let word_idx = slot / 64;
        let b = (slot % 64) as u64;
        let bitmask = 1u64 << b;
        let old_word = self.words[word_idx];
        let was_empty = old_word == 0;
        let new_word = if active { old_word | bitmask } else { old_word & !bitmask };
        self.words.set(word_idx, new_word);
        let is_empty = new_word == 0;
        proof {
            assert forall|j: int| 0 <= j < 64 implies #[trigger] bit(new_word, j) == (if j == b { active } else { bit(old_word, j) }) by {
                if active {
                    lemma_bit_or(old_word, b, j as u64);
                } else {
                    lemma_bit_and_not(old_word, b, j as u64);
                }
            }
        }
        if was_empty != is_empty {
            let summary_idx = word_idx / 64;
            let sb = (word_idx % 64) as u64;
            let summary_bit = 1u64 << sb;
            let old_summary = self.summary[summary_idx];
            let new_summary = if is_empty { old_summary & !summary_bit } else { old_summary | summary_bit };
            self.summary.set(summary_idx, new_summary);
            proof {
                assert forall|j: int| 0 <= j < 64 implies #[trigger] bit(new_summary, j) == (if j == sb { !is_empty } else { bit(old_summary, j) }) by {
                    if is_empty {
                        lemma_bit_and_not(old_summary, sb, j as u64);
                    } else {
                        lemma_bit_or(old_summary, sb, j as u64);
                    }
                }
            }
        }
        proof {
            assert forall|w: int| #![trigger bit(self.summary@[w / 64], w % 64)]
                0 <= w < self.summary@.len() * 64 implies (bit(self.summary@[w / 64], w % 64) <==> (w < self.words@.len() && self.words@[w] != 0)) by {
                if w / 64 == word_idx / 64 && w % 64 == word_idx % 64 {
                    assert(w == word_idx);
                } else if w / 64 == word_idx / 64 {
                    assert(w != word_idx);
                } else {
                    assert(w != word_idx);
                }
            }
            assert forall|s: int| s != slot implies self.active(s) == old(self).active(s) by {
                if 0 <= s < self.words@.len() * 64 && s / 64 == word_idx {
                    assert(s % 64 != b);
                }
            }
        }
    }

    /// Sets whether each slot of `slots` is active.
    pub fn set_all(&mut self, slots: SlotSet, active: bool)
        requires
            old(self).wf(),
            slots.wf(),
            forall|i: int| 0 <= i < slots.view().len() ==> (slots.view()[i] as int) < old(self).capacity(),
        ensures
            final(self).wf(),
            final(self).words@.len() == old(self).words@.len(),
            final(self).summary@.len() == old(self).summary@.len(),
            forall|i: int| 0 <= i < slots.view().len() ==> final(self).active(slots.view()[i] as int) == active,
            forall|s: int| !slots.view().contains(s as u32) || s < 0 || s > u32::MAX ==> final(self).active(s) == old(self).active(s),
    {
        let list = slots.as_slice();
        let mut i: usize = 0;
        while i < list.len()
            invariant
                list@ == slots.view(),
                i <= list@.len(),
                self.wf(),
                self.words@.len() == old(self).words@.len(),
                self.summary@.len() == old(self).summary@.len(),
                forall|k: int| 0 <= k < list@.len() ==> (list@[k] as int) < old(self).capacity(),
                forall|k: int| 0 <= k < i ==> self.active(list@[k] as int) == active,
                forall|s: int| (forall|k: int| 0 <= k < i ==> list@[k] as int != s) ==> self.active(s) == old(self).active(s),
            decreases list@.len() - i,
        {
            self.set(list[i] as usize, active);
            i += 1;
        }
        proof {
            assert forall|s: int| !slots.view().contains(s as u32) || s < 0 || s > u32::MAX implies self.active(s) == old(self).active(s) by {
                if 0 <= s <= u32::MAX {
                    assert forall|k: int| 0 <= k < i implies list@[k] as int != s by {
                        if list@[k] as int == s {
                            assert(slots.view()[k] == s as u32);
                        }
                    }
                } else {
                    assert forall|k: int| 0 <= k < i implies list@[k] as int != s by {}
                }
            }
        }
    }
}

impl ActiveIntervalSlots {
    /// Whether slot `slot` is active.
    pub fn is_active(&self, slot: usize) -> (res: bool)
        ensures
            res == self.active(slot as int),
    {
        let word_idx = slot / 64;
        if word_idx >= self.words.len() {
            return false;
        }
        let b = (slot % 64) as u64;
        let w = self.words[word_idx];
        let r = w & (1u64 << b) != 0;
        proof {
            assert(r == bit(w, b as int)) by {
                assert(w & (1u64 << b) != 0 <==> (w >> b) & 1u64 == 1u64) by (bit_vector)
                    requires
                        b < 64,
                ;
            }
        }
        r
    }

    /// Scan state after the active slots below `n`.
    pub open spec fn fold_at(&self, intervals: Seq<Interval>, n: int, min_t: i64, max_t: i64) -> ScanState {
        scan_fold(self.active_prefix(intervals, n), min_t, max_t)
    }

    proof fn lemma_prefix_skip(&self, intervals: Seq<Interval>, a: int, b: int)
        requires
            0 <= a <= b,
            forall|s: int| a <= s < b ==> !self.active(s),
        ensures
            self.active_prefix(intervals, b) == self.active_prefix(intervals, a),
        decreases b - a,
    {
        if a < b {
            self.lemma_prefix_skip(intervals, a, b - 1);
        }
    }

    proof fn lemma_prefix_len_mono(&self, intervals: Seq<Interval>, a: int, b: int)
        requires
            0 <= a <= b,
        ensures
            self.active_prefix(intervals, a).len() <= self.active_prefix(intervals, b).len(),
        decreases b - a,
    {
        if a < b {
            self.lemma_prefix_len_mono(intervals, a, b - 1);
        }
    }

    proof fn lemma_fold_push(&self, intervals: Seq<Interval>, s: int, min_t: i64, max_t: i64)
        requires
            0 <= s,
            self.active(s),
        ensures
            self.fold_at(intervals, s + 1, min_t, max_t) == scan_step(self.fold_at(intervals, s, min_t, max_t), intervals[s], max_t),
    {
        let pre = self.active_prefix(intervals, s);
        assert(self.active_prefix(intervals, s + 1) == pre.push(intervals[s]));
        assert(pre.push(intervals[s]).drop_last() =~= pre);
    }

    proof fn lemma_fold_done(&self, intervals: Seq<Interval>, a: int, b: int, min_t: i64, max_t: i64, r: Option<i64>)
        requires
            0 <= a <= b,
            self.fold_at(intervals, a, min_t, max_t) == ScanState::Done(r),
        ensures
            self.fold_at(intervals, b, min_t, max_t) == ScanState::Done(r),
        decreases b - a,
    {
        if a < b {
            self.lemma_fold_done(intervals, a, b - 1, min_t, max_t, r);
            let pre = self.active_prefix(intervals, b - 1);
            if self.active(b - 1) {
                assert(pre.push(intervals[b - 1]).drop_last() =~= pre);
            }
        }
    }

    /// The earliest time of `[min_t, max_t]` that the intervals of the
    /// active slots leave free, scanning slots in increasing order; counts
    /// the intervals visited in `visits`.
    fn first_feasible_time_impl(&self, intervals: &[Interval], min_t: i64, max_t: i64, visits: &mut u64) -> (res: Option<i64>)
        requires
            self.wf(),
            forall|s: int| self.active(s) ==> s < intervals@.len(),
        ensures
            res == scan_result(scan_fold(self.active_intervals(intervals@), min_t, max_t)),
            *final(visits) >= *old(visits),
            *final(visits) <= *old(visits) + self.active_intervals(intervals@).len(),
    {
        let ghost ivs = intervals@;
        let ghost cap = self.capacity();
        let mut t = min_t;
        let mut summary_idx: usize = 0;
        let ghost mut p: int = 0;
        while summary_idx < self.summary.len()
            invariant
                self.wf(),
                ivs == intervals@,
                cap == self.capacity(),
                forall|s: int| self.active(s) ==> s < ivs.len(),
                summary_idx <= self.summary@.len(),
                p == summary_idx * 4096,
                min_t <= t,
                t <= max_t || t == min_t,
                self.fold_at(ivs, p, min_t, max_t) == ScanState::Running(t),
                *visits >= *old(visits),
                *visits <= *old(visits) + self.active_prefix(ivs, p).len(),
            decreases self.summary@.len() - summary_idx,
        {
            let summary_word = self.summary[summary_idx];
            let mut sbits = summary_word;
            let ghost mut q: int = summary_idx * 64;
            while sbits != 0
                invariant
                    self.wf(),
                    ivs == intervals@,
                    cap == self.capacity(),
                    forall|s: int| self.active(s) ==> s < ivs.len(),
                    summary_idx < self.summary@.len(),
                    summary_word == self.summary@[summary_idx as int],
                    summary_idx * 64 <= q <= summary_idx * 64 + 64,
                    p == q * 64,
                    forall|k: int| 0 <= k < 64 ==> (#[trigger] bit(sbits, k) <==> (bit(summary_word, k) && summary_idx * 64 + k >= q)),
                    min_t <= t,
                t <= max_t || t == min_t,
                    self.fold_at(ivs, p, min_t, max_t) == ScanState::Running(t),
                    *visits >= *old(visits),
                *visits <= *old(visits) + self.active_prefix(ivs, p).len(),
                decreases sbits,
            {
                let word_offset = sbits.trailing_zeros() as usize;
                proof {
                    lemma_clear_lowest(sbits, 0);
                }
                let ghost wo = word_offset as int;
                let word_idx = summary_idx * 64 + word_offset;
                proof {
                    assert(bit(sbits, wo));
                    let w = word_idx as int;
                    assert(w / 64 == summary_idx as int && w % 64 == wo);
                    assert(bit(self.summary@[w / 64], w % 64));
                    assert forall|v: int| q <= v < w implies (v >= self.words@.len() || self.words@[v] == 0) by {
                        let k = v - summary_idx * 64;
                        lemma_clear_lowest(sbits, k as u64);
                        assert(!bit(sbits, k));
                        assert(v / 64 == summary_idx as int && v % 64 == k);
                        assert(!bit(self.summary@[v / 64], v % 64));
                    }
                    assert forall|s: int| p <= s < w * 64 implies !self.active(s) by {
                        if self.active(s) {
                            let v = s / 64;
                            assert(q <= v < w);
                            lemma_word_zero(self.words@[v]);
                            assert(bit(self.words@[v], s % 64));
                        }
                    }
                    self.lemma_prefix_skip(ivs, p, w * 64);
                    p = w * 64;
                }
                let word_value = self.words[word_idx];
                let mut word = word_value;
                while word != 0
                    invariant
                        self.wf(),
                        ivs == intervals@,
                        cap == self.capacity(),
                        forall|s: int| self.active(s) ==> s < ivs.len(),
                        word_idx < self.words@.len(),
                        word_value == self.words@[word_idx as int],
                        word_idx * 64 <= p <= word_idx * 64 + 64,
                        forall|j: int| 0 <= j < 64 ==> (#[trigger] bit(word, j) <==> (bit(word_value, j) && word_idx * 64 + j >= p)),
                        min_t <= t,
                t <= max_t || t == min_t,
                        self.fold_at(ivs, p, min_t, max_t) == ScanState::Running(t),
                        *visits >= *old(visits),
                *visits <= *old(visits) + self.active_prefix(ivs, p).len(),
                    decreases word,
                {
                    let b = word.trailing_zeros() as usize;
                    proof {
                        lemma_clear_lowest(word, 0);
                    }
                    let slot = word_idx * 64 + b;
                    proof {
                        let bb = b as int;
                        assert(bit(word, bb));
                        assert(slot as int / 64 == word_idx as int && slot as int % 64 == bb);
                        assert(self.active(slot as int));
                        assert forall|s: int| p <= s < slot implies !self.active(s) by {
                            let j = s - word_idx * 64;
                            lemma_clear_lowest(word, j as u64);
                            assert(!bit(word, j));
                            assert(s / 64 == word_idx as int && s % 64 == j);
                        }
                        self.lemma_prefix_skip(ivs, p, slot as int);
                        self.lemma_fold_push(ivs, slot as int, min_t, max_t);
                        assert(self.active_prefix(ivs, slot as int + 1).len() == self.active_prefix(ivs, p).len() + 1);
                        self.lemma_prefix_len_mono(ivs, slot as int + 1, cap);
                    }
                    let (l, r) = intervals[slot];
                    if *visits < u64::MAX {
                        *visits = *visits + 1;
                    }
                    if l > t {
                        proof {
                            self.lemma_fold_done(ivs, slot as int + 1, cap, min_t, max_t, Some(t));
                        }
                        return Some(t);
                    }
                    if t <= r {
                        if r == i64::MAX {
                            proof {
                                self.lemma_fold_done(ivs, slot as int + 1, cap, min_t, max_t, None);
                            }
                            return None;
                        }
                        t = r + 1;
                        if t > max_t {
                            proof {
                                self.lemma_fold_done(ivs, slot as int + 1, cap, min_t, max_t, None);
                            }
                            return None;
                        }
                    }
                    proof {
                        assert forall|j: int| 0 <= j < 64 implies (#[trigger] bit((word & ((word - 1) as u64)), j) <==> (bit(word_value, j) && word_idx * 64 + j >= slot + 1)) by {
                            lemma_clear_lowest(word, j as u64);
                            if j < b as int {
                                assert(!bit(word, j));
                            } else if j == b as int {
                            } else {
                                assert(bit(word, j) <==> bit(word_value, j));
                            }
                        }
                        lemma_and_pred_smaller(word);
                        p = slot + 1;
                    }
                    word = word & (word - 1);
                }
                proof {
                    assert forall|s: int| p <= s < word_idx * 64 + 64 implies !self.active(s) by {
                        let j = s - word_idx * 64;
                        lemma_bit_zero(j as u64);
                        assert(s / 64 == word_idx as int && s % 64 == j);
                        assert(!bit(word, j));
                    }
                    self.lemma_prefix_skip(ivs, p, word_idx * 64 + 64);
                    p = word_idx * 64 + 64;
                    assert forall|k: int| 0 <= k < 64 implies (#[trigger] bit((sbits & ((sbits - 1) as u64)), k) <==> (bit(summary_word, k) && summary_idx * 64 + k >= word_idx + 1)) by {
                        lemma_clear_lowest(sbits, k as u64);
                        if k < wo {
                            assert(!bit(sbits, k));
                        } else if k == wo {
                        } else {
                            assert(bit(sbits, k) <==> bit(summary_word, k));
                        }
                    }
                    lemma_and_pred_smaller(sbits);
                    q = word_idx + 1;
                }
                sbits = sbits & (sbits - 1);
            }
            proof {
                assert forall|s: int| p <= s < (summary_idx + 1) * 4096 implies !self.active(s) by {
                    if self.active(s) {
                        let v = s / 64;
                        let k = v - summary_idx * 64;
                        assert(v / 64 == summary_idx as int && v % 64 == k);
                        lemma_bit_zero(k as u64);
                        assert(!bit(sbits, k));
                        lemma_word_zero(self.words@[v]);
                        assert(bit(self.words@[v], s % 64));
                        assert(bit(self.summary@[v / 64], v % 64));
                    }
                }
                self.lemma_prefix_skip(ivs, p, (summary_idx + 1) * 4096);
                p = (summary_idx + 1) * 4096;
            }
            summary_idx += 1;
        }
        proof {
            assert forall|s: int| cap <= s < p implies !self.active(s) by {}
            self.lemma_prefix_skip(ivs, cap, p);
        }
        Some(t)
    }
}

impl ActiveIntervalSlots {
    /// Some active slot's interval holds `t`.
    pub open spec fn covered_by_active(&self, intervals: Seq<Interval>, t: int) -> bool {
        exists|s: int| #![trigger intervals[s]] self.active(s) && intervals[s].0 <= t <= intervals[s].1
    }

    /// Some active slot below `n` has an interval holding `t`.
    pub open spec fn covered_below(&self, intervals: Seq<Interval>, n: int, t: int) -> bool {
        exists|s: int| #![trigger intervals[s]] 0 <= s < n && self.active(s) && intervals[s].0 <= t <= intervals[s].1
    }

    proof fn lemma_cover_prefix(&self, intervals: Seq<Interval>, n: int, t: int)
        requires
            0 <= n,
        ensures
            crate::window::covered(self.active_prefix(intervals, n), t) <==> self.covered_below(intervals, n, t),
        decreases n,
    {
        if n > 0 {
            self.lemma_cover_prefix(intervals, n - 1, t);
            let pre = self.active_prefix(intervals, n - 1);
            let cur = self.active_prefix(intervals, n);
            if self.active(n - 1) {
                assert(cur == pre.push(intervals[n - 1]));
                if crate::window::covered(cur, t) {
                    let i = choose|i: int| 0 <= i < cur.len() && #[trigger] cur[i].0 <= t <= cur[i].1;
                    if i < pre.len() {
                        assert(pre[i] == cur[i]);
                        assert(crate::window::covered(pre, t));
                        let s = choose|s: int| #![trigger intervals[s]] 0 <= s < n - 1 && self.active(s) && intervals[s].0 <= t <= intervals[s].1;
                        assert(intervals[s].0 <= t);
                    } else {
                        assert(intervals[n - 1].0 <= t);
                    }
                }
                if self.covered_below(intervals, n, t) {
                    let s = choose|s: int| #![trigger intervals[s]] 0 <= s < n && self.active(s) && intervals[s].0 <= t <= intervals[s].1;
                    if s < n - 1 {
                        assert(self.covered_below(intervals, n - 1, t));
                        let i = choose|i: int| 0 <= i < pre.len() && #[trigger] pre[i].0 <= t <= pre[i].1;
                        assert(cur[i] == pre[i]);
                    } else {
                        assert(cur[pre.len() as int] == intervals[n - 1]);
                    }
                }
            } else {
                assert(cur == pre);
                if self.covered_below(intervals, n, t) {
                    let s = choose|s: int| #![trigger intervals[s]] 0 <= s < n && self.active(s) && intervals[s].0 <= t <= intervals[s].1;
                    assert(s < n - 1);
                    assert(self.covered_below(intervals, n - 1, t));
                }
            }
        } else {
            assert(self.active_prefix(intervals, n) =~= Seq::<Interval>::empty());
        }
    }

    /// The active intervals are exactly the intervals of active slots, so
    /// the times they cover are those some active slot covers.
    pub proof fn lemma_active_cover(&self, intervals: Seq<Interval>, t: int)
        ensures
            crate::window::covered(self.active_intervals(intervals), t) <==> self.covered_by_active(intervals, t),
    {
        let n = self.capacity();
        self.lemma_cover_prefix(intervals, n, t);
        if self.covered_by_active(intervals, t) {
            let s = choose|s: int| #![trigger intervals[s]] self.active(s) && intervals[s].0 <= t <= intervals[s].1;
            assert(self.covered_below(intervals, n, t));
        }
    }

    /// Intervals of active slots keep the slot order, so they stay sorted by
    /// left end when all intervals are.
    proof fn lemma_prefix_sorted(&self, intervals: Seq<Interval>, n: int)
        requires
            0 <= n <= intervals.len(),
            crate::window::sorted_by_left(intervals),
        ensures
            crate::window::sorted_by_left(self.active_prefix(intervals, n)),
            forall|i: int, k: int| 0 <= i < self.active_prefix(intervals, n).len() && n <= k < intervals.len()
                ==> #[trigger] self.active_prefix(intervals, n)[i].0 <= #[trigger] intervals[k].0,
        decreases n,
    {
        if n > 0 {
            self.lemma_prefix_sorted(intervals, n - 1);
            let pre = self.active_prefix(intervals, n - 1);
            let cur = self.active_prefix(intervals, n);
            if self.active(n - 1) {
                assert(cur == pre.push(intervals[n - 1]));
                assert forall|i: int, k: int| 0 <= i < cur.len() && n <= k < intervals.len()
                    implies #[trigger] cur[i].0 <= #[trigger] intervals[k].0 by {
                    if i < pre.len() {
                        assert(cur[i] == pre[i]);
                    }
                }
                assert forall|i: int, j: int| 0 <= i < j < cur.len() implies cur[i].0 <= cur[j].0 by {
                    if j < pre.len() {
                        assert(cur[i] == pre[i] && cur[j] == pre[j]);
                    } else {
                        assert(cur[i] == pre[i]);
                        assert(pre[i].0 <= intervals[n - 1].0);
                    }
                }
            } else {
                assert(cur == pre);
            }
        }
    }

    /// The earliest time of `[min_t, max_t]` that no active interval covers.
    /// Slots number the intervals in the order of their left ends, so the
    /// answer is the earliest free time. Over an empty window
    /// (`min_t > max_t`) the answer is `min_t` itself where it is free.
    pub fn first_feasible_time(&self, intervals: &[Interval], min_t: i64, max_t: i64) -> (res: Option<i64>)
        requires
            self.wf(),
            forall|s: int| self.active(s) ==> s < intervals@.len(),
        ensures
            res == scan_result(scan_fold(self.active_intervals(intervals@), min_t, max_t)),
            crate::window::sorted_by_left(intervals@) && min_t <= max_t ==>
                crate::window::is_first_free(self.active_intervals(intervals@), min_t as int, max_t as int, res),
            crate::window::sorted_by_left(intervals@) && min_t > max_t ==>
                res == if crate::window::covered(self.active_intervals(intervals@), min_t as int) { None } else { Some(min_t) },
    {
        let mut visits: u64 = 0;
        let res = self.first_feasible_time_impl(intervals, min_t, max_t, &mut visits);
        proof {
            if crate::window::sorted_by_left(intervals@) {
                let n = self.capacity();
                if n <= intervals@.len() {
                    self.lemma_prefix_sorted(intervals@, n);
                } else {
                    self.lemma_prefix_skip(intervals@, intervals@.len() as int, n);
                    self.lemma_prefix_sorted(intervals@, intervals@.len() as int);
                }
                if min_t <= max_t {
                    crate::window::lemma_scan_finds_first_free(self.active_intervals(intervals@), min_t, max_t);
                } else {
                    crate::window::lemma_scan_past_window(self.active_intervals(intervals@), min_t, max_t);
                }
            }
        }
        res
    }

    /// `first_feasible_time`, adding to the counters the scans made and the
    /// intervals visited.
    pub fn first_feasible_time_profiled(
        &self,
        intervals: &[Interval],
        min_t: i64,
        max_t: i64,
        iterations: &mut u64,
        interval_visits: &mut u64,
        forbidden_intervals: &mut u64,
    ) -> (res: Option<i64>)
        requires
            self.wf(),
            forall|s: int| self.active(s) ==> s < intervals@.len(),
        ensures
            res == scan_result(scan_fold(self.active_intervals(intervals@), min_t, max_t)),
            *final(iterations) == if *old(iterations) < u64::MAX { (*old(iterations) + 1) as u64 } else { *old(iterations) },
            *old(interval_visits) <= *final(interval_visits) <= *old(interval_visits) + self.active_intervals(intervals@).len(),
            *old(forbidden_intervals) <= *final(forbidden_intervals) <= *old(forbidden_intervals) + self.active_intervals(intervals@).len(),
    {
        if *iterations < u64::MAX {
            *iterations = *iterations + 1;
        }
        let mut visits: u64 = 0;
        let res = self.first_feasible_time_impl(intervals, min_t, max_t, &mut visits);
        *interval_visits = interval_visits.saturating_add(visits);
        *forbidden_intervals = forbidden_intervals.saturating_add(visits);
        res
    }
}

impl ActiveIntervalSlots {
    /// The intervals of the active slots, in increasing slot order.
    pub fn iter(&self, intervals: &[Interval]) -> (res: Vec<Interval>)
        requires
            self.wf(),
            forall|s: int| self.active(s) ==> s < intervals@.len(),
        ensures
            res@ == self.active_intervals(intervals@),
    {
        let ghost ivs = intervals@;
        let ghost cap = self.capacity();
        let mut out: Vec<Interval> = Vec::new();
        let mut summary_idx: usize = 0;
        let ghost mut p: int = 0;
        while summary_idx < self.summary.len()
            invariant
                self.wf(),
                ivs == intervals@,
                cap == self.capacity(),
                forall|s: int| self.active(s) ==> s < ivs.len(),
                summary_idx <= self.summary@.len(),
                p == summary_idx * 4096,
                out@ == self.active_prefix(ivs, p),
            decreases self.summary@.len() - summary_idx,
        {
            let summary_word = self.summary[summary_idx];
            let mut sbits = summary_word;
            let ghost mut q: int = summary_idx * 64;
            while sbits != 0
                invariant
                    self.wf(),
                    ivs == intervals@,
                    cap == self.capacity(),
                    forall|s: int| self.active(s) ==> s < ivs.len(),
                    summary_idx < self.summary@.len(),
                    summary_word == self.summary@[summary_idx as int],
                    summary_idx * 64 <= q <= summary_idx * 64 + 64,
                    p == q * 64,
                    forall|k: int| 0 <= k < 64 ==> (#[trigger] bit(sbits, k) <==> (bit(summary_word, k) && summary_idx * 64 + k >= q)),
                    out@ == self.active_prefix(ivs, p),
                decreases sbits,
            {
                let word_offset = sbits.trailing_zeros() as usize;
                proof {
                    lemma_clear_lowest(sbits, 0);
                }
                let ghost wo = word_offset as int;
                let word_idx = summary_idx * 64 + word_offset;
                proof {
                    assert(bit(sbits, wo));
                    let w = word_idx as int;
                    assert(w / 64 == summary_idx as int && w % 64 == wo);
                    assert(bit(self.summary@[w / 64], w % 64));
                    assert forall|v: int| q <= v < w implies (v >= self.words@.len() || self.words@[v] == 0) by {
                        let k = v - summary_idx * 64;
                        lemma_clear_lowest(sbits, k as u64);
                        assert(!bit(sbits, k));
                        assert(v / 64 == summary_idx as int && v % 64 == k);
                        assert(!bit(self.summary@[v / 64], v % 64));
                    }
                    assert forall|s: int| p <= s < w * 64 implies !self.active(s) by {
                        if self.active(s) {
                            let v = s / 64;
                            assert(q <= v < w);
                            lemma_word_zero(self.words@[v]);
                            assert(bit(self.words@[v], s % 64));
                        }
                    }
                    self.lemma_prefix_skip(ivs, p, w * 64);
                    p = w * 64;
                }
                let word_value = self.words[word_idx];
                let mut word = word_value;
                while word != 0
                    invariant
                        self.wf(),
                        ivs == intervals@,
                        cap == self.capacity(),
                        forall|s: int| self.active(s) ==> s < ivs.len(),
                        word_idx < self.words@.len(),
                        word_value == self.words@[word_idx as int],
                        word_idx * 64 <= p <= word_idx * 64 + 64,
                        forall|j: int| 0 <= j < 64 ==> (#[trigger] bit(word, j) <==> (bit(word_value, j) && word_idx * 64 + j >= p)),
                        out@ == self.active_prefix(ivs, p),
                    decreases word,
                {
                    let b = word.trailing_zeros() as usize;
                    proof {
                        lemma_clear_lowest(word, 0);
                    }
                    let slot = word_idx * 64 + b;
                    proof {
                        let bb = b as int;
                        assert(bit(word, bb));
                        assert(slot as int / 64 == word_idx as int && slot as int % 64 == bb);
                        assert(self.active(slot as int));
                        assert forall|s: int| p <= s < slot implies !self.active(s) by {
                            let j = s - word_idx * 64;
                            lemma_clear_lowest(word, j as u64);
                            assert(!bit(word, j));
                            assert(s / 64 == word_idx as int && s % 64 == j);
                        }
                        self.lemma_prefix_skip(ivs, p, slot as int);
                        assert(self.active_prefix(ivs, slot as int + 1) == self.active_prefix(ivs, slot as int).push(ivs[slot as int]));
                    }
                    out.push(intervals[slot]);
                    proof {
                        assert forall|j: int| 0 <= j < 64 implies (#[trigger] bit((word & ((word - 1) as u64)), j) <==> (bit(word_value, j) && word_idx * 64 + j >= slot + 1)) by {
                            lemma_clear_lowest(word, j as u64);
                            if j < b as int {
                                assert(!bit(word, j));
                            } else if j == b as int {
                            } else {
                                assert(bit(word, j) <==> bit(word_value, j));
                            }
                        }
                        lemma_and_pred_smaller(word);
                        p = slot + 1;
                    }
                    word = word & (word - 1);
                }
                proof {
                    assert forall|s: int| p <= s < word_idx * 64 + 64 implies !self.active(s) by {
                        let j = s - word_idx * 64;
                        lemma_bit_zero(j as u64);
                        assert(s / 64 == word_idx as int && s % 64 == j);
                        assert(!bit(word, j));
                    }
                    self.lemma_prefix_skip(ivs, p, word_idx * 64 + 64);
                    p = word_idx * 64 + 64;
                    assert forall|k: int| 0 <= k < 64 implies (#[trigger] bit((sbits & ((sbits - 1) as u64)), k) <==> (bit(summary_word, k) && summary_idx * 64 + k >= word_idx + 1)) by {
                        lemma_clear_lowest(sbits, k as u64);
                        if k < wo {
                            assert(!bit(sbits, k));
                        } else if k == wo {
                        } else {
                            assert(bit(sbits, k) <==> bit(summary_word, k));
                        }
                    }
                    lemma_and_pred_smaller(sbits);
                    q = word_idx + 1;
                }
                sbits = sbits & (sbits - 1);
            }
            proof {
                assert forall|s: int| p <= s < (summary_idx + 1) * 4096 implies !self.active(s) by {
                    if self.active(s) {
                        let v = s / 64;
                        let k = v - summary_idx * 64;
                        assert(v / 64 == summary_idx as int && v % 64 == k);
                        lemma_bit_zero(k as u64);
                        assert(!bit(sbits, k));
                        lemma_word_zero(self.words@[v]);
                        assert(bit(self.words@[v], s % 64));
                        assert(bit(self.summary@[v / 64], v % 64));
                    }
                }
                self.lemma_prefix_skip(ivs, p, (summary_idx + 1) * 4096);
                p = (summary_idx + 1) * 4096;
            }
            summary_idx += 1;
        }
        proof {
            assert forall|s: int| cap <= s < p implies !self.active(s) by {}
            self.lemma_prefix_skip(ivs, cap, p);
        }
        out
    }
}

/// The intervals forbidden at one x position: those of the active slots,
/// with the old block that owns each slot.
#[derive(Clone, Copy)]
pub struct ForbiddenIntervals<'a> {
    pub active: &'a ActiveIntervalSlots,
    pub intervals: &'a [Interval],
    pub owners: &'a [u32],
}

/// `t` lies in an interval of `a` or of `b`.
pub open spec fn covered_either(a: Seq<Interval>, b: Seq<Interval>, t: int) -> bool {
    crate::window::covered(a, t) || crate::window::covered(b, t)
}

/// Some interval of `ivs` starts after `t` and does not end before it.
pub open spec fn lies_after(ivs: Seq<Interval>, t: int) -> bool {
    exists|i: int| 0 <= i < ivs.len() && #[trigger] ivs[i].0 > t && ivs[i].1 >= t
}

impl<'a> ForbiddenIntervals<'a> {
    pub open spec fn wf(&self) -> bool {
        &&& self.active.wf()
        &&& forall|s: int| self.active.active(s) ==> s < self.intervals@.len()
    }

    /// The earliest time of `[min_t, max_t]` that neither the sorted,
    /// separated intervals of `base` nor the active intervals cover,
    /// merging both lists in the order of their left ends. Over an empty
    /// window (`min_t > max_t`) the merge answers `min_t` only where it is
    /// free and some interval lies after it. The base intervals must be
    /// non-empty and separated so that their right ends increase: the
    /// binary search for the first one reaching `min_t` needs that order.
    pub fn first_feasible_time(self, base: &[Interval], min_t: i64, max_t: i64) -> (res: Option<i64>)
        requires
            self.wf(),
            crate::window::separated(base@),
            crate::window::all_nonempty(base@),
            crate::window::sorted_by_left(self.intervals@),
        ensures
            min_t > max_t ==> res == if !covered_either(base@, self.active.active_intervals(self.intervals@), min_t as int)
                && (lies_after(base@, min_t as int) || lies_after(self.active.active_intervals(self.intervals@), min_t as int)) {
                Some(min_t)
            } else {
                None
            },
            min_t <= max_t ==> match res {
                Some(t) => {
                    &&& min_t <= t <= max_t
                    &&& !covered_either(base@, self.active.active_intervals(self.intervals@), t as int)
                    &&& forall|s: int| min_t <= s < t ==> covered_either(base@, self.active.active_intervals(self.intervals@), s)
                },
                None => forall|s: int| min_t <= s <= max_t ==> covered_either(base@, self.active.active_intervals(self.intervals@), s),
            },
    {
        let added = self.active.iter(self.intervals);
        let ghost bs = base@;
        let ghost ad = added@;
        proof {
            let n = self.active.capacity();
            if n <= self.intervals@.len() {
                self.active.lemma_prefix_sorted(self.intervals@, n);
            } else {
                self.active.lemma_prefix_skip(self.intervals@, self.intervals@.len() as int, n);
                self.active.lemma_prefix_sorted(self.intervals@, self.intervals@.len() as int);
            }
            assert forall|i: int, j: int| 0 <= i < j < bs.len() implies bs[i].0 <= bs[j].0 by {
                assert(bs[i].1 < bs[j].0);
            }
        }
        let mut t = min_t;
        let mut base_pos = crate::window::first_reaching(base, t);
        let mut added_pos: usize = 0;
        loop
            invariant
                bs == base@,
                ad == added@,
                ad == self.active.active_intervals(self.intervals@),
                crate::window::separated(bs),
                crate::window::all_nonempty(bs),
                crate::window::sorted_by_left(bs),
                crate::window::sorted_by_left(ad),
                base_pos <= bs.len(),
                added_pos <= ad.len(),
                min_t <= t,
                t <= max_t || t == min_t,
                forall|s: int| min_t <= s < t ==> covered_either(bs, ad, s),
                forall|i: int| 0 <= i < base_pos ==> bs[i].1 < t,
                forall|i: int| 0 <= i < added_pos ==> ad[i].1 < t,
            decreases bs.len() - base_pos + ad.len() - added_pos,
        {
            let next: Interval;
            let ghost from_base: bool;
            if base_pos < base.len() && added_pos < added.len() {
                let b = base[base_pos];
                let a = added[added_pos];
                if b.0 < a.0 || (b.0 == a.0 && b.1 <= a.1) {
                    base_pos += 1;
                    next = b;
                    proof { from_base = true; }
                } else {
                    added_pos += 1;
                    next = a;
                    proof { from_base = false; }
                }
            } else if base_pos < base.len() {
                next = base[base_pos];
                base_pos += 1;
                proof { from_base = true; }
            } else if added_pos < added.len() {
                next = added[added_pos];
                added_pos += 1;
                proof { from_base = false; }
            } else {
                assert forall|i: int| #![trigger bs[i]] 0 <= i < bs.len() implies !(bs[i].0 <= t <= bs[i].1) by {}
                assert forall|i: int| #![trigger ad[i]] 0 <= i < ad.len() implies !(ad[i].0 <= t <= ad[i].1) by {}
                assert(!crate::window::covered(bs, t as int));
                assert(!crate::window::covered(ad, t as int));
                assert(ad == self.active.active_intervals(self.intervals@));
                if t <= max_t {
                    return Some(t);
                } else {
                    assert forall|i: int| 0 <= i < bs.len() implies !(#[trigger] bs[i].0 > t && bs[i].1 >= t) by {}
                    assert forall|i: int| 0 <= i < ad.len() implies !(#[trigger] ad[i].0 > t && ad[i].1 >= t) by {}
                    return None;
                }
            }
            proof {
                if from_base {
                    assert(next == bs[base_pos - 1]);
                } else {
                    assert(next == ad[added_pos - 1]);
                }
                assert forall|i: int| base_pos <= i < bs.len() implies bs[i].0 >= next.0 by {
                    if from_base {
                        assert(bs[base_pos - 1].0 <= bs[i].0);
                    } else {
                        assert(bs[base_pos as int].0 <= bs[i].0);
                    }
                }
                assert forall|i: int| added_pos <= i < ad.len() implies ad[i].0 >= next.0 by {
                    if from_base {
                        assert(ad[added_pos as int].0 <= ad[i].0);
                    } else {
                        assert(ad[added_pos - 1].0 <= ad[i].0);
                    }
                }
            }
            let (left, right) = next;
            if right < t {
                continue;
            }
            if left > t {
                assert forall|i: int| #![trigger bs[i]] 0 <= i < bs.len() implies !(bs[i].0 <= t <= bs[i].1) by {
                    if i >= base_pos {
                        assert(bs[i].0 >= left);
                    }
                }
                assert forall|i: int| #![trigger ad[i]] 0 <= i < ad.len() implies !(ad[i].0 <= t <= ad[i].1) by {
                    if i >= added_pos {
                        assert(ad[i].0 >= left);
                    }
                }
                assert(!crate::window::covered(bs, t as int));
                assert(!crate::window::covered(ad, t as int));
                assert(ad == self.active.active_intervals(self.intervals@));
                proof {
                    if from_base {
                        assert(bs[base_pos - 1].0 > t);
                    } else {
                        assert(ad[added_pos - 1].0 > t);
                    }
                }
                return Some(t);
            }
            assert forall|s: int| t <= s <= right implies covered_either(bs, ad, s) by {
                if from_base {
                    assert(bs[base_pos - 1].0 <= s <= bs[base_pos - 1].1);
                } else {
                    assert(ad[added_pos - 1].0 <= s <= ad[added_pos - 1].1);
                }
            }
            assert(covered_either(bs, ad, t as int));
            if right == i64::MAX {
                return None;
            }
            t = right + 1;
            if t > max_t {
                return None;
            }
        }
    }
}

} // verus!
