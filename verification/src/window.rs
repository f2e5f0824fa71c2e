//! Sets of forbidden entry times, kept as closed integer intervals, and the
//! search for the earliest entry time that no interval covers.
use vstd::prelude::*;

verus! {

/// A closed interval `[left, right]` of entry times.
pub type Interval = (i64, i64);

/// `t` lies in some interval of `ivs`.
pub open spec fn covered(ivs: Seq<Interval>, t: int) -> bool {
    exists|i: int| 0 <= i < ivs.len() && #[trigger] ivs[i].0 <= t <= ivs[i].1
}

/// Every interval is non-empty.
pub open spec fn all_nonempty(ivs: Seq<Interval>) -> bool {
    forall|i: int| 0 <= i < ivs.len() ==> ivs[i].0 <= ivs[i].1
}

/// Left ends never decrease along the sequence.
pub open spec fn sorted_by_left(ivs: Seq<Interval>) -> bool {
    forall|i: int, j: int| 0 <= i < j < ivs.len() ==> ivs[i].0 <= ivs[j].0
}

/// Each interval ends before the next one starts.
pub open spec fn separated(ivs: Seq<Interval>) -> bool {
    forall|i: int, j: int| 0 <= i < j < ivs.len() ==> ivs[i].1 < ivs[j].0
}

/// The earliest time in `[min_t, max_t]` that `ivs` leaves free is `res`;
/// `None` when every time of the window is covered.
pub open spec fn is_first_free(ivs: Seq<Interval>, min_t: int, max_t: int, res: Option<i64>) -> bool {
    match res {
        Some(t) => {
            &&& min_t <= t <= max_t
            &&& !covered(ivs, t as int)
            &&& forall|s: int| min_t <= s < t ==> covered(ivs, s)
        },
        None => forall|s: int| min_t <= s <= max_t ==> covered(ivs, s),
    }
}

/// State of the left-to-right scan over intervals.
pub enum ScanState {
    Running(i64),
    Done(Option<i64>),
}

/// One step of the scan: an interval starting after `t` proves `t` free;
/// one that holds `t` pushes `t` past its right end.
pub open spec fn scan_step(st: ScanState, iv: Interval, max_t: i64) -> ScanState {
    match st {
        ScanState::Done(r) => ScanState::Done(r),
        ScanState::Running(t) => {
            if iv.0 > t {
                ScanState::Done(Some(t))
            } else if t <= iv.1 {
                if iv.1 == i64::MAX {
                    ScanState::Done(None)
                } else if iv.1 + 1 > max_t {
                    ScanState::Done(None)
                } else {
                    ScanState::Running((iv.1 + 1) as i64)
                }
            } else {
                ScanState::Running(t)
            }
        },
    }
}

/// The scan state after visiting all of `ivs` in order.
pub open spec fn scan_fold(ivs: Seq<Interval>, min_t: i64, max_t: i64) -> ScanState
    decreases ivs.len(),
{
    if ivs.len() == 0 {
        ScanState::Running(min_t)
    } else {
        scan_step(scan_fold(ivs.drop_last(), min_t, max_t), ivs.last(), max_t)
    }
}

/// The answer of a finished scan.
pub open spec fn scan_result(st: ScanState) -> Option<i64> {
    match st {
        ScanState::Running(t) => Some(t),
        ScanState::Done(r) => r,
    }
}

pub open spec fn scan_invariant(ivs: Seq<Interval>, min_t: int, max_t: int, st: ScanState) -> bool {
    match st {
        ScanState::Running(t) => {
            &&& min_t <= t <= max_t
            &&& forall|s: int| min_t <= s < t ==> covered(ivs, s)
            &&& forall|i: int| 0 <= i < ivs.len() ==> ivs[i].1 < t
        },
        ScanState::Done(Some(u)) => {
            &&& min_t <= u <= max_t
            &&& forall|s: int| min_t <= s < u ==> covered(ivs, s)
            &&& !covered(ivs, u as int)
            &&& exists|i: int| 0 <= i < ivs.len() && #[trigger] ivs[i].0 > u
        },
        ScanState::Done(None) => forall|s: int| min_t <= s <= max_t ==> covered(ivs, s),
    }
}

proof fn lemma_scan_invariant(ivs: Seq<Interval>, min_t: i64, max_t: i64)
    requires
        min_t <= max_t,
        sorted_by_left(ivs),
    ensures
        scan_invariant(ivs, min_t as int, max_t as int, scan_fold(ivs, min_t, max_t)),
    decreases ivs.len(),
{
    if ivs.len() > 0 {
        let pre = ivs.drop_last();
        let iv = ivs.last();
        let n = ivs.len() - 1;
        assert(sorted_by_left(pre));
        lemma_scan_invariant(pre, min_t, max_t);
        let st = scan_fold(pre, min_t, max_t);
        assert(forall|s: int| covered(pre, s) ==> covered(ivs, s)) by {
            assert forall|s: int| covered(pre, s) implies covered(ivs, s) by {
                let i = choose|i: int| 0 <= i < pre.len() && #[trigger] pre[i].0 <= s <= pre[i].1;
                assert(ivs[i] == pre[i]);
            }
        }
        match st {
            ScanState::Running(t) => {
                if iv.0 > t {
                    assert(ivs[n].0 > t);
                    assert forall|i: int| #![trigger ivs[i]] 0 <= i < ivs.len() implies !(ivs[i].0 <= t <= ivs[i].1) by {
                        if i < n {
                            assert(ivs[i] == pre[i]);
                        }
                    }
                } else if t <= iv.1 {
                    if iv.1 != i64::MAX && iv.1 + 1 <= max_t {
                        assert forall|s: int| min_t <= s < iv.1 + 1 implies covered(ivs, s) by {
                            if s >= t {
                                assert(ivs[n].0 <= s <= ivs[n].1);
                            }
                        }
                        assert forall|i: int| #![trigger ivs[i]] 0 <= i < ivs.len() implies ivs[i].1 < iv.1 + 1 by {
                            if i < n {
                                assert(ivs[i] == pre[i]);
                            }
                        }
                    } else {
                        assert forall|s: int| min_t <= s <= max_t implies covered(ivs, s) by {
                            if s >= t {
                                assert(ivs[n].0 <= s <= ivs[n].1);
                            }
                        }
                    }
                } else {
                    assert forall|i: int| #![trigger ivs[i]] 0 <= i < ivs.len() implies ivs[i].1 < t by {
                        if i < n {
                            assert(ivs[i] == pre[i]);
                        }
                    }
                }
            },
            ScanState::Done(Some(u)) => {
                let k = choose|i: int| 0 <= i < pre.len() && #[trigger] pre[i].0 > u;
                assert(ivs[k] == pre[k]);
                assert(ivs[k].0 <= ivs[n].0);
                assert forall|i: int| #![trigger ivs[i]] 0 <= i < ivs.len() implies !(ivs[i].0 <= u <= ivs[i].1) by {
                    if i < n {
                        assert(ivs[i] == pre[i]);
                    }
                }
            },
            ScanState::Done(None) => {},
        }
    }
}

/// Scanning intervals sorted by their left ends finds the earliest free time.
pub proof fn lemma_scan_finds_first_free(ivs: Seq<Interval>, min_t: i64, max_t: i64)
    requires
        min_t <= max_t,
        sorted_by_left(ivs),
    ensures
        is_first_free(ivs, min_t as int, max_t as int, scan_result(scan_fold(ivs, min_t, max_t))),
{
    lemma_scan_invariant(ivs, min_t, max_t);
    let st = scan_fold(ivs, min_t, max_t);
    match st {
        ScanState::Running(t) => {
            assert forall|i: int| #![trigger ivs[i]] 0 <= i < ivs.len() implies !(ivs[i].0 <= t <= ivs[i].1) by {}
        },
        _ => {},
    }
}

/// Some interval of `ivs` starts after `t`.
pub open spec fn starts_after(ivs: Seq<Interval>, t: int) -> bool {
    exists|i: int| 0 <= i < ivs.len() && #[trigger] ivs[i].0 > t
}

/// Over an empty window (`min_t > max_t`), the scan of sorted intervals
/// stops at the first interval holding `min_t` with nothing, and at the
/// first one starting after it with `min_t`.
proof fn lemma_scan_fold_past(ivs: Seq<Interval>, min_t: i64, max_t: i64)
    requires
        min_t > max_t,
        sorted_by_left(ivs),
    ensures
        scan_fold(ivs, min_t, max_t) == if covered(ivs, min_t as int) {
            ScanState::Done(None)
        } else if starts_after(ivs, min_t as int) {
            ScanState::Done(Some(min_t))
        } else {
            ScanState::Running(min_t)
        },
    decreases ivs.len(),
{
    if ivs.len() > 0 {
        let pre = ivs.drop_last();
        let iv = ivs.last();
        let n = ivs.len() - 1;
        let t = min_t as int;
        assert(sorted_by_left(pre));
        lemma_scan_fold_past(pre, min_t, max_t);
        assert(ivs[n] == iv);
        assert(covered(ivs, t) == (covered(pre, t) || (iv.0 <= t <= iv.1))) by {
            if covered(ivs, t) {
                let i = choose|i: int| 0 <= i < ivs.len() && #[trigger] ivs[i].0 <= t <= ivs[i].1;
                if i < n {
                    assert(pre[i] == ivs[i]);
                }
            }
            if covered(pre, t) {
                let i = choose|i: int| 0 <= i < pre.len() && #[trigger] pre[i].0 <= t <= pre[i].1;
                assert(ivs[i] == pre[i]);
            }
        }
        assert(starts_after(ivs, t) == (starts_after(pre, t) || iv.0 > t)) by {
            if starts_after(ivs, t) {
                let i = choose|i: int| 0 <= i < ivs.len() && #[trigger] ivs[i].0 > t;
                if i < n {
                    assert(pre[i] == ivs[i]);
                }
            }
            if starts_after(pre, t) {
                let i = choose|i: int| 0 <= i < pre.len() && #[trigger] pre[i].0 > t;
                assert(ivs[i] == pre[i]);
            }
        }
        if !covered(pre, t) && starts_after(pre, t) {
            let i = choose|i: int| 0 <= i < pre.len() && #[trigger] pre[i].0 > t;
            assert(ivs[i] == pre[i]);
            assert(ivs[i].0 <= ivs[n].0);
        }
    }
}

/// Over an empty window, a scan of sorted intervals answers `min_t` when no
/// interval holds it, and nothing when one does.
pub proof fn lemma_scan_past_window(ivs: Seq<Interval>, min_t: i64, max_t: i64)
    requires
        min_t > max_t,
        sorted_by_left(ivs),
    ensures
        scan_result(scan_fold(ivs, min_t, max_t)) == if covered(ivs, min_t as int) { None } else { Some(min_t) },
{
    lemma_scan_fold_past(ivs, min_t, max_t);
}

/// Scan state after the first `k` intervals of `ivs`.
pub open spec fn scan_prefix(ivs: Seq<Interval>, k: int, min_t: i64, max_t: i64) -> ScanState {
    scan_fold(ivs.take(k), min_t, max_t)
}

/// Index of the first interval whose right end is at least `t`; intervals
/// must be separated so that right ends increase.
pub(crate) fn first_reaching(intervals: &[Interval], t: i64) -> (pos: usize)
    requires
        separated(intervals@),
        all_nonempty(intervals@),
    ensures
        pos <= intervals@.len(),
        forall|i: int| 0 <= i < pos ==> intervals@[i].1 < t,
        forall|i: int| pos <= i < intervals@.len() ==> intervals@[i].1 >= t,
{
    let mut lo: usize = 0;
    let mut hi: usize = intervals.len();
    while lo < hi
        invariant
            lo <= hi <= intervals@.len(),
            separated(intervals@),
            all_nonempty(intervals@),
            forall|i: int| 0 <= i < lo ==> intervals@[i].1 < t,
            forall|i: int| hi <= i < intervals@.len() ==> intervals@[i].1 >= t,
        decreases hi - lo,
    {
        let mid = lo + (hi - lo) / 2;
        if intervals[mid].1 < t {
            assert forall|i: int| 0 <= i < mid + 1 implies intervals@[i].1 < t by {
                if i < mid {
                    assert(intervals@[i].1 < intervals@[mid as int].0);
                    assert(intervals@[mid as int].0 <= intervals@[mid as int].1);
                }
            }
            lo = mid + 1;
        } else {
            assert forall|i: int| mid <= i < intervals@.len() implies intervals@[i].1 >= t by {
                if i > mid {
                    assert(intervals@[mid as int].1 < intervals@[i].0);
                }
            }
            hi = mid;
        }
    }
    lo
}

/// The earliest time in `[min_t, max_t]` that no interval of `intervals`
/// covers; the intervals are sorted, non-empty and separated.
pub fn first_feasible_time(intervals: &[Interval], min_t: i64, max_t: i64) -> (res: Option<i64>)
    requires
        separated(intervals@),
        all_nonempty(intervals@),
    ensures
        is_first_free(intervals@, min_t as int, max_t as int, res),
{
    let ghost ivs = intervals@;
    let mut t = min_t;
    let mut pos = first_reaching(intervals, t);
    while pos < intervals.len()
        invariant
            ivs == intervals@,
            separated(ivs),
            all_nonempty(ivs),
            pos <= ivs.len(),
            min_t <= t,
            t == min_t || t <= max_t,
            forall|s: int| min_t <= s < t ==> covered(ivs, s),
            forall|i: int| 0 <= i < pos ==> ivs[i].1 < t,
            forall|i: int| pos <= i < ivs.len() ==> ivs[i].1 >= t,
        decreases ivs.len() - pos,
    {
        let (left, right) = intervals[pos];
        if left > t {
            assert forall|i: int| #![trigger ivs[i]] 0 <= i < ivs.len() implies !(ivs[i].0 <= t <= ivs[i].1) by {
                if i > pos {
                    assert(ivs[pos as int].1 < ivs[i].0);
                }
            }
            if t <= max_t {
                return Some(t);
            } else {
                return None;
            }
        }
        if right == i64::MAX {
            assert forall|s: int| min_t <= s <= max_t implies covered(ivs, s) by {
                if s >= t {
                    assert(ivs[pos as int].0 <= s <= ivs[pos as int].1);
                }
            }
            return None;
        }
        let next = right + 1;
        assert forall|s: int| min_t <= s < next implies covered(ivs, s) by {
            if s >= t {
                assert(ivs[pos as int].0 <= s <= ivs[pos as int].1);
            }
        }
        if next > max_t {
            return None;
        }
        assert forall|i: int| pos + 1 <= i < ivs.len() implies ivs[i].1 >= next by {
            assert(ivs[pos as int].1 < ivs[i].0);
        }
        t = next;
        pos += 1;
    }
    assert forall|i: int| #![trigger ivs[i]] 0 <= i < ivs.len() implies !(ivs[i].0 <= t <= ivs[i].1) by {}
    if t <= max_t {
        Some(t)
    } else {
        None
    }
}

/// `a` comes before or with `b` in lexicographic order.
pub open spec fn interval_le(a: Interval, b: Interval) -> bool {
    a.0 < b.0 || (a.0 == b.0 && a.1 <= b.1)
}

/// Intervals in lexicographic order.
pub open spec fn sorted_lex(ivs: Seq<Interval>) -> bool {
    forall|i: int, j: int| 0 <= i < j < ivs.len() ==> interval_le(ivs[i], ivs[j])
}

/// Each interval ends at least two before the next one starts, so no two
/// of them touch or overlap.
pub open spec fn apart(ivs: Seq<Interval>) -> bool {
    forall|i: int, j: int| 0 <= i < j < ivs.len() ==> ivs[i].1 + 1 < ivs[j].0
}

/// `v` is the left end of some interval of `ivs`.
pub open spec fn is_left_end(ivs: Seq<Interval>, v: i64) -> bool {
    exists|j: int| 0 <= j < ivs.len() && #[trigger] ivs[j].0 == v
}

/// `v` is the right end of some interval of `ivs`.
pub open spec fn is_right_end(ivs: Seq<Interval>, v: i64) -> bool {
    exists|j: int| 0 <= j < ivs.len() && #[trigger] ivs[j].1 == v
}

/// Every end of `merged` is an end of the same side in `ivs`.
pub open spec fn ends_from(merged: Seq<Interval>, ivs: Seq<Interval>) -> bool {
    forall|i: int| 0 <= i < merged.len() ==> is_left_end(ivs, #[trigger] merged[i].0) && is_right_end(ivs, merged[i].1)
}

/// Sorts intervals in lexicographic order (`slice::sort_unstable`, with
/// the order that std documents for tuples).
#[verifier::external_body]
pub(crate) fn sort_intervals(v: &mut Vec<Interval>)
    ensures
        final(v)@.to_multiset() == old(v)@.to_multiset(),
        final(v)@.len() == old(v)@.len(),
        sorted_lex(final(v)@),
{
    v.sort_unstable();
}

/// Appends to `out` the union of the sorted intervals of `sorted`, merging
/// intervals that overlap or touch: the appended intervals cover the same
/// times, are apart, and take their ends from `sorted`.
pub fn merge_sorted_intervals(sorted: &[Interval], out: &mut Vec<Interval>)
    requires
        sorted_lex(sorted@),
        all_nonempty(sorted@),
    ensures
        final(out)@.subrange(0, old(out)@.len() as int) == old(out)@,
        all_nonempty(final(out)@.skip(old(out)@.len() as int)),
        apart(final(out)@.skip(old(out)@.len() as int)),
        ends_from(final(out)@.skip(old(out)@.len() as int), sorted@),
        forall|t: int| covered(final(out)@.skip(old(out)@.len() as int), t) <==> covered(sorted@, t),
        final(out)@.len() >= old(out)@.len(),
{
    let ghost s = sorted@;
    let ghost prefix = out@;
    let start = out.len();
    let mut k: usize = 0;
    while k < sorted.len()
        invariant
            s == sorted@,
            sorted_lex(s),
            all_nonempty(s),
            start == prefix.len(),
            k <= s.len(),
            out@.len() >= start,
            out@.subrange(0, start as int) == prefix,
            all_nonempty(out@.skip(start as int)),
            apart(out@.skip(start as int)),
            ends_from(out@.skip(start as int), s),
            forall|t: int| covered(out@.skip(start as int), t) <==> covered(s.take(k as int), t),
            out@.len() > start ==> forall|j: int| k <= j < s.len() ==> out@.last().0 <= (#[trigger] s[j]).0,
            k == 0 ==> out@.len() == start,
            k > 0 ==> out@.len() > start,
        decreases s.len() - k,
    {
        let (lo, hi) = sorted[k];
        let n = out.len();
        let ghost m = out@.skip(start as int);
        if n > start {
            let last = out[n - 1];
            if last.1 == i64::MAX || lo <= last.1 + 1 {
                let nh = if hi > last.1 { hi } else { last.1 };
                out.set(n - 1, (last.0, nh));
                proof {
                    let m2 = out@.skip(start as int);
                    let li = m.len() - 1;
                    assert(m[li] == last);
                    assert(m2 == m.update(li, (last.0, nh)));
                    assert(s[k as int] == (lo, hi));
                    assert(last.0 <= lo);
                    assert forall|i: int, j: int| 0 <= i < j < m2.len() implies m2[i].1 + 1 < m2[j].0 by {
                        assert(m[i] == m2[i]);
                        assert(j == li ==> m2[j].0 == m[j].0);
                        assert(m[j].0 == m2[j].0);
                    }
                    assert forall|i: int| 0 <= i < m2.len() implies is_left_end(s, #[trigger] m2[i].0) && is_right_end(s, m2[i].1) by {
                        if i == li {
                            assert(is_left_end(s, m[li].0));
                            if hi > last.1 {
                                assert(s[k as int].1 == nh);
                            } else {
                                assert(is_right_end(s, m[li].1));
                            }
                        } else {
                            assert(m2[i] == m[i]);
                            assert(is_left_end(s, m[i].0) && is_right_end(s, m[i].1));
                        }
                    }
                    assert(s.take(k as int + 1) == s.take(k as int).push((lo, hi)));
                    assert forall|t: int| covered(m2, t) <==> covered(s.take(k as int + 1), t) by {
                        let sk = s.take(k as int);
                        let sk1 = s.take(k as int + 1);
                        if covered(m2, t) {
                            let i = choose|i: int| 0 <= i < m2.len() && #[trigger] m2[i].0 <= t <= m2[i].1;
                            if i == li {
                                if t <= last.1 {
                                    assert(m[li].0 <= t <= m[li].1);
                                    assert(covered(m, t));
                                    assert(covered(sk, t));
                                    let j = choose|j: int| 0 <= j < sk.len() && #[trigger] sk[j].0 <= t <= sk[j].1;
                                    assert(sk1[j] == sk[j]);
                                } else {
                                    assert(sk1[k as int].0 <= t <= sk1[k as int].1);
                                }
                            } else {
                                assert(m[i] == m2[i]);
                                assert(covered(m, t));
                                assert(covered(sk, t));
                                let j = choose|j: int| 0 <= j < sk.len() && #[trigger] sk[j].0 <= t <= sk[j].1;
                                assert(sk1[j] == sk[j]);
                            }
                        }
                        if covered(sk1, t) {
                            let j = choose|j: int| 0 <= j < sk1.len() && #[trigger] sk1[j].0 <= t <= sk1[j].1;
                            if j == k {
                                if t <= last.1 {
                                    assert(m2[li].0 <= t <= m2[li].1);
                                } else {
                                    assert(m2[li].0 <= t <= m2[li].1);
                                }
                            } else {
                                assert(sk[j] == sk1[j]);
                                assert(covered(sk, t));
                                assert(covered(m, t));
                                let i = choose|i: int| 0 <= i < m.len() && #[trigger] m[i].0 <= t <= m[i].1;
                                if i == li {
                                    assert(m2[li].0 <= t <= m2[li].1);
                                } else {
                                    assert(m2[i] == m[i]);
                                }
                            }
                        }
                    }
                    assert(out@.subrange(0, start as int) =~= prefix);
                    assert(out@.last() == (last.0, nh));
                }
                k += 1;
                continue;
            }
        }
        out.push((lo, hi));
        proof {
            let m2 = out@.skip(start as int);
            assert(m2 == m.push((lo, hi)));
            assert(s[k as int] == (lo, hi));
            if m.len() > 0 {
                let li = m.len() - 1;
                assert(m[li] == out@[n - 1]);
                assert(lo > m[li].1 + 1);
                assert forall|i: int| 0 <= i < li implies m[i].1 < m[li].1 by {
                    assert(m[i].1 + 1 < m[li].0);
                }
            }
            assert forall|i: int, j: int| 0 <= i < j < m2.len() implies m2[i].1 + 1 < m2[j].0 by {
                assert(m2[i] == m[i]);
                if j < m.len() {
                    assert(m2[j] == m[j]);
                } else {
                    let li = m.len() - 1;
                    if i < li {
                        assert(m[i].1 < m[li].1);
                    }
                }
            }
            assert forall|i: int| 0 <= i < m2.len() implies is_left_end(s, #[trigger] m2[i].0) && is_right_end(s, m2[i].1) by {
                if i < m.len() {
                    assert(m2[i] == m[i]);
                    assert(is_left_end(s, m[i].0) && is_right_end(s, m[i].1));
                } else {
                    assert(s[k as int].0 == m2[i].0);
                    assert(s[k as int].1 == m2[i].1);
                }
            }
            assert(s.take(k as int + 1) == s.take(k as int).push((lo, hi)));
            assert forall|t: int| covered(m2, t) <==> covered(s.take(k as int + 1), t) by {
                let sk = s.take(k as int);
                let sk1 = s.take(k as int + 1);
                if covered(m2, t) {
                    let i = choose|i: int| 0 <= i < m2.len() && #[trigger] m2[i].0 <= t <= m2[i].1;
                    if i < m.len() {
                        assert(m[i] == m2[i]);
                        assert(covered(m, t));
                        assert(covered(sk, t));
                        let j = choose|j: int| 0 <= j < sk.len() && #[trigger] sk[j].0 <= t <= sk[j].1;
                        assert(sk1[j] == sk[j]);
                    } else {
                        assert(sk1[k as int].0 <= t <= sk1[k as int].1);
                    }
                }
                if covered(sk1, t) {
                    let j = choose|j: int| 0 <= j < sk1.len() && #[trigger] sk1[j].0 <= t <= sk1[j].1;
                    if j == k {
                        assert(m2[m.len() as int].0 <= t <= m2[m.len() as int].1);
                    } else {
                        assert(sk[j] == sk1[j]);
                        assert(covered(sk, t));
                        assert(covered(m, t));
                        let i = choose|i: int| 0 <= i < m.len() && #[trigger] m[i].0 <= t <= m[i].1;
                        assert(m2[i] == m[i]);
                    }
                }
            }
            assert forall|j: int| k + 1 <= j < s.len() implies out@.last().0 <= (#[trigger] s[j]).0 by {
                assert(interval_le(s[k as int], s[j]));
            }
            assert(out@.subrange(0, start as int) =~= prefix);
        }
        k += 1;
    }
    proof {
        assert(s.take(s.len() as int) =~= s);
    }
}

/// A range `[min_x, max_x]` of x positions.
#[derive(Clone, Copy, Debug, PartialEq, Eq, Structural)]
pub struct XRange {
    pub min_x: i64,
    pub max_x: i64,
}

/// The ranges as intervals.
pub open spec fn range_intervals(ranges: Seq<XRange>) -> Seq<Interval> {
    ranges.map_values(|r: XRange| (r.min_x, r.max_x))
}

/// Replaces `ranges` by the union of its ranges: sorted, merged where they
/// overlap or touch, covering the same x positions.
pub fn merge_x_ranges(ranges: &mut Vec<XRange>)
    requires
        forall|i: int| 0 <= i < old(ranges)@.len() ==> (#[trigger] old(ranges)@[i]).min_x <= old(ranges)@[i].max_x,
    ensures
        all_nonempty(range_intervals(final(ranges)@)),
        apart(range_intervals(final(ranges)@)),
        forall|t: int| covered(range_intervals(final(ranges)@), t) <==> covered(range_intervals(old(ranges)@), t),
{
    let ghost orig = range_intervals(ranges@);
    let mut ivs: Vec<Interval> = Vec::new();
    let mut i: usize = 0;
    while i < ranges.len()
        invariant
            i <= ranges@.len(),
            orig == range_intervals(ranges@),
            ivs@ == orig.take(i as int),
        decreases ranges@.len() - i,
    {
        let r = ranges[i];
        ivs.push((r.min_x, r.max_x));
        proof {
            assert(ivs@ =~= orig.take(i as int + 1));
        }
        i += 1;
    }
    proof {
        assert(ivs@ =~= orig);
    }
    let ghost unsorted = ivs@;
    sort_intervals(&mut ivs);
    proof {
        broadcast use vstd::seq_lib::group_to_multiset_ensures;
        assert forall|k: int| 0 <= k < ivs@.len() implies ivs@[k].0 <= ivs@[k].1 by {
            assert(ivs@.contains(ivs@[k]));
            assert(ivs@.to_multiset().count(ivs@[k]) > 0);
            assert(unsorted.contains(ivs@[k]));
            let j = choose|j: int| 0 <= j < unsorted.len() && unsorted[j] == ivs@[k];
            assert(unsorted[j] == (ranges@[j].min_x, ranges@[j].max_x));
        }
        assert forall|t: int| covered(ivs@, t) <==> covered(unsorted, t) by {
            if covered(ivs@, t) {
                let k = choose|k: int| 0 <= k < ivs@.len() && #[trigger] ivs@[k].0 <= t <= ivs@[k].1;
                assert(ivs@.contains(ivs@[k]));
                assert(ivs@.to_multiset().count(ivs@[k]) > 0);
                let j = choose|j: int| 0 <= j < unsorted.len() && unsorted[j] == ivs@[k];
                assert(unsorted[j].0 <= t <= unsorted[j].1);
            }
            if covered(unsorted, t) {
                let j = choose|j: int| 0 <= j < unsorted.len() && #[trigger] unsorted[j].0 <= t <= unsorted[j].1;
                assert(unsorted.contains(unsorted[j]));
                assert(unsorted.to_multiset().count(unsorted[j]) > 0);
                let k = choose|k: int| 0 <= k < ivs@.len() && ivs@[k] == unsorted[j];
                assert(ivs@[k].0 <= t <= ivs@[k].1);
            }
        }
    }
    let mut merged: Vec<Interval> = Vec::new();
    merge_sorted_intervals(ivs.as_slice(), &mut merged);
    proof {
        assert(merged@.skip(0) =~= merged@);
    }
    let mut out: Vec<XRange> = Vec::new();
    let mut k: usize = 0;
    while k < merged.len()
        invariant
            k <= merged@.len(),
            out@.len() == k,
            range_intervals(out@) == merged@.take(k as int),
        decreases merged@.len() - k,
    {
        let (lo, hi) = merged[k];
        let ghost out0 = out@;
        out.push(XRange { min_x: lo, max_x: hi });
        proof {
            assert forall|j: int| 0 <= j < k + 1 implies range_intervals(out@)[j] == merged@.take(k as int + 1)[j] by {
                if j < k {
                    assert(out@[j] == out0[j]);
                    assert(range_intervals(out0)[j] == merged@.take(k as int)[j]);
                } else {
                    assert(out@[j] == XRange { min_x: lo, max_x: hi });
                }
            }
            assert(range_intervals(out@) =~= merged@.take(k as int + 1));
        }
        k += 1;
    }
    proof {
        assert(merged@.take(merged@.len() as int) =~= merged@);
    }
    *ranges = out;
}

} // verus!
