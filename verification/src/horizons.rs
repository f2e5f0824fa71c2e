//! Splitting an insertion order into horizons: consecutive ranges that
//! the optimizer works on one after another.
use vstd::prelude::*;

verus! {

/// The ranges `(start, end)` lie back to back from 0 to `len`, and none is
/// empty.
pub open spec fn partitions(ranges: Seq<(usize, usize)>, len: int) -> bool {
    &&& len == 0 <==> ranges.len() == 0
    &&& ranges.len() > 0 ==> ranges[0].0 == 0 && ranges.last().1 == len
    &&& forall|i: int| 0 <= i < ranges.len() ==> (#[trigger] ranges[i]).0 < ranges[i].1
    &&& forall|i: int| 0 <= i < ranges.len() - 1 ==> (#[trigger] ranges[i]).1 == ranges[i + 1].0
}

/// The number of horizons of at most `size` positions that `len`
/// positions need.
pub open spec fn horizon_count(len: int, size: int) -> int {
    (len + size - 1) / size
}

/// Splits `order` into `ceil(len / base_horizon_size)` ranges whose
/// lengths differ by one at most: range `i` is
/// `[len * i / count, len * (i + 1) / count)`.
pub fn build_horizons(order: &[usize], base_horizon_size: usize) -> (res: Vec<(usize, usize)>)
    requires
        base_horizon_size > 0,
        order@.len() * order@.len() <= usize::MAX,
        order@.len() + base_horizon_size <= usize::MAX,
    ensures
        res@.len() == horizon_count(order@.len() as int, base_horizon_size as int),
        forall|i: int| 0 <= i < res@.len() ==> (#[trigger] res@[i]).0 == order@.len() * i / (res@.len() as int)
            && res@[i].1 == order@.len() * (i + 1) / (res@.len() as int),
        partitions(res@, order@.len() as int),
        forall|i: int| 0 <= i < res@.len() ==> (#[trigger] res@[i]).1 - res@[i].0 <= base_horizon_size,
{
    let len = order.len();
    let count = (len + base_horizon_size - 1) / base_horizon_size;
    proof {
        lemma_count_bounds(len as int, base_horizon_size as int);
    }
    let mut res: Vec<(usize, usize)> = Vec::new();
    let mut index: usize = 0;
    while index < count
        invariant
            index <= count,
            count == horizon_count(len as int, base_horizon_size as int),
            count <= len,
            len > 0 ==> count > 0,
            len * len <= usize::MAX,
            len == order@.len(),
            res@.len() == index,
            forall|i: int| 0 <= i < index ==> (#[trigger] res@[i]).0 == len * i / (count as int) && res@[i].1 == len * (i + 1) / (count as int),
        decreases count - index,
    {
        proof {
            lemma_mul_le(len as int, index as int, len as int);
            lemma_mul_le(len as int, index + 1, len as int);
        }
        let start = len * index / count;
        let end = len * (index + 1) / count;
        res.push((start, end));
        index += 1;
    }
    proof {
        lemma_horizon_ranges(len as int, base_horizon_size as int, count as int, res@);
    }
    res
}

proof fn lemma_mul_le(a: int, b: int, c: int)
    requires
        0 <= a,
        0 <= b <= c,
    ensures
        a * b <= a * c,
{
    assert(a * b <= a * c) by (nonlinear_arith)
        requires
            0 <= a,
            0 <= b <= c,
    ;
}

proof fn lemma_count_bounds(len: int, size: int)
    requires
        len >= 0,
        size > 0,
    ensures
        horizon_count(len, size) <= len,
        len > 0 ==> horizon_count(len, size) > 0,
        horizon_count(len, size) >= 0,
        len <= horizon_count(len, size) * size,
{
    let c = horizon_count(len, size);
    assert(0 <= c <= len && (len > 0 ==> c > 0) && len <= c * size) by (nonlinear_arith)
        requires
            len >= 0,
            size > 0,
            c == (len + size - 1) / size,
    ;
}

/// `floor(len * i / count)` grows by at least one and at most
/// `ceil(len / count)` from one `i` to the next.
proof fn lemma_step(len: int, count: int, size: int, i: int)
    requires
        0 < count <= len,
        size > 0,
        len <= count * size,
        0 <= i < count,
    ensures
        len * i / count < len * (i + 1) / count,
        len * (i + 1) / count - len * i / count <= size,
        0 <= len * i / count,
{
    let a = len * i / count;
    let b = len * (i + 1) / count;
    assert(len * (i + 1) == len * i + len) by (nonlinear_arith);
    assert(a < b && b - a <= size && 0 <= a) by (nonlinear_arith)
        requires
            0 < count <= len,
            size > 0,
            len <= count * size,
            0 <= i < count,
            a == len * i / count,
            b == len * (i + 1) / count,
            len * (i + 1) == len * i + len,
    ;
}

proof fn lemma_horizon_ranges(len: int, size: int, count: int, r: Seq<(usize, usize)>)
    requires
        len >= 0,
        size > 0,
        count == horizon_count(len, size),
        count <= len,
        len > 0 ==> count > 0,
        len <= count * size,
        r.len() == count,
        forall|i: int| 0 <= i < count ==> (#[trigger] r[i]).0 == len * i / count && r[i].1 == len * (i + 1) / count,
    ensures
        partitions(r, len),
        forall|i: int| 0 <= i < r.len() ==> (#[trigger] r[i]).1 - r[i].0 <= size,
{
    if count > 0 {
        assert(len * 0 / count == 0) by (nonlinear_arith)
            requires
                count > 0,
        ;
        assert(len * count / count == len) by (nonlinear_arith)
            requires
                count > 0,
        ;
        assert(r[0].0 == 0);
        assert(r.last() == r[count - 1]);
        assert(r[count - 1].1 == len * count / count);
    }
    assert forall|i: int| 0 <= i < r.len() implies (#[trigger] r[i]).0 < r[i].1 && r[i].1 - r[i].0 <= size by {
        lemma_step(len, count, size, i);
    }
}

/// The end of the horizon that starts at `end`'s predecessor block and is
/// pushed on while the next block enters at the same time as the last one.
pub open spec fn extend_end(order: Seq<usize>, entry_times: Seq<i64>, end: int) -> int
    decreases order.len() - end,
{
    if 0 < end < order.len() && entry_times[order[end - 1] as int] == entry_times[order[end] as int] {
        extend_end(order, entry_times, end + 1)
    } else {
        end
    }
}

/// The end of the horizon that starts at `start`: `size` positions on,
/// then on until the entry time changes.
pub open spec fn rolling_end(order: Seq<usize>, entry_times: Seq<i64>, start: int, size: int) -> int {
    extend_end(order, entry_times, if start + size <= order.len() { start + size } else { order.len() as int })
}

proof fn lemma_extend_end(order: Seq<usize>, entry_times: Seq<i64>, end: int)
    requires
        0 < end <= order.len(),
        forall|k: int| 0 <= k < order.len() ==> (#[trigger] order[k]) < entry_times.len(),
    ensures
        end <= extend_end(order, entry_times, end) <= order.len(),
        extend_end(order, entry_times, end) < order.len() ==> entry_times[order[extend_end(order, entry_times, end) - 1] as int]
            != entry_times[order[extend_end(order, entry_times, end)] as int],
    decreases order.len() - end,
{
    if 0 < end < order.len() && entry_times[order[end - 1] as int] == entry_times[order[end] as int] {
        lemma_extend_end(order, entry_times, end + 1);
    }
}

/// Splits `order` into horizons of `horizon_size` positions, each pushed
/// on while the next block enters at the same time as the last one, so
/// that no two blocks that enter together fall in different horizons.
pub fn build_rolling_horizons(order: &[usize], entry_times: &[i64], horizon_size: usize) -> (res: Vec<(usize, usize)>)
    requires
        horizon_size > 0,
        order@.len() + horizon_size <= usize::MAX,
        forall|k: int| 0 <= k < order@.len() ==> (#[trigger] order@[k]) < entry_times@.len(),
    ensures
        partitions(res@, order@.len() as int),
        forall|i: int| 0 <= i < res@.len() ==> (#[trigger] res@[i]).1 == rolling_end(order@, entry_times@, res@[i].0 as int, horizon_size as int),
        forall|i: int| 0 <= i < res@.len() - 1 ==> entry_times@[order@[(#[trigger] res@[i]).1 - 1] as int]
            != entry_times@[order@[res@[i].1 as int] as int],
{
    let len = order.len();
    let mut res: Vec<(usize, usize)> = Vec::new();
    let mut start: usize = 0;
    while start < len
        invariant
            start <= len,
            len == order@.len(),
            len + horizon_size <= usize::MAX,
            horizon_size > 0,
            forall|k: int| 0 <= k < order@.len() ==> (#[trigger] order@[k]) < entry_times@.len(),
            res@.len() == 0 <==> start == 0,
            res@.len() > 0 ==> res@[0].0 == 0 && res@.last().1 == start,
            forall|i: int| 0 <= i < res@.len() ==> (#[trigger] res@[i]).0 < res@[i].1,
            forall|i: int| 0 <= i < res@.len() - 1 ==> (#[trigger] res@[i]).1 == res@[i + 1].0,
            forall|i: int| 0 <= i < res@.len() ==> (#[trigger] res@[i]).1 == rolling_end(order@, entry_times@, res@[i].0 as int, horizon_size as int),
            forall|i: int| 0 <= i < res@.len() ==> (#[trigger] res@[i]).1 <= start,
            start < len && start > 0 ==> entry_times@[order@[start - 1] as int] != entry_times@[order@[start as int] as int],
            forall|i: int| 0 <= i < res@.len() - 1 ==> entry_times@[order@[(#[trigger] res@[i]).1 - 1] as int]
                != entry_times@[order@[res@[i].1 as int] as int],
        decreases len - start,
    {
        let mut end = if start + horizon_size <= len { start + horizon_size } else { len };
        let ghost first = end as int;
        proof {
            lemma_extend_end(order@, entry_times@, first);
        }
        while end < len && entry_times[order[end - 1]] == entry_times[order[end]]
            invariant
                start < first <= end <= len,
                len == order@.len(),
                forall|k: int| 0 <= k < order@.len() ==> (#[trigger] order@[k]) < entry_times@.len(),
                extend_end(order@, entry_times@, first) == extend_end(order@, entry_times@, end as int),
            decreases len - end,
        {
            end += 1;
        }
        let ghost prev = res@;
        res.push((start, end));
        proof {
            assert(rolling_end(order@, entry_times@, start as int, horizon_size as int) == end);
            if prev.len() > 0 {
                assert(res@[prev.len() - 1] == prev.last());
            }
            assert(res@.last() == (start, end));
        }
        start = end;
    }
    res
}

} // verus!
