//! Sweep events along x: each interval of a crane collision row opens a hit
//! at its left end and closes it after its right end.
use vstd::prelude::*;

verus! {

/// A change of the hit count of one old block at an x offset: `update` is
/// +1/-1 for the new-over-old movement and +2/-2 for old-over-new.
#[derive(Clone, Copy, Debug, PartialEq, Eq, Structural)]
pub struct XEvent {
    pub x_offset: u32,
    pub old_idx: u32,
    pub update: i8,
}

/// Number of open collision intervals per crane direction for one old block.
#[derive(Clone, Copy, Debug, PartialEq, Eq, Structural)]
pub struct HitState {
    pub new_old: u16,
    pub old_new: u16,
}

impl HitState {
    pub fn zero() -> (res: Self)
        ensures
            res.new_old == 0,
            res.old_new == 0,
    {
        HitState { new_old: 0, old_new: 0 }
    }
}

/// Events of `s` whose offset is `v`, in order.
pub open spec fn bucket(s: Seq<XEvent>, v: int) -> Seq<XEvent>
    decreases s.len(),
{
    if s.len() == 0 {
        Seq::empty()
    } else if s.last().x_offset == v {
        bucket(s.drop_last(), v).push(s.last())
    } else {
        bucket(s.drop_last(), v)
    }
}

/// Buckets of offsets `0..nb`, concatenated: the stable sort of `s` by offset.
pub open spec fn buckets_upto(s: Seq<XEvent>, nb: int) -> Seq<XEvent>
    decreases nb,
{
    if nb <= 0 {
        Seq::empty()
    } else {
        buckets_upto(s, nb - 1) + bucket(s, nb - 1)
    }
}

/// Position where the bucket of offset `v` starts in the sorted order.
pub open spec fn bucket_start(s: Seq<XEvent>, v: int) -> int {
    buckets_upto(s, v).len() as int
}

/// Offsets never decrease along `s`.
pub open spec fn sorted_by_offset(s: Seq<XEvent>) -> bool {
    forall|i: int, j: int| 0 <= i < j < s.len() ==> s[i].x_offset <= s[j].x_offset
}

proof fn lemma_bucket_members(s: Seq<XEvent>, v: int)
    ensures
        forall|k: int| 0 <= k < bucket(s, v).len() ==> (#[trigger] bucket(s, v)[k]).x_offset == v,
        bucket(s, v).len() <= s.len(),
    decreases s.len(),
{
    if s.len() > 0 {
        lemma_bucket_members(s.drop_last(), v);
    }
}

proof fn lemma_bucket_take(s: Seq<XEvent>, i: int, v: int)
    requires
        0 <= i < s.len(),
    ensures
        bucket(s.take(i + 1), v) == if s[i].x_offset == v { bucket(s.take(i), v).push(s[i]) } else { bucket(s.take(i), v) },
{
    assert(s.take(i + 1).drop_last() =~= s.take(i));
    assert(s.take(i + 1).last() == s[i]);
}

/// A bucket of a prefix is a prefix of the bucket of the whole sequence.
proof fn lemma_bucket_prefix(s: Seq<XEvent>, i: int, v: int)
    requires
        0 <= i <= s.len(),
    ensures
        bucket(s.take(i), v).len() <= bucket(s, v).len(),
        forall|k: int| 0 <= k < bucket(s.take(i), v).len() ==> #[trigger] bucket(s.take(i), v)[k] == bucket(s, v)[k],
        i < s.len() && s[i].x_offset == v ==> bucket(s.take(i), v).len() < bucket(s, v).len()
            && bucket(s, v)[bucket(s.take(i), v).len() as int] == s[i],
    decreases s.len() - i,
{
    if i == s.len() {
        assert(s.take(i) =~= s);
    } else {
        lemma_bucket_prefix(s, i + 1, v);
        lemma_bucket_take(s, i, v);
        let a = bucket(s.take(i), v);
        let b = bucket(s.take(i + 1), v);
        assert forall|k: int| 0 <= k < a.len() implies #[trigger] a[k] == bucket(s, v)[k] by {
            assert(a[k] == b[k]);
        }
        if s[i].x_offset == v {
            assert(b[a.len() as int] == s[i]);
            assert(b[a.len() as int] == bucket(s, v)[a.len() as int]);
        }
    }
}

proof fn lemma_buckets_len(s: Seq<XEvent>, nb: int)
    requires
        0 <= nb,
    ensures
        bucket_start(s, nb + 1) == bucket_start(s, nb) + bucket(s, nb).len(),
        bucket_start(s, 0) == 0,
{
}

proof fn lemma_start_monotone(s: Seq<XEvent>, a: int, b: int)
    requires
        0 <= a <= b,
    ensures
        bucket_start(s, a) <= bucket_start(s, b),
    decreases b - a,
{
    if a < b {
        lemma_start_monotone(s, a, b - 1);
        lemma_buckets_len(s, b - 1);
    }
}

/// Indexing into the concatenated buckets.
proof fn lemma_buckets_index(s: Seq<XEvent>, nb: int, v: int, k: int)
    requires
        0 <= v < nb,
        0 <= k < bucket(s, v).len(),
    ensures
        bucket_start(s, v) + k < buckets_upto(s, nb).len(),
        buckets_upto(s, nb)[bucket_start(s, v) + k] == bucket(s, v)[k],
    decreases nb,
{
    if v < nb - 1 {
        lemma_buckets_index(s, nb - 1, v, k);
    }
}

/// The buckets below `nb` hold every event once when all offsets are below `nb`.
proof fn lemma_buckets_multiset(s: Seq<XEvent>, nb: int)
    requires
        0 <= nb,
        forall|i: int| 0 <= i < s.len() ==> (#[trigger] s[i]).x_offset < nb,
    ensures
        buckets_upto(s, nb).to_multiset() == s.to_multiset(),
    decreases s.len(),
{
    broadcast use vstd::seq_lib::group_to_multiset_ensures;
    broadcast use vstd::multiset::group_multiset_axioms;
    if s.len() == 0 {
        lemma_buckets_empty(s, nb);
    } else {
        let pre = s.drop_last();
        let e = s.last();
        assert forall|i: int| 0 <= i < pre.len() implies (#[trigger] pre[i]).x_offset < nb by {
            assert(pre[i] == s[i]);
        }
        lemma_buckets_multiset(pre, nb);
        lemma_buckets_push(pre, e, nb);
        assert(pre.push(e) =~= s);
    }
}

proof fn lemma_buckets_empty(s: Seq<XEvent>, nb: int)
    requires
        s.len() == 0,
    ensures
        buckets_upto(s, nb) =~= Seq::<XEvent>::empty(),
    decreases nb,
{
    if nb > 0 {
        lemma_buckets_empty(s, nb - 1);
    }
}

proof fn lemma_buckets_push(s: Seq<XEvent>, e: XEvent, nb: int)
    requires
        0 <= nb,
    ensures
        buckets_upto(s.push(e), nb).to_multiset() == if (e.x_offset as int) < nb {
            buckets_upto(s, nb).to_multiset().insert(e)
        } else {
            buckets_upto(s, nb).to_multiset()
        },
    decreases nb,
{
    broadcast use vstd::seq_lib::group_to_multiset_ensures;
    broadcast use vstd::multiset::group_multiset_axioms;
    if nb > 0 {
        lemma_buckets_push(s, e, nb - 1);
        let t = s.push(e);
        assert(t.drop_last() =~= s);
        vstd::seq_lib::lemma_multiset_commutative(buckets_upto(t, nb - 1), bucket(t, nb - 1));
        vstd::seq_lib::lemma_multiset_commutative(buckets_upto(s, nb - 1), bucket(s, nb - 1));
        if e.x_offset == nb - 1 {
            assert(bucket(t, nb - 1) == bucket(s, nb - 1).push(e));
            assert(buckets_upto(t, nb).to_multiset() =~= buckets_upto(s, nb).to_multiset().insert(e));
        } else {
            assert(bucket(t, nb - 1) == bucket(s, nb - 1));
            if (e.x_offset as int) < nb {
                assert(buckets_upto(t, nb).to_multiset() =~= buckets_upto(s, nb).to_multiset().insert(e));
            } else {
                assert(buckets_upto(t, nb).to_multiset() =~= buckets_upto(s, nb).to_multiset());
            }
        }
    }
}

proof fn lemma_buckets_sorted(s: Seq<XEvent>, nb: int)
    requires
        0 <= nb,
    ensures
        sorted_by_offset(buckets_upto(s, nb)),
        forall|k: int| 0 <= k < buckets_upto(s, nb).len() ==> (#[trigger] buckets_upto(s, nb)[k]).x_offset < nb,
    decreases nb,
{
    if nb > 0 {
        lemma_buckets_sorted(s, nb - 1);
        lemma_bucket_members(s, nb - 1);
        let a = buckets_upto(s, nb - 1);
        let b = bucket(s, nb - 1);
        let c = buckets_upto(s, nb);
        assert(c == a + b);
        assert forall|k: int| 0 <= k < c.len() implies (#[trigger] c[k]).x_offset < nb by {
            if k < a.len() {
                assert(c[k] == a[k]);
            } else {
                assert(c[k] == b[k - a.len()]);
            }
        }
        assert forall|i: int, j: int| 0 <= i < j < c.len() implies c[i].x_offset <= c[j].x_offset by {
            if j < a.len() {
                assert(c[i] == a[i] && c[j] == a[j]);
            } else if i < a.len() {
                assert(c[i] == a[i]);
                assert(c[j] == b[j - a.len()]);
            } else {
                assert(c[i] == b[i - a.len()]);
                assert(c[j] == b[j - a.len()]);
            }
        }
    }
}

/// The bucket that holds sorted position `j`.
proof fn lemma_position_bucket(s: Seq<XEvent>, nb: int, j: int) -> (v: int)
    requires
        0 <= nb,
        0 <= j < bucket_start(s, nb),
    ensures
        0 <= v < nb,
        bucket_start(s, v) <= j < bucket_start(s, v + 1),
    decreases nb,
{
    lemma_buckets_len(s, nb - 1);
    if j >= bucket_start(s, nb - 1) {
        nb - 1
    } else {
        lemma_position_bucket(s, nb - 1, j)
    }
}

/// Sorts events by x offset, keeping the order of events with equal
/// offsets; `scratch` and `counts` are working buffers.
pub fn counting_sort_x_events(
    events: &mut Vec<XEvent>,
    scratch: &mut Vec<XEvent>,
    counts: &mut Vec<usize>,
    min_x: i64,
    max_x: i64,
)
    requires
        min_x <= max_x,
        max_x - min_x + 1 <= u32::MAX,
        max_x - min_x + 2 <= usize::MAX,
        forall|i: int| 0 <= i < old(events)@.len() ==> ((#[trigger] old(events)@[i]).x_offset as int) < max_x - min_x + 2,
    ensures
        final(events)@ == buckets_upto(old(events)@, max_x - min_x + 2),
        final(events)@.to_multiset() == old(events)@.to_multiset(),
        sorted_by_offset(final(events)@),
        final(events)@.len() == old(events)@.len(),
{
    let ghost s = events@;
    let n = events.len();
    let bucket_count = (max_x - min_x + 2) as usize;
    let ghost nb = bucket_count as int;
    counts.clear();
    counts.resize(bucket_count, 0);
    let mut i: usize = 0;
    while i < n
        invariant
            s == events@,
            n == s.len(),
            nb == bucket_count,
            nb == max_x - min_x + 2,
            forall|k: int| 0 <= k < s.len() ==> ((#[trigger] s[k]).x_offset as int) < nb,
            counts@.len() == bucket_count,
            i <= n,
            forall|v: int| 0 <= v < nb ==> #[trigger] counts@[v] == bucket(s.take(i as int), v).len(),
        decreases n - i,
    {
        let v = events[i].x_offset as usize;
        proof {
            assert forall|u: int| 0 <= u < nb implies #[trigger] bucket(s.take(i as int + 1), u).len() == bucket(s.take(i as int), u).len() + if u == v { 1int } else { 0int } by {
                lemma_bucket_take(s, i as int, u);
            }
            lemma_bucket_members(s.take(i as int), v as int);
            assert(s.take(i as int).len() == i);
        }
        let c = counts[v];
        counts.set(v, c + 1);
        i += 1;
    }
    assert(s.take(n as int) =~= s);
    let mut offset: usize = 0;
    let mut j: usize = 0;
    while j < bucket_count
        invariant
            s == events@,
            n == s.len(),
            nb == bucket_count,
            counts@.len() == bucket_count,
            j <= bucket_count,
            offset == bucket_start(s, j as int),
            offset <= n,
            forall|v: int| 0 <= v < j ==> #[trigger] counts@[v] == bucket_start(s, v),
            forall|v: int| j <= v < nb ==> #[trigger] counts@[v] == bucket(s, v).len(),
            forall|k: int| 0 <= k < s.len() ==> ((#[trigger] s[k]).x_offset as int) < nb,
        decreases bucket_count - j,
    {
        let size = counts[j];
        proof {
            lemma_buckets_len(s, j as int);
            lemma_buckets_sorted(s, j as int + 1);
            lemma_buckets_multiset(s, nb);
            lemma_start_monotone(s, j as int + 1, nb);
            broadcast use vstd::seq_lib::group_to_multiset_ensures;
            assert(buckets_upto(s, nb).to_multiset().len() == buckets_upto(s, nb).len());
            assert(s.to_multiset().len() == s.len());
            assert(buckets_upto(s, nb).len() == n);
        }
        counts.set(j, offset);
        offset = offset + size;
        j += 1;
    }
    scratch.clear();
    let filler = XEvent { x_offset: 0, old_idx: 0, update: 0 };
    let mut k: usize = 0;
    while k < n
        invariant
            scratch@.len() == k,
            k <= n,
        decreases n - k,
    {
        scratch.push(filler);
        k += 1;
    }
    let mut i: usize = 0;
    while i < n
        invariant
            s == events@,
            n == s.len(),
            nb == bucket_count,
            counts@.len() == bucket_count,
            scratch@.len() == n,
            i <= n,
            forall|k: int| 0 <= k < s.len() ==> ((#[trigger] s[k]).x_offset as int) < nb,
            forall|v: int| 0 <= v < nb ==> #[trigger] counts@[v] == bucket_start(s, v) + bucket(s.take(i as int), v).len(),
            forall|v: int, k: int| 0 <= v < nb && 0 <= k < bucket(s.take(i as int), v).len() ==>
                scratch@[bucket_start(s, v) + k] == #[trigger] bucket(s.take(i as int), v)[k],
        decreases n - i,
    {
        let e = events[i];
        let v = e.x_offset as usize;
        let pos = counts[v];
        proof {
            lemma_bucket_prefix(s, i as int, v as int);
            lemma_buckets_len(s, v as int);
            lemma_start_monotone(s, v as int + 1, nb);
            lemma_buckets_multiset(s, nb);
            broadcast use vstd::seq_lib::group_to_multiset_ensures;
            assert(buckets_upto(s, nb).to_multiset().len() == buckets_upto(s, nb).len());
            assert(s.to_multiset().len() == s.len());
            assert(buckets_upto(s, nb).len() == n);
            assert(pos < n);
        }
        let ghost scratch_before = scratch@;
        scratch.set(pos, e);
        proof {
            assert forall|u: int| 0 <= u < nb implies #[trigger] bucket(s.take(i as int + 1), u).len() == bucket(s.take(i as int), u).len() + if u == v { 1int } else { 0int } by {
                lemma_bucket_take(s, i as int, u);
            }
            let ghost old_v = bucket(s.take(i as int), v as int).len();
            assert(pos == bucket_start(s, v as int) + old_v);
            assert(old_v < bucket(s, v as int).len());
            assert forall|u: int, k: int| 0 <= u < nb && 0 <= k < bucket(s.take(i as int + 1), u).len() implies
                scratch@[bucket_start(s, u) + k] == #[trigger] bucket(s.take(i as int + 1), u)[k] by {
                lemma_bucket_take(s, i as int, u);
                lemma_bucket_prefix(s, i as int, u);
                lemma_buckets_len(s, u);
                lemma_start_monotone(s, u + 1, nb);
                let old_len = bucket(s.take(i as int), u).len();
                let idx = bucket_start(s, u) + k;
                assert(k < bucket(s, u).len());
                assert(idx < n);
                if k < old_len {
                    if u < v as int {
                        lemma_start_monotone(s, u + 1, v as int);
                    } else if u > v as int {
                        lemma_buckets_len(s, v as int);
                        lemma_start_monotone(s, v as int + 1, u);
                    }
                    assert(idx != pos);
                    assert(scratch@[idx] == scratch_before[idx]);
                    assert(scratch_before[idx] == bucket(s.take(i as int), u)[k]);
                    assert(bucket(s.take(i as int + 1), u)[k] == bucket(s.take(i as int), u)[k]);
                } else {
                    assert(u == v as int && k == old_len);
                    assert(idx == pos);
                    assert(bucket(s.take(i as int + 1), u)[k] == e);
                }
            }
        }
        counts.set(v, pos + 1);
        i += 1;
    }
    proof {
        assert(s.take(n as int) =~= s);
        lemma_buckets_multiset(s, nb);
        lemma_buckets_sorted(s, nb);
        broadcast use vstd::seq_lib::group_to_multiset_ensures;
        let sorted = buckets_upto(s, nb);
        assert(sorted.to_multiset().len() == sorted.len());
        assert(s.to_multiset().len() == s.len());
        assert(sorted.len() == n);
        assert forall|j: int| 0 <= j < n implies scratch@[j] == sorted[j] by {
            let v = lemma_position_bucket(s, nb, j);
            lemma_buckets_len(s, v);
            lemma_buckets_index(s, nb, v, j - bucket_start(s, v));
        }
        assert(scratch@ =~= sorted);
    }
    std::mem::swap(events, scratch);
}

/// The sweep events of one collision interval `[l, r]` of x positions,
/// clipped to `[min_x, max_x]`: `update` opens at the left end and its
/// negation closes one past the right end. Nothing is pushed when the
/// clipped interval is empty; no closing event is pushed when one past the
/// right end does not fit in `i64`.
pub open spec fn interval_events(l: int, r: int, old_idx: int, update: int, min_x: int, max_x: int) -> Seq<XEvent> {
    let lc = if l >= min_x { l } else { min_x };
    let rc = if r <= max_x { r } else { max_x };
    if lc > rc {
        Seq::empty()
    } else {
        let open = XEvent { x_offset: (lc - min_x) as u32, old_idx: old_idx as u32, update: update as i8 };
        if rc < i64::MAX {
            seq![open, XEvent { x_offset: (rc + 1 - min_x) as u32, old_idx: old_idx as u32, update: (-update) as i8 }]
        } else {
            seq![open]
        }
    }
}

/// Appends the sweep events of the collision interval `[l, r]`.
pub fn push_x_event(l: i64, r: i64, old_idx: usize, update: i8, min_x: i64, max_x: i64, events: &mut Vec<XEvent>)
    requires
        min_x <= max_x,
        max_x - min_x + 1 <= u32::MAX,
        old_idx <= u32::MAX,
        update != i8::MIN,
    ensures
        final(events)@ == old(events)@ + interval_events(l as int, r as int, old_idx as int, update as int, min_x as int, max_x as int),
{
    let l = if l >= min_x { l } else { min_x };
    let r = if r <= max_x { r } else { max_x };
    if l > r {
        assert(interval_events(l as int, r as int, old_idx as int, update as int, min_x as int, max_x as int) =~= Seq::<XEvent>::empty());
        assert(events@ + Seq::<XEvent>::empty() =~= events@);
        return;
    }
    let ghost before = events@;
    let open = XEvent { x_offset: (l - min_x) as u32, old_idx: old_idx as u32, update };
    events.push(open);
    match r.checked_add(1) {
        Some(x) => {
            events.push(XEvent { x_offset: (x - min_x) as u32, old_idx: old_idx as u32, update: -update });
            assert(events@ =~= before + interval_events(l as int, r as int, old_idx as int, update as int, min_x as int, max_x as int));
        },
        None => {
            assert(events@ =~= before + interval_events(l as int, r as int, old_idx as int, update as int, min_x as int, max_x as int));
        },
    }
}

/// The hit state after applying `update`: `+1`/`-1` count the
/// new-over-old intervals, `+2`/`-2` the old-over-new ones.
pub open spec fn applied(state: HitState, update: int) -> HitState {
    if update == 1 {
        HitState { new_old: (state.new_old + 1) as u16, ..state }
    } else if update == -1 {
        HitState { new_old: (state.new_old - 1) as u16, ..state }
    } else if update == 2 {
        HitState { old_new: (state.old_new + 1) as u16, ..state }
    } else {
        HitState { old_new: (state.old_new - 1) as u16, ..state }
    }
}

/// `update` is one of the four event kinds and applying it to `state`
/// keeps both counts within `u16`.
pub open spec fn update_fits(state: HitState, update: int) -> bool {
    ||| update == 1 && state.new_old < u16::MAX
    ||| update == -1 && state.new_old > 0
    ||| update == 2 && state.old_new < u16::MAX
    ||| update == -2 && state.old_new > 0
}

/// Applies one event to the hit state of its old block.
pub fn apply_x_event(event: XEvent, states: &mut [HitState])
    requires
        (event.old_idx as int) < old(states)@.len(),
        update_fits(old(states)@[event.old_idx as int], event.update as int),
    ensures
        final(states)@ == old(states)@.update(event.old_idx as int, applied(old(states)@[event.old_idx as int], event.update as int)),
{
    let idx = event.old_idx as usize;
    let state = states[idx];
    let next = if event.update == 1 {
        HitState { new_old: state.new_old + 1, old_new: state.old_new }
    } else if event.update == -1 {
        HitState { new_old: state.new_old - 1, old_new: state.old_new }
    } else if event.update == 2 {
        HitState { new_old: state.new_old, old_new: state.old_new + 1 }
    } else {
        HitState { new_old: state.new_old, old_new: state.old_new - 1 }
    };
    states[idx] = next;
}

/// Index of a hit state among the four: bit 0 when a new-over-old interval
/// is open, bit 1 when an old-over-new interval is.
pub fn hit_state_index(state: HitState) -> (res: usize)
    ensures
        res == (if state.new_old > 0 { 1int } else { 0int }) + (if state.old_new > 0 { 2int } else { 0int }),
        res < 4,
        crate::slot_table::state_new_old(res as int) == (state.new_old > 0),
        crate::slot_table::state_old_new(res as int) == (state.old_new > 0),
{
    let a: usize = if state.new_old > 0 { 1 } else { 0 };
    let b: usize = if state.old_new > 0 { 2 } else { 0 };
    a + b
}

} // verus!
