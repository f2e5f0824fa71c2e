//! Facts about sweeping a window of x positions across a set of pairwise
//! separated collision intervals: the hit indicator changes exactly at the
//! clipped ends of the intervals, and no two intervals share such an end.
use vstd::prelude::*;

use crate::events::{interval_events, push_x_event, XEvent};
use crate::model::coord_ok;
use crate::window::{all_nonempty, apart, covered, Interval};

verus! {

/// No two intervals of `s` overlap or touch.
pub open spec fn gapped(s: Seq<Interval>) -> bool {
    forall|i: int, j: int| 0 <= i < s.len() && 0 <= j < s.len() && i != j ==>
        #[trigger] s[i].1 + 1 < #[trigger] s[j].0 || s[j].1 + 1 < s[i].0
}

/// Offset `off` of the window `[lo_w, hi_w]` holds an x position that some
/// interval of `s` covers.
pub open spec fn hit_at(s: Seq<Interval>, lo_w: int, hi_w: int, off: int) -> bool {
    0 <= off <= hi_w - lo_w && covered(s, lo_w + off)
}

/// Left end of interval `j` clipped to the window.
pub open spec fn clip_l(s: Seq<Interval>, j: int, lo_w: int) -> int {
    if s[j].0 >= lo_w { s[j].0 as int } else { lo_w }
}

/// Right end of interval `j` clipped to the window.
pub open spec fn clip_r(s: Seq<Interval>, j: int, hi_w: int) -> int {
    if s[j].1 <= hi_w { s[j].1 as int } else { hi_w }
}

/// Interval `j` meets the window.
pub open spec fn meets(s: Seq<Interval>, j: int, lo_w: int, hi_w: int) -> bool {
    clip_l(s, j, lo_w) <= clip_r(s, j, hi_w)
}

/// `off` is the offset where interval `j`, clipped, starts, or one past
/// where it ends.
pub open spec fn endpoint(s: Seq<Interval>, j: int, lo_w: int, hi_w: int, off: int) -> bool {
    &&& meets(s, j, lo_w, hi_w)
    &&& (off == clip_l(s, j, lo_w) - lo_w || off == clip_r(s, j, hi_w) + 1 - lo_w)
}

/// The clipped start of a meeting interval is hit and its left neighbour
/// is not; one past its clipped end is not hit and its clipped end is.
pub proof fn lemma_endpoints_change(s: Seq<Interval>, lo_w: int, hi_w: int, j: int)
    requires
        gapped(s),
        0 <= j < s.len(),
        meets(s, j, lo_w, hi_w),
    ensures
        hit_at(s, lo_w, hi_w, clip_l(s, j, lo_w) - lo_w),
        !hit_at(s, lo_w, hi_w, clip_l(s, j, lo_w) - lo_w - 1),
        !hit_at(s, lo_w, hi_w, clip_r(s, j, hi_w) + 1 - lo_w),
        hit_at(s, lo_w, hi_w, clip_r(s, j, hi_w) - lo_w),
{
    let l = clip_l(s, j, lo_w);
    let r = clip_r(s, j, hi_w);
    assert(s[j].0 <= l <= s[j].1);
    assert(s[j].0 <= r <= s[j].1);
    assert(covered(s, l));
    assert(covered(s, r));
    if l - 1 >= lo_w {
        assert forall|m: int| 0 <= m < s.len() implies !(#[trigger] s[m].0 <= l - 1 && l - 1 <= s[m].1) by {
            if m != j {
                assert(s[m].1 + 1 < s[j].0 || s[j].1 + 1 < s[m].0);
            }
        }
    }
    if r + 1 <= hi_w {
        assert forall|m: int| 0 <= m < s.len() implies !(#[trigger] s[m].0 <= r + 1 && r + 1 <= s[m].1) by {
            if m != j {
                assert(s[m].1 + 1 < s[j].0 || s[j].1 + 1 < s[m].0);
            }
        }
    }
}

/// Where the hit indicator changes, some meeting interval starts or has
/// just ended.
pub proof fn lemma_change_is_endpoint(s: Seq<Interval>, lo_w: int, hi_w: int, off: int) -> (j: int)
    requires
        lo_w <= hi_w,
        0 <= off <= hi_w - lo_w + 1,
        hit_at(s, lo_w, hi_w, off) != hit_at(s, lo_w, hi_w, off - 1),
    ensures
        0 <= j < s.len(),
        endpoint(s, j, lo_w, hi_w, off),
        hit_at(s, lo_w, hi_w, off) ==> off == clip_l(s, j, lo_w) - lo_w,
        !hit_at(s, lo_w, hi_w, off) ==> off == clip_r(s, j, hi_w) + 1 - lo_w,
{
    let x = lo_w + off;
    if hit_at(s, lo_w, hi_w, off) {
        let j = choose|j: int| 0 <= j < s.len() && #[trigger] s[j].0 <= x <= s[j].1;
        if off > 0 {
            assert(!covered(s, x - 1));
            assert(!(s[j].0 <= x - 1 && x - 1 <= s[j].1));
        }
        j
    } else {
        let j = choose|j: int| 0 <= j < s.len() && #[trigger] s[j].0 <= x - 1 <= s[j].1;
        if off <= hi_w - lo_w {
            assert(!covered(s, x));
            assert(!(s[j].0 <= x && x <= s[j].1));
        }
        j
    }
}

/// Distinct meeting intervals have distinct ends, and each starts before it
/// ends.
pub proof fn lemma_endpoints_distinct(s: Seq<Interval>, lo_w: int, hi_w: int, j: int, m: int)
    requires
        gapped(s),
        0 <= j < s.len(),
        0 <= m < s.len(),
        meets(s, j, lo_w, hi_w),
        meets(s, m, lo_w, hi_w),
    ensures
        clip_l(s, j, lo_w) < clip_r(s, j, hi_w) + 1,
        j != m ==> clip_l(s, j, lo_w) != clip_l(s, m, lo_w),
        j != m ==> clip_l(s, j, lo_w) != clip_r(s, m, hi_w) + 1,
        j != m ==> clip_r(s, j, hi_w) != clip_r(s, m, hi_w),
{
    if j != m {
        assert(s[m].1 + 1 < s[j].0 || s[j].1 + 1 < s[m].0);
    }
}

/// The intervals of a collision row, seen as x positions of the moving
/// block relative to a fixed block at `fixed_x`: `dx = fixed_x - x`.
pub open spec fn mirrored(row: Seq<Interval>, fixed_x: int) -> Seq<Interval> {
    Seq::new(row.len(), |j: int| ((fixed_x - row[j].1) as i64, (fixed_x - row[j].0) as i64))
}

/// The intervals of a collision row, seen as x positions of the moving
/// block relative to a fixed block at `fixed_x`: `dx = x - fixed_x`.
pub open spec fn shifted(row: Seq<Interval>, fixed_x: int) -> Seq<Interval> {
    Seq::new(row.len(), |j: int| ((fixed_x + row[j].0) as i64, (fixed_x + row[j].1) as i64))
}

/// The sweep event at offset `off` of an x-interval set `s` for one old
/// block: `update` where the hit starts, its negation where it ends.
pub open spec fn edge_event(s: Seq<Interval>, lo_w: int, hi_w: int, old_idx: int, update: int, off: int) -> XEvent {
    XEvent {
        x_offset: off as u32,
        old_idx: old_idx as u32,
        update: (if hit_at(s, lo_w, hi_w, off) { update } else { -update }) as i8,
    }
}

/// The hit indicator of `s` changes at offset `off` of the window.
pub open spec fn changes_at(s: Seq<Interval>, lo_w: int, hi_w: int, off: int) -> bool {
    hit_at(s, lo_w, hi_w, off) != hit_at(s, lo_w, hi_w, off - 1)
}

/// `a` holds, once each, the events of `s` at every offset where its hit
/// indicator changes, and nothing else.
pub open spec fn edge_events(a: Seq<XEvent>, s: Seq<Interval>, lo_w: int, hi_w: int, old_idx: int, update: int) -> bool {
    &&& forall|i: int| 0 <= i < a.len() ==> {
        let off = (#[trigger] a[i]).x_offset as int;
        &&& 0 <= off <= hi_w - lo_w + 1
        &&& changes_at(s, lo_w, hi_w, off)
        &&& a[i] == edge_event(s, lo_w, hi_w, old_idx, update, off)
    }
    &&& a.no_duplicates()
    &&& forall|off: int| 0 <= off <= hi_w - lo_w + 1 && #[trigger] changes_at(s, lo_w, hi_w, off)
        ==> a.contains(edge_event(s, lo_w, hi_w, old_idx, update, off))
}

/// `x` lies in a mirrored row exactly when `fixed_x - x` lies in the row.
pub proof fn lemma_mirrored_covered(row: Seq<Interval>, fixed_x: int, x: int)
    requires
        forall|j: int| 0 <= j < row.len() ==> coord_ok(#[trigger] row[j].0 as int) && coord_ok(row[j].1 as int),
        coord_ok(fixed_x),
    ensures
        covered(mirrored(row, fixed_x), x) <==> covered(row, fixed_x - x),
{
    let s = mirrored(row, fixed_x);
    if covered(s, x) {
        let j = choose|j: int| 0 <= j < s.len() && #[trigger] s[j].0 <= x <= s[j].1;
        assert(row[j].0 <= fixed_x - x <= row[j].1);
    }
    if covered(row, fixed_x - x) {
        let j = choose|j: int| 0 <= j < row.len() && #[trigger] row[j].0 <= fixed_x - x <= row[j].1;
        assert(s[j].0 <= x <= s[j].1);
    }
}

/// `x` lies in a shifted row exactly when `x - fixed_x` lies in the row.
pub proof fn lemma_shifted_covered(row: Seq<Interval>, fixed_x: int, x: int)
    requires
        forall|j: int| 0 <= j < row.len() ==> coord_ok(#[trigger] row[j].0 as int) && coord_ok(row[j].1 as int),
        coord_ok(fixed_x),
    ensures
        covered(shifted(row, fixed_x), x) <==> covered(row, x - fixed_x),
{
    let s = shifted(row, fixed_x);
    if covered(s, x) {
        let j = choose|j: int| 0 <= j < s.len() && #[trigger] s[j].0 <= x <= s[j].1;
        assert(row[j].0 <= x - fixed_x <= row[j].1);
    }
    if covered(row, x - fixed_x) {
        let j = choose|j: int| 0 <= j < row.len() && #[trigger] row[j].0 <= x - fixed_x <= row[j].1;
        assert(s[j].0 <= x <= s[j].1);
    }
}

/// Pushes the sweep events of the collision intervals of `row`, seen as x
/// positions `fixed_x - dx` when `mirror` holds and `fixed_x + dx`
/// otherwise: what is appended are the events of every offset of the
/// window `[min_x, max_x]` where the hit changes.
pub fn push_row_events(
    row: &[Interval],
    fixed_x: i64,
    mirror: bool,
    old_idx: usize,
    update: i8,
    min_x: i64,
    max_x: i64,
    events: &mut Vec<XEvent>,
)
    requires
        apart(row@),
        all_nonempty(row@),
        forall|j: int| 0 <= j < row@.len() ==> coord_ok(#[trigger] row@[j].0 as int) && coord_ok(row@[j].1 as int),
        coord_ok(fixed_x as int),
        coord_ok(min_x as int),
        coord_ok(max_x as int),
        min_x <= max_x,
        max_x - min_x + 2 <= u32::MAX,
        old_idx <= u32::MAX,
        update == 1 || update == 2,
    ensures
        final(events)@.len() >= old(events)@.len(),
        final(events)@.subrange(0, old(events)@.len() as int) == old(events)@,
        edge_events(final(events)@.skip(old(events)@.len() as int),
            if mirror { mirrored(row@, fixed_x as int) } else { shifted(row@, fixed_x as int) },
            min_x as int, max_x as int, old_idx as int, update as int),
{
    let ghost s = if mirror { mirrored(row@, fixed_x as int) } else { shifted(row@, fixed_x as int) };
    let ghost lo_w = min_x as int;
    let ghost hi_w = max_x as int;
    let ghost start = events@.len() as int;
    let ghost prefix = events@;
    proof {
        assert(gapped(s)) by {
            assert forall|i: int, j: int| 0 <= i < s.len() && 0 <= j < s.len() && i != j implies
                #[trigger] s[i].1 + 1 < #[trigger] s[j].0 || s[j].1 + 1 < s[i].0 by {
                if i < j {
                    assert(row@[i].1 + 1 < row@[j].0);
                } else {
                    assert(row@[j].1 + 1 < row@[i].0);
                }
            }
        }
    }
    let mut j: usize = 0;
    while j < row.len()
        invariant
            j <= row@.len(),
            s == (if mirror { mirrored(row@, fixed_x as int) } else { shifted(row@, fixed_x as int) }),
            s.len() == row@.len(),
            gapped(s),
            forall|q: int| 0 <= q < row@.len() ==> coord_ok(#[trigger] row@[q].0 as int) && coord_ok(row@[q].1 as int),
            coord_ok(fixed_x as int),
            coord_ok(min_x as int),
            coord_ok(max_x as int),
            lo_w == min_x,
            hi_w == max_x,
            min_x <= max_x,
            max_x - min_x + 2 <= u32::MAX,
            old_idx <= u32::MAX,
            update == 1 || update == 2,
            start == prefix.len(),
            events@.len() >= start,
            events@.subrange(0, start) == prefix,
            forall|i: int| 0 <= i < events@.skip(start).len() ==> {
                let off = (#[trigger] events@.skip(start)[i]).x_offset as int;
                &&& 0 <= off <= hi_w - lo_w + 1
                &&& (exists|m: int| 0 <= m < j && #[trigger] endpoint(s, m, lo_w, hi_w, off))
                &&& events@.skip(start)[i] == edge_event(s, lo_w, hi_w, old_idx as int, update as int, off)
            },
            events@.skip(start).no_duplicates(),
            forall|m: int, off: int| 0 <= m < j && #[trigger] endpoint(s, m, lo_w, hi_w, off)
                ==> events@.skip(start).contains(edge_event(s, lo_w, hi_w, old_idx as int, update as int, off)),
        decreases row@.len() - j,
    {
        let (lo, hi) = row[j];
        let l = if mirror { fixed_x - hi } else { fixed_x + lo };
        let r = if mirror { fixed_x - lo } else { fixed_x + hi };
        let ghost a = events@.skip(start);
        let ghost before = events@;
        proof {
            assert(s[j as int] == (l, r));
        }
        push_x_event(l, r, old_idx, update, min_x, max_x, events);
        proof {
            let jj = j as int;
            let added = interval_events(l as int, r as int, old_idx as int, update as int, min_x as int, max_x as int);
            let a2 = events@.skip(start);
            assert(events@ == before + added);
            assert(a2 == a + added);
            assert(events@.subrange(0, start) =~= prefix) by {
                assert forall|q: int| 0 <= q < start implies events@[q] == prefix[q] by {
                    assert(events@[q] == before[q]);
                    assert(before[q] == before.subrange(0, start)[q]);
                }
            }
            if meets(s, jj, lo_w, hi_w) {
                lemma_endpoints_change(s, lo_w, hi_w, jj);
                let lc = clip_l(s, jj, lo_w);
                let rc = clip_r(s, jj, hi_w);
                let e_open = edge_event(s, lo_w, hi_w, old_idx as int, update as int, lc - lo_w);
                let e_close = edge_event(s, lo_w, hi_w, old_idx as int, update as int, rc + 1 - lo_w);
                assert(added =~= seq![e_open, e_close]);
                assert(endpoint(s, jj, lo_w, hi_w, lc - lo_w));
                assert(endpoint(s, jj, lo_w, hi_w, rc + 1 - lo_w));
                // the new events differ from those of earlier intervals
                assert forall|i: int| 0 <= i < a.len() implies a[i] != e_open && a[i] != e_close by {
                    let off = a[i].x_offset as int;
                    let m = choose|m: int| 0 <= m < jj && #[trigger] endpoint(s, m, lo_w, hi_w, off);
                    lemma_endpoints_distinct(s, lo_w, hi_w, jj, m);
                    lemma_endpoints_distinct(s, lo_w, hi_w, m, jj);
                }
                lemma_endpoints_distinct(s, lo_w, hi_w, jj, jj);
                assert(e_open.x_offset != e_close.x_offset);
                assert(a2.no_duplicates()) by {
                    assert forall|p: int, q: int| 0 <= p < a2.len() && 0 <= q < a2.len() && p != q implies a2[p] != a2[q] by {
                        if p < a.len() && q < a.len() {
                            assert(a2[p] == a[p] && a2[q] == a[q]);
                        } else if p < a.len() {
                            assert(a2[p] == a[p]);
                        } else if q < a.len() {
                            assert(a2[q] == a[q]);
                        }
                    }
                }
                assert forall|i: int| 0 <= i < a2.len() implies {
                    let off = (#[trigger] a2[i]).x_offset as int;
                    &&& 0 <= off <= hi_w - lo_w + 1
                    &&& (exists|m: int| 0 <= m < jj + 1 && #[trigger] endpoint(s, m, lo_w, hi_w, off))
                    &&& a2[i] == edge_event(s, lo_w, hi_w, old_idx as int, update as int, off)
                } by {
                    if i < a.len() {
                        assert(a2[i] == a[i]);
                        let off = a[i].x_offset as int;
                        let m = choose|m: int| 0 <= m < jj && #[trigger] endpoint(s, m, lo_w, hi_w, off);
                        assert(endpoint(s, m, lo_w, hi_w, off));
                    } else if i == a.len() {
                        assert(a2[i] == e_open);
                        assert(e_open.x_offset as int == lc - lo_w);
                    } else {
                        assert(a2[i] == e_close);
                        assert(e_close.x_offset as int == rc + 1 - lo_w);
                    }
                }
                assert forall|m: int, off: int| 0 <= m < jj + 1 && #[trigger] endpoint(s, m, lo_w, hi_w, off)
                    implies a2.contains(edge_event(s, lo_w, hi_w, old_idx as int, update as int, off)) by {
                    if m < jj {
                        let e = edge_event(s, lo_w, hi_w, old_idx as int, update as int, off);
                        assert(a.contains(e));
                        let i = choose|i: int| 0 <= i < a.len() && a[i] == e;
                        assert(a2[i] == e);
                    } else if off == lc - lo_w {
                        assert(a2[a.len() as int] == e_open);
                    } else {
                        assert(a2[a.len() as int + 1] == e_close);
                    }
                }
            } else {
                assert(added =~= Seq::<XEvent>::empty());
                assert(a2 =~= a);
                assert forall|i: int| 0 <= i < a2.len() implies {
                    let off = (#[trigger] a2[i]).x_offset as int;
                    &&& 0 <= off <= hi_w - lo_w + 1
                    &&& (exists|m: int| 0 <= m < jj + 1 && #[trigger] endpoint(s, m, lo_w, hi_w, off))
                    &&& a2[i] == edge_event(s, lo_w, hi_w, old_idx as int, update as int, off)
                } by {
                    let off = a[i].x_offset as int;
                    let m = choose|m: int| 0 <= m < jj && #[trigger] endpoint(s, m, lo_w, hi_w, off);
                    assert(endpoint(s, m, lo_w, hi_w, off));
                }
                assert forall|m: int, off: int| 0 <= m < jj + 1 && #[trigger] endpoint(s, m, lo_w, hi_w, off)
                    implies a2.contains(edge_event(s, lo_w, hi_w, old_idx as int, update as int, off)) by {
                    if m == jj {
                        assert(!meets(s, jj, lo_w, hi_w));
                    }
                }
            }
        }
        j += 1;
    }
    proof {
        let a = events@.skip(start);
        assert forall|i: int| 0 <= i < a.len() implies {
            let off = (#[trigger] a[i]).x_offset as int;
            &&& 0 <= off <= hi_w - lo_w + 1
            &&& changes_at(s, lo_w, hi_w, off)
            &&& a[i] == edge_event(s, lo_w, hi_w, old_idx as int, update as int, off)
        } by {
            let off = a[i].x_offset as int;
            let m = choose|m: int| 0 <= m < j && #[trigger] endpoint(s, m, lo_w, hi_w, off);
            lemma_endpoints_change(s, lo_w, hi_w, m);
        }
        assert forall|off: int| 0 <= off <= hi_w - lo_w + 1 && #[trigger] changes_at(s, lo_w, hi_w, off)
            implies a.contains(edge_event(s, lo_w, hi_w, old_idx as int, update as int, off)) by {
            let m = lemma_change_is_endpoint(s, lo_w, hi_w, off);
            assert(endpoint(s, m, lo_w, hi_w, off));
        }
    }
}

} // verus!
