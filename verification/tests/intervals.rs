use ogc2026::forbidden::{forbidden_interval_set, old_time_info, IntervalSet};
use ogc2026::model::ScheduledBlock;
use ogc2026::slot_table::build_forbidden_slot_precompute;
use ogc2026::slots::{ActiveIntervalSlots, ForbiddenIntervals, SlotSet};
use ogc2026::window::{first_feasible_time, merge_sorted_intervals, merge_x_ranges, XRange};

fn old_block(entry_time: i64, exit_time: i64) -> ScheduledBlock {
    ScheduledBlock { block_id: 1, bay_id: 0, orient_idx: 0, x: 5, y: 0, entry_time, exit_time }
}

#[test]
fn first_feasible_time_skips_covered_prefix() {
    let ivs = [(0, 3), (5, 6), (9, 12)];
    assert_eq!(first_feasible_time(&ivs, 0, 20), Some(4));
    assert_eq!(first_feasible_time(&ivs, 5, 20), Some(7));
    assert_eq!(first_feasible_time(&ivs, 9, 12), None);
    assert_eq!(first_feasible_time(&ivs, 13, 20), Some(13));
    assert_eq!(first_feasible_time(&[], 2, 3), Some(2));
}

#[test]
fn first_feasible_time_empty_window() {
    assert_eq!(first_feasible_time(&[(0, 1)], 5, 4), None);
}

#[test]
fn old_time_info_clips_overlap_to_window() {
    let info = old_time_info(old_block(10, 20), 5, 0, 100).unwrap();
    assert_eq!(info.overlap_entry_time_min, 6);
    assert_eq!(info.overlap_entry_time_max, 19);
    let clipped = old_time_info(old_block(10, 20), 5, 8, 15).unwrap();
    assert_eq!(clipped.overlap_entry_time_min, 8);
    assert_eq!(clipped.overlap_entry_time_max, 15);
    assert!(old_time_info(old_block(10, 20), 5, 20, 30).is_none());
    assert!(old_time_info(old_block(10, 20), 5, 0, 5).is_none());
}

#[test]
fn forbidden_interval_set_follows_crane_rule() {
    let info = old_time_info(old_block(10, 20), 5, 0, 100).unwrap();
    assert_eq!(forbidden_interval_set(info, false, false).as_slice(), &[] as &[(i64, i64)]);
    assert_eq!(forbidden_interval_set(info, true, true).as_slice(), &[(6, 19)]);
    // only new-over-old hits: the old stay never lies inside the new one here
    assert_eq!(forbidden_interval_set(info, true, false).as_slice(), &[(6, 19)]);
    // only old-over-new hits: allowed while the new stay lies inside the old one
    assert_eq!(forbidden_interval_set(info, false, true).as_slice(), &[(6, 10), (15, 19)]);
}

#[test]
fn interval_set_push_and_slice() {
    let mut set = IntervalSet::empty();
    set.push((1, 2));
    set.push((4, 5));
    assert_eq!(set.as_slice(), &[(1, 2), (4, 5)]);
    assert_eq!(SlotSet::empty().as_slice(), &[] as &[u32]);
}

#[test]
fn active_slots_report_earliest_free_time() {
    let intervals = [(0, 2), (1, 4), (6, 8)];
    let mut active = ActiveIntervalSlots::new(intervals.len());
    assert_eq!(active.first_feasible_time(&intervals, 0, 10), Some(0));
    active.set(0, true);
    active.set(2, true);
    assert_eq!(active.first_feasible_time(&intervals, 0, 10), Some(3));
    assert_eq!(active.iter(&intervals), vec![(0, 2), (6, 8)]);
    active.set(1, true);
    assert_eq!(active.first_feasible_time(&intervals, 0, 10), Some(5));
    assert_eq!(active.first_feasible_time(&intervals, 6, 8), None);
    active.set(1, false);
    assert_eq!(active.first_feasible_time(&intervals, 0, 10), Some(3));
    active.clear();
    assert_eq!(active.iter(&intervals), vec![]);
}

#[test]
fn active_slots_across_words() {
    let mut intervals = Vec::new();
    for i in 0..200i64 {
        intervals.push((i * 10, i * 10 + 9));
    }
    let mut active = ActiveIntervalSlots::new(intervals.len());
    for s in 0..150usize {
        active.set(s, true);
    }
    assert_eq!(active.first_feasible_time(&intervals, 0, 5000), Some(1500));
    let mut iterations = 0u64;
    let mut visits = 0u64;
    let mut forbidden = 0u64;
    let r = active.first_feasible_time_profiled(&intervals, 0, 5000, &mut iterations, &mut visits, &mut forbidden);
    assert_eq!(r, Some(1500));
    assert_eq!(iterations, 1);
}

#[test]
fn forbidden_intervals_merge_base_and_active() {
    let intervals = [(3, 5), (10, 12)];
    let owners = [0u32, 0u32];
    let mut active = ActiveIntervalSlots::new(intervals.len());
    active.set(0, true);
    let f = ForbiddenIntervals { active: &active, intervals: &intervals, owners: &owners };
    assert_eq!(f.first_feasible_time(&[(0, 2)], 0, 20), Some(6));
    assert_eq!(f.first_feasible_time(&[(6, 9)], 0, 20), Some(0));
    assert_eq!(f.first_feasible_time(&[(0, 2), (6, 9)], 0, 20), Some(10));
    assert_eq!(f.first_feasible_time(&[], 3, 5), None);
}

#[test]
fn slot_precompute_numbers_intervals_in_order() {
    let a = old_time_info(old_block(10, 20), 5, 0, 100);
    let b = old_time_info(old_block(0, 4), 5, 0, 100);
    let pre = build_forbidden_slot_precompute(&[a, None, b]);
    assert_eq!(pre.states.len(), 3);
    // sorted by left end
    for w in pre.intervals.windows(2) {
        assert!(w[0] <= w[1]);
    }
    // both hits forbid the whole overlap of each old block
    let both_a = pre.states[0][3];
    assert_eq!(both_a.as_slice().len(), 1);
    assert_eq!(pre.intervals[both_a.as_slice()[0] as usize], (6, 19));
    assert_eq!(pre.owners[both_a.as_slice()[0] as usize], 0);
    let both_b = pre.states[2][3];
    assert_eq!(pre.intervals[both_b.as_slice()[0] as usize], (0, 3));
    assert_eq!(pre.states[1][3].as_slice().len(), 0);
    assert_eq!(pre.states[0][0].as_slice().len(), 0);
}

#[test]
fn merge_sorted_intervals_joins_touching() {
    let mut out = vec![(100, 101)];
    merge_sorted_intervals(&[(0, 2), (1, 5), (6, 7), (9, 9)], &mut out);
    assert_eq!(out, vec![(100, 101), (0, 7), (9, 9)]);
}

#[test]
fn merge_x_ranges_unions_ranges() {
    let mut ranges = vec![
        XRange { min_x: 8, max_x: 9 },
        XRange { min_x: 0, max_x: 3 },
        XRange { min_x: 4, max_x: 5 },
        XRange { min_x: 11, max_x: 12 },
    ];
    merge_x_ranges(&mut ranges);
    assert_eq!(ranges, vec![XRange { min_x: 0, max_x: 5 }, XRange { min_x: 8, max_x: 9 }, XRange { min_x: 11, max_x: 12 }]);
}

#[test]
fn forbidden_interval_set_cuts_the_allowed_window_exactly() {
    let info = old_time_info(old_block(2, 10), 3, 0, 100).unwrap();
    assert_eq!(forbidden_interval_set(info, false, true).as_slice(), &[(0, 2), (7, 9)]);
    assert_eq!(forbidden_interval_set(info, true, false).as_slice(), &[(0, 9)]);
    assert_eq!(forbidden_interval_set(info, true, true).as_slice(), &[(0, 9)]);
    assert_eq!(forbidden_interval_set(info, false, false).as_slice(), &[] as &[(i64, i64)]);
}

#[test]
fn first_feasible_time_past_an_empty_window() {
    let intervals = [(0, 2), (6, 8)];
    let mut active = ActiveIntervalSlots::new(intervals.len());
    active.set(0, true);
    active.set(1, true);
    // the window [5, 4] is empty: the start itself is answered when free
    assert_eq!(active.first_feasible_time(&intervals, 5, 4), Some(5));
    assert_eq!(active.first_feasible_time(&intervals, 7, 4), None);
    let owners = [0u32, 0u32];
    let f = ForbiddenIntervals { active: &active, intervals: &intervals, owners: &owners };
    // free and an interval starts after it
    assert_eq!(f.first_feasible_time(&[], 5, 4), Some(5));
    // covered
    assert_eq!(f.first_feasible_time(&[], 7, 4), None);
    // free but nothing starts after it
    assert_eq!(f.first_feasible_time(&[], 9, 4), None);
}

#[test]
fn profiled_scan_visits_each_active_slot_at_most_once() {
    let intervals = [(0, 2), (3, 4), (6, 8)];
    let mut active = ActiveIntervalSlots::new(intervals.len());
    active.set(0, true);
    active.set(1, true);
    let mut iterations = 0u64;
    let mut visits = 0u64;
    let mut forbidden = 0u64;
    let r = active.first_feasible_time_profiled(&intervals, 0, 10, &mut iterations, &mut visits, &mut forbidden);
    assert_eq!(r, Some(5));
    assert_eq!(visits, 2);
    assert_eq!(forbidden, 2);
}
