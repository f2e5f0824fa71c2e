use ogc2026::trace::PlacementBlocker;
use ogc2026::collision::{build_empty_block_pair, BlockOrient, CollisionPrecompute, OrientPairCache, OrientPairCollision};
use ogc2026::events::{apply_x_event, counting_sort_x_events, hit_state_index, push_x_event, HitState, XEvent};
use ogc2026::grid::{CollisionGrid, CollisionGridBuilder, DeltaRange};
use ogc2026::model::{Bay, Block, Boundsi, Problem, ScheduledBlock};
use ogc2026::scanner::{PlacementXScanner, XScan};

#[test]
fn push_x_event_clips_and_closes() {
    let mut events = Vec::new();
    push_x_event(-5, 3, 7, 1, 0, 10, &mut events);
    assert_eq!(events, vec![
        XEvent { x_offset: 0, old_idx: 7, update: 1 },
        XEvent { x_offset: 4, old_idx: 7, update: -1 },
    ]);
    push_x_event(8, 20, 2, 2, 0, 10, &mut events);
    assert_eq!(events[2], XEvent { x_offset: 8, old_idx: 2, update: 2 });
    assert_eq!(events[3], XEvent { x_offset: 11, old_idx: 2, update: -2 });
    push_x_event(12, 20, 2, 2, 0, 10, &mut events);
    assert_eq!(events.len(), 4);
}

#[test]
fn counting_sort_is_stable_by_offset() {
    let mut events = vec![
        XEvent { x_offset: 3, old_idx: 0, update: 1 },
        XEvent { x_offset: 1, old_idx: 1, update: 1 },
        XEvent { x_offset: 3, old_idx: 2, update: -1 },
        XEvent { x_offset: 0, old_idx: 3, update: 2 },
        XEvent { x_offset: 1, old_idx: 4, update: -2 },
    ];
    let mut scratch = Vec::new();
    let mut counts = Vec::new();
    counting_sort_x_events(&mut events, &mut scratch, &mut counts, 10, 13);
    let order: Vec<u32> = events.iter().map(|e| e.old_idx).collect();
    assert_eq!(order, vec![3, 1, 4, 0, 2]);
}

#[test]
fn hit_state_counts_and_index() {
    let mut states = vec![HitState::zero(); 2];
    apply_x_event(XEvent { x_offset: 0, old_idx: 1, update: 1 }, &mut states);
    assert_eq!(hit_state_index(states[1]), 1);
    apply_x_event(XEvent { x_offset: 0, old_idx: 1, update: 2 }, &mut states);
    assert_eq!(hit_state_index(states[1]), 3);
    apply_x_event(XEvent { x_offset: 1, old_idx: 1, update: -1 }, &mut states);
    assert_eq!(hit_state_index(states[1]), 2);
    assert_eq!(hit_state_index(states[0]), 0);
}

fn square_grid() -> CollisionGrid {
    let mut builder = CollisionGridBuilder::new(DeltaRange { min_dx: -3, max_dx: 3, min_dy: -2, max_dy: 2 });
    builder.add_x_interval(0, -1, 1);
    builder.add_x_interval(0, 2, 2);
    builder.add_x_interval(1, -10, 0);
    builder.add_x_interval(5, 0, 0);
    builder.finish()
}

#[test]
fn grid_builder_merges_and_clips_rows() {
    let grid = square_grid();
    assert_eq!(grid.dx_intervals(0), &[(-1, 2)]);
    assert_eq!(grid.dx_intervals(1), &[(-3, 0)]);
    assert_eq!(grid.dx_intervals(-1), &[] as &[(i64, i64)]);
    assert_eq!(grid.dx_intervals(5), &[] as &[(i64, i64)]);
}

#[test]
fn grid_builder_adds_grids_and_reversed_grids() {
    let grid = square_grid();
    let mut copy = CollisionGridBuilder::new(DeltaRange { min_dx: -3, max_dx: 3, min_dy: -2, max_dy: 2 });
    copy.add_grid(&grid);
    let copy = copy.finish();
    assert_eq!(copy.dx_intervals(0), &[(-1, 2)]);
    let mut rev = CollisionGridBuilder::new(DeltaRange { min_dx: -3, max_dx: 3, min_dy: -2, max_dy: 2 });
    rev.add_reversed_grid(&grid);
    let rev = rev.finish();
    assert_eq!(rev.dx_intervals(0), &[(-2, 1)]);
    assert_eq!(rev.dx_intervals(-1), &[(0, 3)]);
}

fn block(release_time: i64, processing_time: i64) -> Block {
    Block { release_time, due_date: 100, processing_time, workload: 1, bay_preferences: vec![0], orientation_count: 1 }
}

fn line_grid() -> CollisionGrid {
    let mut builder = CollisionGridBuilder::new(DeltaRange { min_dx: -3, max_dx: 3, min_dy: -1, max_dy: 1 });
    builder.add_x_interval(0, -1, 1);
    builder.finish()
}

fn two_block_table() -> CollisionPrecompute {
    let fit = Some(Boundsi { min_x: 0, max_x: 9, min_y: 0, max_y: 0 });
    let fit_ranges = vec![vec![vec![fit], vec![fit]]];
    let mut pre = CollisionPrecompute::with_fit_ranges(fit_ranges, &[1, 1]);
    let a = BlockOrient { block_id: 0, orient_idx: 0 };
    let b = BlockOrient { block_id: 1, orient_idx: 0 };
    pre.publish_crane_pair(a, b, OrientPairCollision { crane: line_grid() });
    pre.publish_crane_pair(b, a, OrientPairCollision { crane: line_grid() });
    pre
}

#[test]
fn collision_table_publishes_once() {
    let pre = two_block_table();
    let a = BlockOrient { block_id: 0, orient_idx: 0 };
    let b = BlockOrient { block_id: 1, orient_idx: 0 };
    assert!(pre.crane_pair(a, a).is_none());
    assert!(pre.crane_pairs_both_directions(a, b).is_some());
    assert_eq!(pre.fit_range(0, 0, 0), Some(Boundsi { min_x: 0, max_x: 9, min_y: 0, max_y: 0 }));
    assert_eq!(pre.fit_range(1, 0, 0), None);
    let pair = build_empty_block_pair(2, 3);
    assert_eq!(pair.fixed_orients, 3);
    assert_eq!(pair.orient_pairs.len(), 6);
    assert!(OrientPairCache::new().slot.is_none());
}

#[test]
fn scanner_reports_entry_times_where_hits_change() {
    let problem = Problem { bays: vec![Bay { width: 10, height: 1 }], blocks: vec![block(0, 5), block(0, 10)] };
    let pre = two_block_table();
    let old = ScheduledBlock { block_id: 1, bay_id: 0, orient_idx: 0, x: 5, y: 0, entry_time: 0, exit_time: 10 };
    let mut scanner = PlacementXScanner::new(&problem, &pre, &[old], 0, 0, 0, 20).unwrap();
    let scans = scanner.scan_y_ranges(0, 0, i64::MIN, i64::MAX);
    assert_eq!(scans, vec![
        XScan { x: 0, entry_time: Some(0) },
        XScan { x: 4, entry_time: Some(10) },
        XScan { x: 7, entry_time: Some(0) },
    ]);
    let candidates = scanner.scan_y(0, 0);
    assert_eq!(candidates.len(), 3);
    assert_eq!(candidates[1], ScheduledBlock { block_id: 0, bay_id: 0, orient_idx: 0, x: 4, y: 0, entry_time: 10, exit_time: 15 });
    // rows outside the fit range give nothing
    assert!(scanner.scan_y(0, 1).is_empty());
    // a narrowed range starts at its own left end
    let narrow = scanner.scan_y_ranges(0, 0, 5, 5);
    assert_eq!(narrow, vec![XScan { x: 5, entry_time: Some(10) }]);
}

#[test]
fn scanner_window_closed_by_max_entry() {
    let problem = Problem { bays: vec![Bay { width: 10, height: 1 }], blocks: vec![block(0, 5), block(0, 10)] };
    let pre = two_block_table();
    let old = ScheduledBlock { block_id: 1, bay_id: 0, orient_idx: 0, x: 5, y: 0, entry_time: 0, exit_time: 10 };
    let mut scanner = PlacementXScanner::new(&problem, &pre, &[old], 0, 0, 0, 8).unwrap();
    let scans = scanner.scan_y_ranges(0, 0, 4, 6);
    assert_eq!(scans, vec![XScan { x: 4, entry_time: None }]);
    assert!(PlacementXScanner::new(&problem, &pre, &[old], 0, 0, 9, 8).is_none());
}

#[test]
fn scanner_ignores_other_bays() {
    let problem = Problem { bays: vec![Bay { width: 10, height: 1 }], blocks: vec![block(3, 5), block(0, 10)] };
    let pre = two_block_table();
    let old = ScheduledBlock { block_id: 1, bay_id: 1, orient_idx: 0, x: 5, y: 0, entry_time: 0, exit_time: 10 };
    let mut scanner = PlacementXScanner::new(&problem, &pre, &[old], 0, 0, 0, 20).unwrap();
    let scans = scanner.scan_y_ranges(0, 0, i64::MIN, i64::MAX);
    assert_eq!(scans, vec![XScan { x: 0, entry_time: Some(3) }]);
}

#[test]
fn trace_fixed_placement_ranks_blockers() {
    let problem = Problem { bays: vec![Bay { width: 10, height: 1 }], blocks: vec![block(0, 5), block(0, 10)] };
    let pre = two_block_table();
    let old = ScheduledBlock { block_id: 1, bay_id: 0, orient_idx: 0, x: 5, y: 0, entry_time: 0, exit_time: 10 };
    let mut scanner = PlacementXScanner::new(&problem, &pre, &[old], 0, 0, 0, 20).unwrap();
    let trace = scanner.trace_fixed_placement(0, 5, 0, 2).unwrap();
    assert_eq!(trace.earliest_entry, 10);
    assert_eq!(trace.blockers, vec![PlacementBlocker { block_id: 1, overlap_days: 8 }]);
    let free = scanner.trace_fixed_placement(0, 0, 0, 2).unwrap();
    assert_eq!(free.earliest_entry, 2);
    assert!(free.blockers.is_empty());
    assert!(scanner.trace_fixed_placement(0, 20, 0, 2).is_none());
    assert!(scanner.trace_fixed_placement(0, 5, 0, 25).is_none());
}

fn touching_table() -> CollisionPrecompute {
    let fit = Some(Boundsi { min_x: 0, max_x: 8, min_y: 0, max_y: 0 });
    let fit_ranges = vec![vec![vec![fit], vec![fit]]];
    let mut pre = CollisionPrecompute::with_fit_ranges(fit_ranges, &[1, 1]);
    let a = BlockOrient { block_id: 0, orient_idx: 0 };
    let b = BlockOrient { block_id: 1, orient_idx: 0 };
    let grid = || {
        let mut builder = CollisionGridBuilder::new(DeltaRange { min_dx: -3, max_dx: 3, min_dy: -1, max_dy: 1 });
        builder.add_x_interval(0, -2, 2);
        builder.finish()
    };
    pre.publish_crane_pair(a, b, OrientPairCollision { crane: grid() });
    pre.publish_crane_pair(b, a, OrientPairCollision { crane: grid() });
    pre
}

#[test]
fn scan_y_reports_the_start_and_each_change_of_hits() {
    let problem = Problem { bays: vec![Bay { width: 10, height: 1 }], blocks: vec![block(0, 3), block(0, 3)] };
    let pre = touching_table();
    let old = ScheduledBlock { block_id: 0, bay_id: 0, orient_idx: 0, x: 0, y: 0, entry_time: 0, exit_time: 3 };
    let mut scanner = PlacementXScanner::new(&problem, &pre, &[old], 1, 0, 0, 100).unwrap();
    let candidates = scanner.scan_y(0, 0);
    assert_eq!(candidates, vec![
        ScheduledBlock { block_id: 1, bay_id: 0, orient_idx: 0, x: 0, y: 0, entry_time: 3, exit_time: 6 },
        ScheduledBlock { block_id: 1, bay_id: 0, orient_idx: 0, x: 3, y: 0, entry_time: 0, exit_time: 3 },
    ]);
}

#[test]
fn scanner_accepts_an_open_upper_entry_bound() {
    let problem = Problem { bays: vec![Bay { width: 10, height: 1 }], blocks: vec![block(0, 3), block(0, 3)] };
    let pre = touching_table();
    let old = ScheduledBlock { block_id: 0, bay_id: 0, orient_idx: 0, x: 0, y: 0, entry_time: 0, exit_time: 3 };
    let mut scanner = PlacementXScanner::new(&problem, &pre, &[old], 1, 0, 0, i64::MAX).unwrap();
    let candidates = scanner.scan_y(0, 0);
    assert_eq!(candidates[0], ScheduledBlock { block_id: 1, bay_id: 0, orient_idx: 0, x: 0, y: 0, entry_time: 3, exit_time: 6 });
    assert_eq!(candidates.len(), 2);
}

#[test]
fn publishing_one_pair_leaves_the_others() {
    let fit = Some(Boundsi { min_x: 0, max_x: 9, min_y: 0, max_y: 0 });
    let mut pre = CollisionPrecompute::with_fit_ranges(vec![vec![vec![fit, fit], vec![fit, fit]]], &[2, 2]);
    let a0 = BlockOrient { block_id: 0, orient_idx: 0 };
    let a1 = BlockOrient { block_id: 0, orient_idx: 1 };
    let b0 = BlockOrient { block_id: 1, orient_idx: 0 };
    let b1 = BlockOrient { block_id: 1, orient_idx: 1 };
    pre.publish_crane_pair(a0, b1, OrientPairCollision { crane: line_grid() });
    assert!(pre.crane_pair(a0, b1).is_some());
    assert!(pre.crane_pair(a0, b0).is_none());
    assert!(pre.crane_pair(a1, b1).is_none());
    assert!(pre.crane_pair(b1, a0).is_none());
}
