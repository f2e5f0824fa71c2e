use ogc2026::beam;
use ogc2026::tabu::mix_hash;
use ogc2026::scanner::PlacementXScanner;
use ogc2026::pairs::{collect_pair_requests, PairRequest};
use std::collections::BTreeSet;
use ogc2026::collision::{BlockOrient, CollisionPrecompute, OrientPairCollision};
use ogc2026::feasibility::can_insert;
use ogc2026::grid::{CollisionGridBuilder, DeltaRange};
use ogc2026::model::Boundsi;
use ogc2026::admission::{build_admission_order, PreoptimizedBlock};
use ogc2026::precedence::{build_beam_precedence_context, entry_time_bounds_for_state, EntryTimeBounds, HeuristicPrecedence};
use ogc2026::horizons::{build_horizons, build_rolling_horizons};
use ogc2026::tabu::TabuList;
use ogc2026::cases::{case_key_number, case_number, case_number_of_stem, compare_case_keys, compare_cases, natural_case_key};
use ogc2026::insert_profile::InsertProfile;
use ogc2026::load::{load_schedule, LoadError};
use ogc2026::model::{Bay, Block, Problem, ScheduledBlock};
use ogc2026::precompute::{build_bay_order_by_pref, build_pref_penalty, build_pref_spread};
use ogc2026::profile::{mask_name, weight_name, Outcome, WeightStats};
use ogc2026::solution::{schedule_to_solution, OpType, Operation, Solution};
use std::cmp::Ordering;
use std::collections::BTreeMap;

fn problem() -> Problem {
    Problem {
        bays: vec![Bay { width: 10, height: 10 }, Bay { width: 5, height: 5 }, Bay { width: 8, height: 3 }],
        blocks: vec![
            Block { release_time: 2, due_date: 20, processing_time: 5, workload: 3, bay_preferences: vec![7, -2, 7], orientation_count: 2 },
            Block { release_time: 0, due_date: 8, processing_time: 4, workload: 1, bay_preferences: vec![], orientation_count: 1 },
        ],
    }
}

#[test]
fn pref_penalty_is_shortfall_from_best() {
    let p = build_pref_penalty(&problem());
    assert_eq!(p, vec![vec![0, 9, 0], vec![]]);
}

#[test]
fn pref_spread_is_max_minus_min() {
    assert_eq!(build_pref_spread(&problem()), vec![9, 0]);
}

#[test]
fn bays_ordered_by_preference_then_index() {
    let order = build_bay_order_by_pref(&problem());
    assert_eq!(order[0], vec![0, 2, 1]);
    assert_eq!(order[1], vec![0, 1, 2]);
}

#[test]
fn case_numbers_come_from_prob_stems() {
    assert_eq!(case_number("cases/prob_012.json"), Some(12));
    assert_eq!(case_number("prob_7"), Some(7));
    assert_eq!(case_number("prob_+7.json"), Some(7));
    assert_eq!(case_number("problem_7.json"), None);
    assert_eq!(case_number("prob_.json"), None);
    assert_eq!(case_number("prob_1x.json"), None);
    assert_eq!(case_number("prob_99999999999999999999.json"), None);
    assert_eq!(case_number_of_stem("prob_18446744073709551615"), Some(u64::MAX));
}

#[test]
fn cases_sort_by_number_then_name() {
    assert_eq!(compare_cases("prob_2.json", "prob_10.json"), Ordering::Less);
    assert_eq!(compare_cases("prob_10.json", "prob_2.json"), Ordering::Greater);
    assert_eq!(compare_cases("a/prob_3.json", "b/prob_3.json"), Ordering::Less);
    assert_eq!(compare_cases("x.json", "prob_1.json"), Ordering::Greater);
    assert_eq!(compare_cases("same", "same"), Ordering::Equal);
    assert_eq!(compare_case_keys("b", Some(1), "a", Some(2)), Ordering::Less);
    assert_eq!(compare_case_keys("b", None, "a", Some(2)), Ordering::Greater);
    assert_eq!(compare_case_keys("ab", None, "abc", None), Ordering::Less);
}

#[test]
fn natural_keys_split_directory_number_and_stem() {
    assert_eq!(natural_case_key("data/case_17.json"), ("data".to_string(), 17, "case_17".to_string()));
    assert_eq!(natural_case_key("case.json"), (String::new(), usize::MAX, "case".to_string()));
    assert_eq!(natural_case_key("a_b_x.json"), (String::new(), usize::MAX, "a_b_x".to_string()));
    assert_eq!(case_key_number("a_2_30"), 30);
    assert_eq!(case_key_number("a_"), usize::MAX);
}

#[test]
fn directory_paths_give_directory_number_and_stem() {
    assert_eq!(natural_case_key("train/prob_12.json"), ("train".to_string(), 12, "prob_12".to_string()));
    assert_eq!(natural_case_key("train/case.json"), ("train".to_string(), usize::MAX, "case".to_string()));
    assert_eq!(natural_case_key("a/b/prob_1.json"), ("a/b".to_string(), 1, "prob_1".to_string()));
    assert!(natural_case_key("train/prob_2.json") < natural_case_key("train/prob_10.json"));
    assert_eq!(case_number("train/prob_12.json"), Some(12));
    assert_eq!(compare_cases("out/prob_10.json", "prob_10.json"), Ordering::Less);
    assert_eq!(compare_cases("prob_3.json", "alpha.json"), Ordering::Greater);
    assert_eq!(compare_cases("x/prob_2.json", "a/prob_10.json"), Ordering::Less);
}

#[test]
fn plain_file_names_give_their_stem() {
    assert_eq!(natural_case_key("prob_12.json"), (String::new(), 12, "prob_12".to_string()));
    assert_eq!(natural_case_key("prob_3.tar.gz"), (String::new(), usize::MAX, "prob_3.tar".to_string()));
    assert_eq!(natural_case_key(".hidden"), (String::new(), usize::MAX, ".hidden".to_string()));
    assert_eq!(case_number("prob_2.json"), Some(2));
    assert_eq!(case_number("prob_2"), Some(2));
    assert_eq!(compare_cases("prob_9.json", "prob_10.json"), Ordering::Less);
    assert_eq!(compare_cases("prob_10.json", "prob_10.json"), Ordering::Equal);
}

#[test]
fn mask_names_join_weights() {
    assert_eq!(weight_name(2), "limit_time_urgency");
    assert_eq!(mask_name(0b000101), "volume+limit_time_urgency");
    assert_eq!(mask_name(0b100000), "random");
    assert_eq!(mask_name(0), "");
}

#[test]
fn record_counts_bins_pairs_and_top_sets() {
    let mut stats = WeightStats::new();
    let bins = vec![0, 7, 3, 3, 1, 2];
    let order = vec![1, 4, 0, 2, 3, 5];
    stats.record(&bins, &order, Outcome::Changed);
    stats.record(&bins, &order, Outcome::Failed);
    assert_eq!(stats.total.changed, 1);
    assert_eq!(stats.total.failed, 1);
    assert_eq!(stats.marginal[1 * 8 + 7].changed, 1);
    assert_eq!(stats.marginal[1 * 8 + 6].changed, 0);
    let pair = ((0 * 6 + 1) * 8 + 0) * 8 + 7;
    assert_eq!(stats.pairs[pair].attempts(), 2);
    assert_eq!(stats.pairs.iter().map(|c| c.attempts()).sum::<u64>(), 2 * 15);
    assert_eq!(stats.top2[0b010010].attempts(), 2);
    assert_eq!(stats.top3[0b010011].failed, 1);
}

#[test]
fn insert_profiles_merge_by_sums() {
    let mut a = InsertProfile::new();
    a.calls = 2;
    a.total = 500;
    a.candidates = 7;
    let mut b = InsertProfile::new();
    b.calls = 1;
    b.total = 250;
    b.candidates = 3;
    b.events = 4;
    assert!(a.can_merge(&b));
    a.merge(b);
    assert_eq!((a.calls, a.total, a.candidates, a.events), (3, 750, 10, 4));
    let mut full = InsertProfile::new();
    full.calls = u64::MAX;
    assert!(!full.can_merge(&b));
}

fn schedule() -> Vec<ScheduledBlock> {
    vec![
        ScheduledBlock { block_id: 0, bay_id: 1, orient_idx: 1, x: 3, y: -4, entry_time: 2, exit_time: 9 },
        ScheduledBlock { block_id: 1, bay_id: 0, orient_idx: 0, x: 0, y: 5, entry_time: 0, exit_time: 2 },
    ]
}

#[test]
fn load_reads_back_written_schedule() {
    let sol = schedule_to_solution(&schedule());
    assert_eq!(load_schedule(&sol, 3, &vec![2, 1]), Ok(schedule()));
}

fn one_step(ops: Vec<Operation>) -> Solution {
    let mut operations = BTreeMap::new();
    operations.insert(0, ops);
    Solution { operations }
}

fn entry(block_id: usize, bay_id: usize, orient: usize) -> Operation {
    Operation { op_type: OpType::Entry, block_id, bay_id, x: Some(1), y: Some(1), orient_idx: Some(orient) }
}

fn exit(block_id: usize, bay_id: usize) -> Operation {
    Operation { op_type: OpType::Exit, block_id, bay_id, x: None, y: None, orient_idx: None }
}

#[test]
fn load_reports_each_error() {
    let counts = vec![2];
    assert_eq!(load_schedule(&one_step(vec![exit(3, 0)]), 1, &counts), Err(LoadError::MissingBlock { block_id: 3 }));
    let mut e = entry(0, 0, 0);
    e.x = None;
    assert_eq!(load_schedule(&one_step(vec![e]), 1, &counts), Err(LoadError::EntryWithoutX));
    let mut e = entry(0, 0, 0);
    e.y = None;
    assert_eq!(load_schedule(&one_step(vec![e]), 1, &counts), Err(LoadError::EntryWithoutY));
    let mut e = entry(0, 0, 0);
    e.orient_idx = None;
    assert_eq!(load_schedule(&one_step(vec![e]), 1, &counts), Err(LoadError::EntryWithoutOrientation));
    assert_eq!(load_schedule(&one_step(vec![entry(0, 1, 0)]), 1, &counts), Err(LoadError::InvalidBay { block_id: 0, bay_id: 1 }));
    assert_eq!(
        load_schedule(&one_step(vec![entry(0, 0, 2)]), 1, &counts),
        Err(LoadError::InvalidOrientation { block_id: 0, orient_idx: 2 })
    );
    assert_eq!(
        load_schedule(&one_step(vec![entry(0, 0, 0), entry(0, 0, 1)]), 1, &counts),
        Err(LoadError::DuplicateEntry { block_id: 0 })
    );
    let mut x = exit(0, 0);
    x.y = Some(2);
    assert_eq!(load_schedule(&one_step(vec![x]), 1, &counts), Err(LoadError::ExitWithPlacement { block_id: 0 }));
    assert_eq!(load_schedule(&one_step(vec![exit(0, 0), exit(0, 0)]), 1, &counts), Err(LoadError::DuplicateExit { block_id: 0 }));
    assert_eq!(load_schedule(&one_step(vec![exit(0, 0)]), 1, &counts), Err(LoadError::NoEntry { block_id: 0 }));
    assert_eq!(load_schedule(&one_step(vec![entry(0, 0, 0)]), 1, &counts), Err(LoadError::NoExit { block_id: 0 }));
    assert_eq!(
        load_schedule(&one_step(vec![entry(0, 0, 0), exit(0, 1)]), 2, &counts),
        Err(LoadError::BayMismatch { block_id: 0 })
    );
    assert_eq!(
        load_schedule(&one_step(vec![entry(0, 0, 0), exit(0, 0)]), 1, &counts),
        Err(LoadError::NonPositiveOccupancy { block_id: 0 })
    );
}

#[test]
fn load_stops_at_first_error_in_time_order() {
    let mut operations = BTreeMap::new();
    operations.insert(5, vec![exit(9, 0)]);
    operations.insert(1, vec![entry(0, 7, 0)]);
    let sol = Solution { operations };
    assert_eq!(load_schedule(&sol, 1, &vec![1]), Err(LoadError::InvalidBay { block_id: 0, bay_id: 7 }));
}

#[test]
fn horizons_split_evenly() {
    assert_eq!(build_horizons(&[0; 10], 4), vec![(0, 3), (3, 6), (6, 10)]);
    assert_eq!(build_horizons(&[0; 8], 4), vec![(0, 4), (4, 8)]);
    assert_eq!(build_horizons(&[], 4), vec![]);
}

#[test]
fn rolling_horizons_keep_equal_entry_times_together() {
    let order = [0, 1, 2, 3, 4];
    let times = [5, 5, 5, 7, 8];
    assert_eq!(build_rolling_horizons(&order, &times, 2), vec![(0, 3), (3, 5)]);
    assert_eq!(build_rolling_horizons(&[4, 3, 2, 1, 0], &times, 1), vec![(0, 1), (1, 2), (2, 5)]);
    assert_eq!(build_rolling_horizons(&[], &times, 3), vec![]);
}

#[test]
fn tabu_list_with_zero_capacity_is_off() {
    let mut off = TabuList::new(0);
    off.insert(7);
    assert!(!off.contains(7));
    let mut list = TabuList::new(2);
    list.insert(1);
    list.insert(2);
    list.insert(3);
    assert!(!list.contains(1));
    assert!(list.contains(2) && list.contains(3));
}

fn block(release_time: i64, due_date: i64, processing_time: i64) -> Block {
    Block { release_time, due_date, processing_time, workload: 1, bay_preferences: vec![], orientation_count: 1 }
}

#[test]
fn admission_orders_by_entry_due_and_id() {
    let problem = Problem { bays: vec![], blocks: vec![block(0, 10, 1), block(0, 1, 1), block(0, 2, 1), block(0, 2, 1)] };
    let preopt = vec![
        PreoptimizedBlock { bay_id: 0, entry_time: 5 },
        PreoptimizedBlock { bay_id: 0, entry_time: 3 },
        PreoptimizedBlock { bay_id: 1, entry_time: 5 },
        PreoptimizedBlock { bay_id: 1, entry_time: 5 },
    ];
    assert_eq!(build_admission_order(&problem, &preopt), vec![1, 2, 3, 0]);
}

fn at(block_id: usize, entry_time: i64, exit_time: i64) -> ScheduledBlock {
    ScheduledBlock { block_id, bay_id: 0, orient_idx: 0, x: 0, y: 0, entry_time, exit_time }
}

fn precedence() -> (Problem, HeuristicPrecedence) {
    let problem = Problem { bays: vec![], blocks: vec![block(0, 9, 5), block(1, 9, 3), block(2, 30, 4), block(0, 40, 2)] };
    let constraints = HeuristicPrecedence {
        predecessors: vec![vec![], vec![], vec![0, 1], vec![2]],
        successors: vec![vec![2], vec![2], vec![3], vec![]],
    };
    (problem, constraints)
}

#[test]
fn precedence_windows_follow_kept_neighbours() {
    let (problem, constraints) = precedence();
    let base = vec![Some(at(0, 0, 5)), None, None, Some(at(3, 20, 22))];
    let ctx = build_beam_precedence_context(&problem, &constraints, &base, &[1, 2]).unwrap();
    assert_eq!(ctx.base_bounds[1], EntryTimeBounds { min: 1, max: i64::MAX });
    assert_eq!(ctx.base_bounds[2], EntryTimeBounds { min: 5, max: 16 });
    assert_eq!(ctx.base_bounds[0], EntryTimeBounds { min: 0, max: i64::MAX });
    assert_eq!(ctx.removed_predecessor_positions[2], vec![0]);
    assert!(ctx.removed_predecessor_positions[1].is_empty());
    assert_eq!(entry_time_bounds_for_state(&problem, Some(&ctx), &[at(1, 1, 9)], 2), Some(EntryTimeBounds { min: 9, max: 16 }));
    assert_eq!(entry_time_bounds_for_state(&problem, Some(&ctx), &[at(1, 1, 17)], 2), None);
    assert_eq!(entry_time_bounds_for_state(&problem, Some(&ctx), &[], 2), None);
    assert_eq!(entry_time_bounds_for_state(&problem, None, &[], 2), Some(EntryTimeBounds { min: 2, max: i64::MAX }));
}

#[test]
fn precedence_fails_without_kept_placement_or_room() {
    let (problem, constraints) = precedence();
    let missing = vec![Some(at(0, 0, 5)), None, None, None];
    assert!(build_beam_precedence_context(&problem, &constraints, &missing, &[1, 2]).is_none());
    let tight = vec![Some(at(0, 0, 18)), None, None, Some(at(3, 20, 22))];
    assert!(build_beam_precedence_context(&problem, &constraints, &tight, &[1, 2]).is_none());
}

fn two_block_precompute() -> CollisionPrecompute {
    let range = Some(Boundsi { min_x: 0, max_x: 10, min_y: 0, max_y: 10 });
    let mut pre = CollisionPrecompute::with_fit_ranges(vec![vec![vec![range], vec![range]]], &[1, 1]);
    let mut builder = CollisionGridBuilder::new(DeltaRange { min_dx: -2, max_dx: 2, min_dy: -2, max_dy: 2 });
    builder.add_x_interval(0, -1, 1);
    let grid = builder.finish();
    let a = BlockOrient { block_id: 0, orient_idx: 0 };
    let b = BlockOrient { block_id: 1, orient_idx: 0 };
    pre.publish_crane_pair(a, b, OrientPairCollision { crane: grid.clone() });
    pre.publish_crane_pair(b, a, OrientPairCollision { crane: grid });
    pre
}

fn placed_at(block_id: usize, bay_id: usize, x: i64, entry_time: i64, exit_time: i64) -> ScheduledBlock {
    ScheduledBlock { block_id, bay_id, orient_idx: 0, x, y: 5, entry_time, exit_time }
}

#[test]
fn insertion_checks_overlapping_crane_paths() {
    let pre = two_block_precompute();
    let schedule = vec![placed_at(1, 0, 5, 0, 10)];
    assert!(!can_insert(&pre, placed_at(0, 0, 5, 5, 8), &schedule));
    assert!(!can_insert(&pre, placed_at(0, 0, 6, 5, 12), &schedule));
    assert!(can_insert(&pre, placed_at(0, 0, 9, 5, 8), &schedule));
    assert!(can_insert(&pre, placed_at(0, 0, 5, 10, 12), &schedule));
    assert!(can_insert(&pre, placed_at(0, 1, 5, 5, 8), &schedule));
}

#[test]
fn pair_requests_are_normalized() {
    let r = PairRequest::new(5, 2, 1);
    assert_eq!((r.first_block_id, r.second_block_id, r.bay_id), (2, 5, 1));
    assert_eq!(r.key(), (2, 5, 1));
}

#[test]
fn pair_requests_collect_overlapping_stays_in_a_bay() {
    let schedule = vec![
        placed_at(0, 0, 0, 0, 5),
        placed_at(1, 0, 0, 3, 8),
        placed_at(2, 1, 0, 0, 5),
        placed_at(3, 0, 0, 5, 9),
    ];
    let mut requests = BTreeSet::new();
    requests.insert((9, 9, 9));
    collect_pair_requests(&schedule, &mut requests);
    assert_eq!(requests.into_iter().collect::<Vec<_>>(), vec![(0, 1, 0), (1, 3, 0), (9, 9, 9)]);
}

#[test]
fn scanned_candidates_pass_the_insertion_check() {
    let pre = two_block_precompute();
    let problem = Problem { bays: vec![Bay { width: 10, height: 10 }], blocks: vec![block(0, 100, 3), block(0, 100, 10)] };
    let schedule = vec![placed_at(1, 0, 5, 0, 10)];
    let mut scanner = PlacementXScanner::new(&problem, &pre, &schedule, 0, 0, 0, 100).unwrap();
    let candidates = scanner.scan_y(0, 5);
    assert!(!candidates.is_empty());
    for c in &candidates {
        assert!(can_insert(&pre, *c, &schedule));
        assert_eq!(c.exit_time, c.entry_time + 3);
    }
    assert!(candidates.iter().any(|c| c.x == 4 && c.entry_time == 10));
    assert!(candidates.iter().any(|c| c.x == 0 && c.entry_time == 0));
}

#[test]
fn beam_hashes_mix_fields_in_order() {
    let b = ScheduledBlock { block_id: 3, bay_id: 1, orient_idx: 2, x: -4, y: 7, entry_time: 11, exit_time: 20 };
    let mut h: u64 = 1469598103934665603;
    for v in [3u64, 1, 2, 7] {
        h = (h ^ v).wrapping_mul(1099511628211);
    }
    assert_eq!(beam::hash_block_placement(b), h);
    let exact = mix_hash(mix_hash(mix_hash(h, -4i64 as u64), 7), 11);
    assert_eq!(beam::hash_scheduled_block(b), exact);
    let later_exit = ScheduledBlock { exit_time: 99, ..b };
    assert_eq!(beam::hash_scheduled_block(later_exit), exact);
    let later_entry = ScheduledBlock { entry_time: 12, ..b };
    assert_ne!(beam::hash_scheduled_block(later_entry), exact);
}
