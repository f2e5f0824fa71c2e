use ogc2026::model::{Bay, Block, Problem, ScheduledBlock};
use ogc2026::presolve::{make_presolve_block, placement_order, PresolveBlock};
use ogc2026::profile::{Outcome, OutcomeCounts, WeightStats};
use ogc2026::random::{BufferedRandom, DiscreteSampler, RandPcg64Mcg, Random, RandomSampler, XorShift32};
use ogc2026::solution::{schedule_to_solution, OpType};
use ogc2026::solver_util::{
    bay_tardiness, block_pref_spread, block_slack, horizontal_anchor, push_removed_block, HorizontalAnchor,
    InsertAnchor, NeighborKind,
};
use ogc2026::tabu::{hash_scheduled_block, mix_hash, ScheduleKey, ScheduleTabu};
use ogc2026::time::Timer;
use std::cmp::Ordering;

fn problem() -> Problem {
    Problem {
        bays: vec![Bay { width: 10, height: 10 }, Bay { width: 5, height: 5 }],
        blocks: vec![
            Block { release_time: 2, due_date: 20, processing_time: 5, workload: 3, bay_preferences: vec![7, -2, 4], orientation_count: 2 },
            Block { release_time: 0, due_date: 8, processing_time: 4, workload: 1, bay_preferences: vec![], orientation_count: 1 },
        ],
    }
}

fn placed(block_id: usize, bay_id: usize, entry_time: i64, exit_time: i64) -> ScheduledBlock {
    ScheduledBlock { block_id, bay_id, orient_idx: 0, x: 1, y: 2, entry_time, exit_time }
}

#[test]
fn xorshift_sequence_matches_reference_steps() {
    let mut rng = XorShift32::new(1);
    assert_eq!(rng._next(), 270369);
    assert_eq!(rng._next(), 67634689);
    assert_eq!(rng._next(), 2647435461);
}

#[test]
fn random_draws_stay_in_range() {
    let mut rng = XorShift32::new(12345);
    for _ in 0..1000 {
        let i = rng.gen_index(7);
        assert!(i < 7);
        let r = rng.gen_range(3, 9);
        assert!((3..9).contains(&r));
    }
    assert_eq!(rng.gen_index(0), 0);
    let v = [4u8, 9, 1];
    let c = rng.choice(&v);
    assert!(v.contains(&c));
}

#[test]
fn shuffle_permutes() {
    let mut rng = XorShift32::new(99);
    let mut v: Vec<u32> = (0..50).collect();
    rng.shuffle(&mut v);
    let mut sorted = v.clone();
    sorted.sort();
    assert_eq!(sorted, (0..50).collect::<Vec<u32>>());
}

#[test]
fn buffered_random_replays_cyclically() {
    let mut source = XorShift32::new(1);
    let mut buffered = BufferedRandom::new(&mut source, 2);
    assert_eq!(buffered._next(), 270369);
    assert_eq!(buffered._next(), 67634689);
    assert_eq!(buffered._next(), 270369);
}

#[test]
fn discrete_sampler_draws_weighted_values() {
    let mut sampler = DiscreteSampler::new(&[(2, 'a'), (0, 'b'), (1, 'c')], XorShift32::new(5));
    for _ in 0..100 {
        let v = sampler.sample();
        assert!(v == 'a' || v == 'c');
    }
}

#[test]
fn pcg_is_deterministic_per_seed() {
    let mut a = RandPcg64Mcg::new(42);
    let mut b = RandPcg64Mcg::new(42);
    for _ in 0..10 {
        assert_eq!(a._next(), b._next());
    }
}

#[test]
fn mix_hash_is_fnv_step() {
    assert_eq!(mix_hash(1469598103934665603, 5), 4953166655188171954);
    let b = placed(0, 1, 2, 7);
    assert_eq!(hash_scheduled_block(b), hash_scheduled_block(b));
}

#[test]
fn tabu_key_ignores_order() {
    let a = placed(0, 0, 2, 7);
    let b = placed(1, 1, 0, 4);
    assert_eq!(ScheduleTabu::key(&[a, b]), ScheduleTabu::key(&[b, a]));
    assert_ne!(ScheduleTabu::key(&[a]), ScheduleTabu::key(&[a, b]));
}

#[test]
fn tabu_keeps_last_capacity_keys() {
    let mut tabu = ScheduleTabu::new(2);
    tabu.insert(ScheduleKey(1));
    tabu.insert(ScheduleKey(2));
    assert!(tabu.contains(ScheduleKey(1)));
    tabu.insert(ScheduleKey(2));
    tabu.insert(ScheduleKey(3));
    assert!(!tabu.contains(ScheduleKey(1)));
    assert!(tabu.contains(ScheduleKey(2)));
    assert!(tabu.contains(ScheduleKey(3)));
    tabu.insert_schedule(&[placed(0, 0, 2, 7)]);
    assert!(tabu.contains(ScheduleTabu::key(&[placed(0, 0, 2, 7)])));
    let mut empty = ScheduleTabu::new(0);
    empty.insert(ScheduleKey(9));
    assert!(!empty.contains(ScheduleKey(9)));
}

#[test]
fn neighbor_kinds_have_names_and_indices() {
    let kinds = [NeighborKind::LargeReconstruct, NeighborKind::Shift, NeighborKind::Move, NeighborKind::Rotate, NeighborKind::Swap];
    let names: Vec<&str> = kinds.iter().map(|k| k.name()).collect();
    assert_eq!(names, vec!["Large", "Shift", "Move", "Rotate", "Swap"]);
    let idx: Vec<usize> = kinds.iter().map(|k| k.index()).collect();
    assert_eq!(idx, vec![0, 1, 2, 3, 4]);
}

#[test]
fn anchors_map_to_sides() {
    assert_eq!(horizontal_anchor(InsertAnchor::BottomLeft), HorizontalAnchor::Left);
    assert_eq!(horizontal_anchor(InsertAnchor::TopLeft), HorizontalAnchor::Left);
    assert_eq!(horizontal_anchor(InsertAnchor::BottomRight), HorizontalAnchor::Right);
    assert_eq!(horizontal_anchor(InsertAnchor::TopRight), HorizontalAnchor::Right);
}

#[test]
fn block_measures() {
    let p = problem();
    assert_eq!(block_slack(&p, 0), 13);
    assert_eq!(block_pref_spread(&p, 0), 9);
    assert_eq!(block_pref_spread(&p, 1), 0);
    assert_eq!(bay_tardiness(&p, &[placed(0, 0, 2, 25), placed(1, 0, 0, 4), placed(1, 1, 6, 10)]), 7);
}

#[test]
fn removed_blocks_respect_limit_and_duplicates() {
    let mut selected = Vec::new();
    let mut used = vec![false; 4];
    push_removed_block(&mut selected, &mut used, 2, 2);
    push_removed_block(&mut selected, &mut used, 2, 2);
    push_removed_block(&mut selected, &mut used, 0, 2);
    push_removed_block(&mut selected, &mut used, 3, 2);
    assert_eq!(selected, vec![2, 0]);
    assert_eq!(used, vec![true, false, true, false]);
}

#[test]
fn presolve_blocks_order_by_exit_then_entry() {
    let p = problem();
    let a = make_presolve_block(&p, 0, 1, 3);
    assert_eq!(a, PresolveBlock { block_id: 0, bay_id: 1, entry_time: 3, exit_time: 8 });
    let b = make_presolve_block(&p, 1, 0, 4);
    assert_eq!(placement_order(a, b), Ordering::Less);
    let c = PresolveBlock { block_id: 2, bay_id: 1, entry_time: 3, exit_time: 8 };
    assert_eq!(placement_order(c, a), Ordering::Greater);
    assert_eq!(placement_order(a, a), Ordering::Equal);
}

#[test]
fn outcome_counts_add_up() {
    let mut c = OutcomeCounts::zero();
    c.add(Outcome::Failed);
    c.add(Outcome::Changed);
    c.add(Outcome::Changed);
    assert_eq!(c.attempts(), 3);
    assert_eq!(c.changed, 2);
    let stats = WeightStats::new();
    assert_eq!(stats.marginal.len(), 48);
    assert_eq!(stats.pairs.len(), 2304);
    assert_eq!(stats.top2.len(), 64);
    assert_eq!(stats.top3[0].attempts(), 0);
}

#[test]
fn solution_lists_exits_before_entries() {
    let a = ScheduledBlock { block_id: 0, bay_id: 0, orient_idx: 1, x: 3, y: 4, entry_time: 0, exit_time: 5 };
    let b = ScheduledBlock { block_id: 1, bay_id: 1, orient_idx: 0, x: 1, y: 1, entry_time: 5, exit_time: 9 };
    let sol = schedule_to_solution(&[a, b]);
    let keys: Vec<i64> = sol.operations.keys().copied().collect();
    assert_eq!(keys, vec![0, 5, 9]);
    let at5 = &sol.operations[&5];
    assert_eq!(at5.len(), 2);
    assert_eq!(at5[0].op_type, OpType::Exit);
    assert_eq!(at5[0].block_id, 0);
    assert_eq!(at5[1].op_type, OpType::Entry);
    assert_eq!(at5[1].block_id, 1);
    assert_eq!(at5[1].x, Some(1));
    assert_eq!(sol.operations[&0][0].orient_idx, Some(1));
}

#[test]
fn timer_starts() {
    let t = Timer::start();
    assert!(t.started_at().elapsed().as_secs() < 1000);
}

fn xorshift_step(x: u32) -> u32 {
    let a = x ^ (x << 13);
    let b = a ^ (a >> 17);
    b ^ (b << 5)
}

#[test]
fn known_draws_fix_index_range_and_shuffle() {
    let first = xorshift_step(1);
    let mut rng = XorShift32::new(1);
    assert_eq!(rng.gen_index(10), ((10u64 * first as u64) >> 32) as usize);
    let mut rng = XorShift32::new(1);
    assert_eq!(rng.gen_range(5, 9), 5 + ((4u64 * first as u64) >> 32) as usize);

    let mut v = vec![0, 1, 2, 3, 4, 5];
    let mut rng = XorShift32::new(7);
    rng.shuffle(&mut v);
    let mut expected = vec![0, 1, 2, 3, 4, 5];
    let mut state: u32 = 7;
    for i in (1..6).rev() {
        state = xorshift_step(state);
        let j = (((i + 1) as u64 * state as u64) >> 32) as usize;
        expected.swap(i, j);
    }
    assert_eq!(v, expected);
}

#[test]
fn buffered_source_holds_the_draws_it_took() {
    let mut source = XorShift32::new(3);
    let mut buffered = BufferedRandom::new(&mut source, 3);
    let d1 = xorshift_step(3);
    let d2 = xorshift_step(d1);
    let d3 = xorshift_step(d2);
    assert_eq!(buffered._next(), d1);
    assert_eq!(buffered._next(), d2);
    assert_eq!(buffered._next(), d3);
    assert_eq!(buffered._next(), d1);
    // the source goes on after the buffered draws
    assert_eq!(source._next(), xorshift_step(d3));
}

#[test]
fn sampler_picks_the_table_entry_that_the_draw_scales_to() {
    // table: a, a, c
    let mut sampler = DiscreteSampler::new(&[(2, 'a'), (0, 'b'), (1, 'c')], XorShift32::new(5));
    let table = ['a', 'a', 'c'];
    let mut state: u32 = 5;
    for _ in 0..20 {
        state = xorshift_step(state);
        let idx = ((3u64 * state as u64) >> 32) as usize;
        assert_eq!(sampler.sample(), table[idx]);
    }
}
