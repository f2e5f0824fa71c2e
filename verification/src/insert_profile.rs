//! Counters and durations of the insertion search, summed over calls.
use vstd::prelude::*;

verus! {

/// What the insertion search spent and visited: the number of calls, the
/// time of each stage in nanoseconds, and counts of the items visited.
#[derive(Clone, Copy, Debug, PartialEq, Eq, Structural)]
pub struct InsertProfile {
    pub calls: u64,
    pub total: u128,
    pub bay_setup: u128,
    pub pair_cache: u128,
    pub y_prepare: u128,
    pub event_build: u128,
    pub event_sort: u128,
    pub event_apply: u128,
    pub forbidden_build: u128,
    pub feasible_time: u128,
    pub candidate_eval: u128,
    pub bays: u64,
    pub orientations: u64,
    pub ys: u64,
    pub x_positions: u64,
    pub events: u64,
    pub event_x_old_groups: u64,
    pub active_old_visits: u64,
    pub forbidden_intervals: u64,
    pub feasible_iterations: u64,
    pub feasible_interval_visits: u64,
    pub candidates: u64,
    pub min_entry_candidates: u64,
    pub ys_reaching_min_entry: u64,
    pub x_positions_after_min_entry: u64,
    pub x_range_width_sum: u64,
}

/// Every field of `a` plus the same field of `b` fits its type.
pub open spec fn merge_fits(a: InsertProfile, b: InsertProfile) -> bool {
    &&& a.calls + b.calls <= u64::MAX
    &&& a.total + b.total <= u128::MAX
    &&& a.bay_setup + b.bay_setup <= u128::MAX
    &&& a.pair_cache + b.pair_cache <= u128::MAX
    &&& a.y_prepare + b.y_prepare <= u128::MAX
    &&& a.event_build + b.event_build <= u128::MAX
    &&& a.event_sort + b.event_sort <= u128::MAX
    &&& a.event_apply + b.event_apply <= u128::MAX
    &&& a.forbidden_build + b.forbidden_build <= u128::MAX
    &&& a.feasible_time + b.feasible_time <= u128::MAX
    &&& a.candidate_eval + b.candidate_eval <= u128::MAX
    &&& a.bays + b.bays <= u64::MAX
    &&& a.orientations + b.orientations <= u64::MAX
    &&& a.ys + b.ys <= u64::MAX
    &&& a.x_positions + b.x_positions <= u64::MAX
    &&& a.events + b.events <= u64::MAX
    &&& a.event_x_old_groups + b.event_x_old_groups <= u64::MAX
    &&& a.active_old_visits + b.active_old_visits <= u64::MAX
    &&& a.forbidden_intervals + b.forbidden_intervals <= u64::MAX
    &&& a.feasible_iterations + b.feasible_iterations <= u64::MAX
    &&& a.feasible_interval_visits + b.feasible_interval_visits <= u64::MAX
    &&& a.candidates + b.candidates <= u64::MAX
    &&& a.min_entry_candidates + b.min_entry_candidates <= u64::MAX
    &&& a.ys_reaching_min_entry + b.ys_reaching_min_entry <= u64::MAX
    &&& a.x_positions_after_min_entry + b.x_positions_after_min_entry <= u64::MAX
    &&& a.x_range_width_sum + b.x_range_width_sum <= u64::MAX
}

/// Every field of `c` is the sum of the same fields of `a` and `b`.
pub open spec fn merged(a: InsertProfile, b: InsertProfile, c: InsertProfile) -> bool {
    &&& c.calls == a.calls + b.calls
    &&& c.total == a.total + b.total
    &&& c.bay_setup == a.bay_setup + b.bay_setup
    &&& c.pair_cache == a.pair_cache + b.pair_cache
    &&& c.y_prepare == a.y_prepare + b.y_prepare
    &&& c.event_build == a.event_build + b.event_build
    &&& c.event_sort == a.event_sort + b.event_sort
    &&& c.event_apply == a.event_apply + b.event_apply
    &&& c.forbidden_build == a.forbidden_build + b.forbidden_build
    &&& c.feasible_time == a.feasible_time + b.feasible_time
    &&& c.candidate_eval == a.candidate_eval + b.candidate_eval
    &&& c.bays == a.bays + b.bays
    &&& c.orientations == a.orientations + b.orientations
    &&& c.ys == a.ys + b.ys
    &&& c.x_positions == a.x_positions + b.x_positions
    &&& c.events == a.events + b.events
    &&& c.event_x_old_groups == a.event_x_old_groups + b.event_x_old_groups
    &&& c.active_old_visits == a.active_old_visits + b.active_old_visits
    &&& c.forbidden_intervals == a.forbidden_intervals + b.forbidden_intervals
    &&& c.feasible_iterations == a.feasible_iterations + b.feasible_iterations
    &&& c.feasible_interval_visits == a.feasible_interval_visits + b.feasible_interval_visits
    &&& c.candidates == a.candidates + b.candidates
    &&& c.min_entry_candidates == a.min_entry_candidates + b.min_entry_candidates
    &&& c.ys_reaching_min_entry == a.ys_reaching_min_entry + b.ys_reaching_min_entry
    &&& c.x_positions_after_min_entry == a.x_positions_after_min_entry + b.x_positions_after_min_entry
    &&& c.x_range_width_sum == a.x_range_width_sum + b.x_range_width_sum
}

impl InsertProfile {
    /// Nothing spent and nothing visited.
    pub fn new() -> (res: Self)
        ensures
            res.calls == 0,
            res.total == 0,
            res.bay_setup == 0,
            res.pair_cache == 0,
            res.y_prepare == 0,
            res.event_build == 0,
            res.event_sort == 0,
            res.event_apply == 0,
            res.forbidden_build == 0,
            res.feasible_time == 0,
            res.candidate_eval == 0,
            res.bays == 0,
            res.orientations == 0,
            res.ys == 0,
            res.x_positions == 0,
            res.events == 0,
            res.event_x_old_groups == 0,
            res.active_old_visits == 0,
            res.forbidden_intervals == 0,
            res.feasible_iterations == 0,
            res.feasible_interval_visits == 0,
            res.candidates == 0,
            res.min_entry_candidates == 0,
            res.ys_reaching_min_entry == 0,
            res.x_positions_after_min_entry == 0,
            res.x_range_width_sum == 0,
    {
        InsertProfile {
            calls: 0,
            total: 0,
            bay_setup: 0,
            pair_cache: 0,
            y_prepare: 0,
            event_build: 0,
            event_sort: 0,
            event_apply: 0,
            forbidden_build: 0,
            feasible_time: 0,
            candidate_eval: 0,
            bays: 0,
            orientations: 0,
            ys: 0,
            x_positions: 0,
            events: 0,
            event_x_old_groups: 0,
            active_old_visits: 0,
            forbidden_intervals: 0,
            feasible_iterations: 0,
            feasible_interval_visits: 0,
            candidates: 0,
            min_entry_candidates: 0,
            ys_reaching_min_entry: 0,
            x_positions_after_min_entry: 0,
            x_range_width_sum: 0,
        }
    }

    /// The sums would fit: `merge` can add `other` in.
    pub fn can_merge(&self, other: &Self) -> (res: bool)
        ensures
            res == merge_fits(*self, *other),
    {
        self.calls <= u64::MAX - other.calls
        && self.total <= u128::MAX - other.total
        && self.bay_setup <= u128::MAX - other.bay_setup
        && self.pair_cache <= u128::MAX - other.pair_cache
        && self.y_prepare <= u128::MAX - other.y_prepare
        && self.event_build <= u128::MAX - other.event_build
        && self.event_sort <= u128::MAX - other.event_sort
        && self.event_apply <= u128::MAX - other.event_apply
        && self.forbidden_build <= u128::MAX - other.forbidden_build
        && self.feasible_time <= u128::MAX - other.feasible_time
        && self.candidate_eval <= u128::MAX - other.candidate_eval
        && self.bays <= u64::MAX - other.bays
        && self.orientations <= u64::MAX - other.orientations
        && self.ys <= u64::MAX - other.ys
        && self.x_positions <= u64::MAX - other.x_positions
        && self.events <= u64::MAX - other.events
        && self.event_x_old_groups <= u64::MAX - other.event_x_old_groups
        && self.active_old_visits <= u64::MAX - other.active_old_visits
        && self.forbidden_intervals <= u64::MAX - other.forbidden_intervals
        && self.feasible_iterations <= u64::MAX - other.feasible_iterations
        && self.feasible_interval_visits <= u64::MAX - other.feasible_interval_visits
        && self.candidates <= u64::MAX - other.candidates
        && self.min_entry_candidates <= u64::MAX - other.min_entry_candidates
        && self.ys_reaching_min_entry <= u64::MAX - other.ys_reaching_min_entry
        && self.x_positions_after_min_entry <= u64::MAX - other.x_positions_after_min_entry
        && self.x_range_width_sum <= u64::MAX - other.x_range_width_sum
    }

    /// Adds the counts and durations of `other` to these.
    pub fn merge(&mut self, other: Self)
        requires
            merge_fits(*old(self), other),
        ensures
            merged(*old(self), other, *final(self)),
    {
        self.calls = self.calls + other.calls;
        self.total = self.total + other.total;
        self.bay_setup = self.bay_setup + other.bay_setup;
        self.pair_cache = self.pair_cache + other.pair_cache;
        self.y_prepare = self.y_prepare + other.y_prepare;
        self.event_build = self.event_build + other.event_build;
        self.event_sort = self.event_sort + other.event_sort;
        self.event_apply = self.event_apply + other.event_apply;
        self.forbidden_build = self.forbidden_build + other.forbidden_build;
        self.feasible_time = self.feasible_time + other.feasible_time;
        self.candidate_eval = self.candidate_eval + other.candidate_eval;
        self.bays = self.bays + other.bays;
        self.orientations = self.orientations + other.orientations;
        self.ys = self.ys + other.ys;
        self.x_positions = self.x_positions + other.x_positions;
        self.events = self.events + other.events;
        self.event_x_old_groups = self.event_x_old_groups + other.event_x_old_groups;
        self.active_old_visits = self.active_old_visits + other.active_old_visits;
        self.forbidden_intervals = self.forbidden_intervals + other.forbidden_intervals;
        self.feasible_iterations = self.feasible_iterations + other.feasible_iterations;
        self.feasible_interval_visits = self.feasible_interval_visits + other.feasible_interval_visits;
        self.candidates = self.candidates + other.candidates;
        self.min_entry_candidates = self.min_entry_candidates + other.min_entry_candidates;
        self.ys_reaching_min_entry = self.ys_reaching_min_entry + other.ys_reaching_min_entry;
        self.x_positions_after_min_entry = self.x_positions_after_min_entry + other.x_positions_after_min_entry;
        self.x_range_width_sum = self.x_range_width_sum + other.x_range_width_sum;
    }
}

} // verus!
