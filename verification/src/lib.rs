//! Verified core of a block-yard scheduling solver: random sources, interval
//! bookkeeping for entry-time windows, crane collision grids, and the
//! x-sweep that finds collision-free entry times.

pub mod random;
pub mod window;
pub mod model;
pub mod forbidden;
pub mod slots;
pub mod slot_table;
pub mod events;
pub mod grid;
pub mod collision;
pub mod sweep;
pub mod scanner;
pub mod tabu;
pub mod solver_util;
pub mod presolve;
pub mod profile;
pub mod time;
pub mod solution;
pub mod trace;
pub mod precompute;
pub mod cases;
pub mod insert_profile;
pub mod load;
pub mod horizons;
pub mod admission;
pub mod precedence;
pub mod feasibility;
pub mod pairs;
pub mod beam;
