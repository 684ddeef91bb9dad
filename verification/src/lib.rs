//! Regression scenarios for a continuous group key agreement tree under
//! concurrent membership changes.
//!
//! A scenario is a plan of calls on replicas of one tree (`group`), run one
//! call at a time (`run`) with members drawn from a seed (`keys`). What a sweep
//! over seeds came to is judged and reported by the module of its scenario.
//! A model of how a tree keeps its leaves (`leaves`, `rows`) says why the
//! scenarios are what they are.

pub mod concurrent_add_remove;
pub mod concurrent_removals;
pub mod group;
pub mod keys;
pub mod leaves;
pub mod payload;
pub mod rows;
pub mod run;
pub mod stale_leaf_index;
pub mod sweep;
pub mod text;
