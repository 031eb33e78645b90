//! Ranked prize pools: opening a pool for a period, paying its winners on a
//! fixed tiered schedule, and closing it with a refund of what is left.
//!
//! The custody that holds and moves the pooled asset lives outside this
//! library. Each operation that needs it is split in two: a pure planning
//! function says which transfers to make, and the committing function takes
//! the custody's outcome and updates the pool records.

pub mod identity;
pub mod pool;
pub mod prize;
pub mod registry;

pub use identity::Identity;
pub use prize::{calculate_prize, validate_winners, ErrorCode, WinnerEntry};
pub use pool::{PoolStatus, PrizeDistributed, PrizePool};
pub use registry::{
    close_prize_pool, distribute_prizes, initialize_prize_pool, plan_close, plan_distribution,
    PoolRegistry,
};
