//! Annualized base yield of a liquid staking token, from a daily series of
//! on-chain backing observations.
//!
//! The verified part covers everything that decides: the checks on the
//! series, the resampling at a stride, the interval annualizers, and the
//! decimal text of each fixed-point backing value. Turning that text into a
//! floating-point ratio and averaging is left to the caller.
pub mod units;
pub mod stats;

pub use units::{Backing, BACKING_DECIMALS, MAX_UNITS, UnitsTextError};
pub use stats::{
    prepare_dex_stats,
    DexStatsError, DexStatsInput, DexStatsPlan, BLOCKS_TO_QUERY, BLOCK_GRANULARITY,
    DAY_IN_SECONDS, SECONDS_PER_YEAR,
};
