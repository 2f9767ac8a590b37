//! The settings a generator is run with.

use vstd::prelude::*;

verus! {

/// What to enumerate and how.
///
/// The generators search from 2 whatever `prime_range_start` holds.
/// `sieve_segment_size` matters to the segmented generator only, and
/// `progress` to the caller that runs it segment by segment and reports.
pub struct Config {
    pub prime_range_start: u64,
    pub prime_range_end: u64,
    pub sieve_segment_size: u64,
    pub progress: bool,
}

impl Config {
    /// The default settings for a search below `prime_range_end`: start at 2,
    /// segments of 100, progress notices on.
    pub fn build(prime_range_end: u64) -> (config: Config)
        ensures
            config.prime_range_start == 2,
            config.prime_range_end == prime_range_end,
            config.sieve_segment_size == 100,
            config.progress,
    {
        Config { prime_range_start: 2, prime_range_end, sieve_segment_size: 100, progress: true }
    }
}

} // verus!
