//! Verified core of a relay-statistics toolkit: date-range resolution,
//! per-day block-count aggregation, multi-day merging, the stats file
//! format, and a consistency check between the builder directory and
//! aggregated statistics.

use vstd::prelude::*;

pub mod aggregate;
pub mod consistency;
pub mod dates;
pub mod directory;
pub mod flatmap;
pub mod merge;
pub mod stats_json;
pub mod text;

verus! {

/// Errors raised by the statistics pipeline and the consistency checker.
#[derive(Clone, Copy, Debug, PartialEq, Eq, Structural)]
pub enum StatsError {
    /// A `--start` or `--end` value does not name a calendar date in
    /// `YYYY-MM-DD` form.
    InvalidDateFormat,
    /// Every day in the requested range failed to fetch, so there is
    /// nothing to merge.
    NoDataAvailable,
    /// A stats document could not be parsed.
    JsonParseFailure,
}

} // verus!
