//! The numbers the queues are held to.
use vstd::prelude::*;

verus! {

/// A background job or request that has waited this long (milliseconds) goes before
/// interactive ones, so a stream of key presses cannot starve a poll.
pub const AGING_MS: u64 = 500;

/// Tickets one module VM may have waiting at once.
pub const PER_OWNER: usize = 16;

/// Jobs the whole application may have queued at once.
pub const TOTAL: usize = 256;

/// The most pixels one standard capture of a snapshot round may cover as a union of regions.
pub const UNION_MAX: i64 = 2_000_000;

/// The least time (milliseconds) between the starts of two rounds of a change wait through the
/// standard capture path.
pub const MIN_ROUND_STANDARD_MS: u64 = 17;

/// The same through desktop duplication.
pub const MIN_ROUND_DUPLICATION_MS: u64 = 17;

/// The same on macOS, whatever the path.
pub const MIN_ROUND_MACOS_MS: u64 = 33;

} // verus!
