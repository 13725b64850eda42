//! Match-history aggregation for a cursor-paginated game-statistics API:
//! mode classification, per-match rank reconstruction, and the pagination
//! protocol that walks the upstream history to completion.

use vstd::prelude::*;

pub mod game_type;
pub mod paginator;
pub mod parser;

verus! {

/// A response from the upstream API that breaks its own contract: an
/// unrecognized mode identifier, or a record that does not list the player
/// it supposedly belongs to. Fatal for the request that saw it.
#[derive(Clone, Copy, Debug, PartialEq, Eq, Structural)]
pub enum UpstreamViolation {
    UnknownModeId(u64),
    TargetPlayerMissing,
}

/// Oldest start time ever requested, in seconds: 2010-01-01T00:00:00Z.
/// The upstream URL carries the same instant in milliseconds.
pub const FLOOR_TIMESTAMP: u64 = 1262304000;

/// Number of records requested per page from the upstream API.
pub const PAGE_LIMIT: usize = 500;

} // verus!
