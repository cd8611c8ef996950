//! Pagination of the list queries.
//!
//! Every list query takes an exclusive `start_after` bound and a `limit`;
//! the limit is clamped to at most `MAX_PAGE_LIMIT` entries and defaults to
//! `DEFAULT_PAGE_LIMIT` when absent or smaller than the default.

use vstd::prelude::*;

verus! {

/// Page size used when the caller gives none.
pub const DEFAULT_PAGE_LIMIT: u32 = 10;

/// Largest page size a caller can ask for.
pub const MAX_PAGE_LIMIT: u32 = 30;

/// The clamped page limit: `min(max(limit, DEFAULT_PAGE_LIMIT), MAX_PAGE_LIMIT)`,
/// with an absent limit standing for the default.
pub open spec fn spec_page_limit(limit: Option<u32>) -> int {
    let asked = match limit {
        Some(l) => l as int,
        None => DEFAULT_PAGE_LIMIT as int,
    };
    let floored = if asked < DEFAULT_PAGE_LIMIT as int {
        DEFAULT_PAGE_LIMIT as int
    } else {
        asked
    };
    if floored > MAX_PAGE_LIMIT as int {
        MAX_PAGE_LIMIT as int
    } else {
        floored
    }
}

/// Aligns a caller-provided pagination limit into the accepted window.
pub fn clamp_page_limit(limit: Option<u32>) -> (l: usize)
    ensures
        l == spec_page_limit(limit),
        1 <= l <= MAX_PAGE_LIMIT,
{
    let asked = match limit {
        Some(l) => l,
        None => DEFAULT_PAGE_LIMIT,
    };
    let floored = if asked < DEFAULT_PAGE_LIMIT {
        DEFAULT_PAGE_LIMIT
    } else {
        asked
    };
    let clamped = if floored > MAX_PAGE_LIMIT {
        MAX_PAGE_LIMIT
    } else {
        floored
    };
    clamped as usize
}

} // verus!
