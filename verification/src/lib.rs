//! A verified core for a rate-limited, paginated record-registry client.
//!
//! The library holds the pure logic of the client: building request paths,
//! decoding paginated listing bodies, classifying error responses of either
//! wire format, transforming record documents, planning pages, accounting for
//! per-page outcomes, and the token-bucket admission rule.  All network and
//! clock work stays with the caller, which feeds plain values in and out.

pub mod batch;
pub mod classify;
pub mod document;
pub mod errors;
pub mod limiter;
pub mod listing;
pub mod markup;
pub mod requests;
pub mod text;
pub mod transform;

use vstd::prelude::*;

verus! {

/// A paginated listing is fetched in fixed-size pages; this is the page size
/// the registry serves.
pub const PAGE_LIMIT: usize = 100;

} // verus!
