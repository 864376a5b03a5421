//! Decisions of an inference router: reading engine load from `/metrics`,
//! ranking the fleet, choosing the best engine, reporting fleet status, and
//! falling back from one engine to the next when a request fails.
use vstd::prelude::*;

pub mod metrics_text;
pub mod ranking;
pub mod status;
pub mod proxy;
pub mod state;
pub mod config;
pub mod reqs;

verus! {

/// The view of an optional string.
pub open spec fn opt_view(o: Option<String>) -> Option<Seq<char>> {
    match o {
        Some(s) => Some(s@),
        None => None,
    }
}

} // verus!
