//! Local data store for a personal catalog of worlds and the folders that
//! group them: the in-memory collections with their consistency invariants,
//! the mutation operations that keep both sides of the folder/world relation
//! in step, and the durable-write protocol (atomic replace, backup rotation,
//! recovery) modelled and proved over an explicit directory state.

use vstd::prelude::*;

pub mod api;
pub mod codec;
pub mod custom_data;
pub mod durable;
pub mod kv;
pub mod logs;
pub mod memo;
pub mod entities;
pub mod errors;
pub mod sorting;
pub mod store;
pub mod text;
pub mod trusted;

verus! {

/// Milliseconds in one hour.
pub const MILLIS_PER_HOUR: i64 = 3600000;

/// A world's provenance is stale once more than four hours have passed
/// since it was last fetched.
pub const REFRESH_THRESHOLD_MILLIS: i64 = 14400000;

/// Reports whether a record last checked at `last_checked` needs a refresh
/// at time `now` (both in milliseconds since the epoch): true exactly when
/// more than four hours have elapsed. At exactly four hours the record is
/// still fresh.
pub fn needs_refresh_at(last_checked: i64, now: i64) -> (r: bool)
    ensures
        r == (now - last_checked > REFRESH_THRESHOLD_MILLIS),
{
    if now >= last_checked {
        match now.checked_sub(last_checked) {
            Some(d) => d > REFRESH_THRESHOLD_MILLIS,
            None => true,
        }
    } else {
        false
    }
}

} // verus!
