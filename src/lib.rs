//! A bounded, durable event-buffering queue.
//!
//! Records are appended at the tail, fetched from the head in bounded batches,
//! and deleted only when the caller hands back the identity tokens of a batch
//! it has dealt with. The browser backend keeps the queue in memory as the
//! source of truth and lists the durable writes and deletes it wants carried
//! out, for the runtime around it to perform.
use vstd::prelude::*;

pub mod durable;
pub mod event;
pub mod json;
pub mod laws;
pub mod web;

pub use event::{Equivalent, StoredEvent};

verus! {

/// Marker for the types that a store may be moved across threads with.
pub trait MaybeSend: Send {}

impl<T: Send> MaybeSend for T {}

/// The result of a fetch: the batch that was read and the tokens that
/// identify its records, in the same order.
pub struct DataResult<T> {
    pub data: Option<T>,
    pub removable: Option<Vec<StoredEvent>>,
}

} // verus!
