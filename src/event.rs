//! Stored records and the identity tokens that refer to them.
use vstd::prelude::*;

verus! {

/// One record of a queue: its JSON text and, where it has one, the key it is
/// stored under in the durable layer.
///
/// A token handed out by a fetch is a copy of the record it identifies.
#[derive(Debug)]
pub struct StoredEvent {
    pub idb_key: Option<u32>,
    pub value: String,
}

/// Whether `token` identifies `item`: by key where both carry one, by
/// content otherwise.
pub open spec fn identifies(token: StoredEvent, item: StoredEvent) -> bool {
    match (token.idb_key, item.idb_key) {
        (Some(a), Some(b)) => a == b,
        _ => token.value@ == item.value@,
    }
}

/// Whether some token of `tokens` identifies `item`.
pub open spec fn identified_by_any(tokens: Seq<StoredEvent>, item: StoredEvent) -> bool {
    exists|i: int| 0 <= i < tokens.len() && identifies(#[trigger] tokens[i], item)
}

/// Equality of identity between tokens and records.
pub trait Equivalent {
    spec fn equivalent(&self, other: &Self) -> bool;

    fn equals(&self, other: &Self) -> (r: bool)
        ensures
            r == self.equivalent(other),
    ;
}

impl Equivalent for StoredEvent {
    open spec fn equivalent(&self, other: &Self) -> bool {
        identifies(*self, *other)
    }

    fn equals(&self, other: &Self) -> (r: bool) {
        match (self.idb_key, other.idb_key) {
            (Some(a), Some(b)) => a == b,
            _ => self.value == other.value,
        }
    }
}

impl Clone for StoredEvent {
    fn clone(&self) -> (r: Self)
        ensures
            r == *self,
    {
        StoredEvent { idb_key: self.idb_key, value: self.value.clone() }
    }
}

} // verus!
