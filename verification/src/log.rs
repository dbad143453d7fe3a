use vstd::prelude::*;

use crate::storage::Storage;

verus! {

/// The log of a node, and how far it has got.
#[derive(Debug)]
pub struct RaftLog<T: Storage> {
    pub store: T,
    /// The highest log position that is known to be in stable storage on a quorum of nodes.
    pub committed: u64,
    /// The highest log position that is known to be persisted in local stable storage.
    pub persisted: u64,
    /// The highest log position that the application has been instructed
    /// to apply to its state machine.
    pub applied: u64,
}

impl<T: Storage> RaftLog<T> {
    /// The log kept in `store`, of which nothing is known to be committed,
    /// persisted or applied.
    pub fn from_store(store: T) -> (r: RaftLog<T>)
        ensures
            r == (RaftLog { store, committed: 0, persisted: 0, applied: 0 }),
    {
        Self { store, committed: 0, persisted: 0, applied: 0 }
    }
}

} // verus!
