//! Entities, as the host's entity-component store names them.

use vstd::prelude::*;

verus! {

/// An entity of the host's entity-component store.
#[derive(Debug, Clone, Copy, PartialEq, Eq, Structural, Hash)]
pub struct Entity {
    /// The store's identifier of the entity.
    pub id: u64,
}

} // verus!
