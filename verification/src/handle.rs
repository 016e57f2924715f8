//! Weak entity references: a follow target is stored as an entity identifier
//! and resolved against the live arena each tick, never held as an owning
//! reference. A dangling or null reference resolves to nothing.

use vstd::prelude::*;

verus! {

/// A weak reference to an entity, by arena identifier.
#[derive(Debug, Clone, Copy, PartialEq, Eq, Structural)]
pub struct WeakHash {
    pub id: Option<u64>,
}

impl WeakHash {
    /// A reference to nothing, which never upgrades.
    pub fn null() -> (r: WeakHash)
        ensures
            r.id matches None,
    {
        WeakHash { id: None }
    }

    /// A reference to the entity with the given identifier.
    pub fn new(id: u64) -> (r: WeakHash)
        ensures
            r.id matches Some(i) && i == id,
    {
        WeakHash { id: Some(id) }
    }
}

} // verus!
