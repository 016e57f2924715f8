//! Keyed storage of records that know their own key.

use vstd::prelude::*;

verus! {

/// A record that exposes its own lookup key.
pub trait BseMapNode {
    type Key;

    fn get_key(&self) -> Self::Key;
}

} // verus!
