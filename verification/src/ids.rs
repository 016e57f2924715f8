//! Space identifiers, drawn from the outside identifier-generator crate.

use vstd::prelude::*;

verus! {

/// Relies on `uuid::Uuid::new_v4` and `Uuid::as_u128`: a freshly generated
/// random identifier. Nothing is promised of its value; callers treat any
/// returned identifier alike.
#[verifier::external_body]
pub fn new_uuid() -> (r: u128)
{
    uuid::Uuid::new_v4().as_u128()
}

} // verus!
