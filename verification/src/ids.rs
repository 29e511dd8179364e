//! Unique function identifiers, carried through the core opaquely.

use vstd::prelude::*;

verus! {

#[verifier::external_type_specification]
#[verifier::external_body]
pub struct ExUuid(uuid::Uuid);

/// Relies on uuid::Uuid::new_v4: a freshly generated random identifier.
/// Nothing is promised of the value.
#[verifier::external_body]
pub fn fresh_uuid() -> uuid::Uuid {
    uuid::Uuid::new_v4()
}

} // verus!
