use vstd::prelude::*;

verus! {

/// Makes `std::any::TypeId` usable in signatures and fields. A value of it is
/// opaque: the store only compares type identities for equality.
#[verifier::external_type_specification]
#[verifier::external_body]
pub struct ExTypeId(std::any::TypeId);

/// Relies on `<TypeId as PartialEq>::eq`: two type identities compare equal
/// exactly when they are the same value.
pub assume_specification[ <std::any::TypeId as PartialEq>::eq ](
    a: &std::any::TypeId,
    b: &std::any::TypeId,
) -> (r: bool)
    ensures
        r == (*a == *b),
;

} // verus!
