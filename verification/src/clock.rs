//! Moments on the monotonic clock, carried through the library opaquely.

use vstd::prelude::*;

verus! {

/// `std::time::Instant`: a moment of the monotonic clock. Verus sees
/// nothing inside it; the library only stores and hands back such values.
#[verifier::external_type_specification]
#[verifier::external_body]
pub struct ExInstant(std::time::Instant);

} // verus!
