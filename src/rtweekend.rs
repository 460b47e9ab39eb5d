use vstd::prelude::*;

verus! {

/// A random integer in `[min, max]`.
///
/// Relies on `fastrand::i32` over an inclusive range: the value lies in the range, and the
/// call panics only on an empty one, which `requires` leaves out.
#[verifier::external_body]
pub fn random_int_min_max(min: i32, max: i32) -> (r: i32)
    requires
        min <= max,
    ensures
        min <= r <= max,
{
    fastrand::i32(min..=max)
}

} // verus!
