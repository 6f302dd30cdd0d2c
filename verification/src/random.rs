//! The random source. Nothing is known of a draw but the range it falls in.

use vstd::prelude::*;
use fastrand::Rng;

verus! {

/// `fastrand::Rng`, the generator: a value that is carried to the draws and
/// of whose state nothing is known.
#[verifier::external_type_specification]
#[verifier::external_body]
pub struct ExRng(Rng);

/// `fastrand::Rng::new`: a generator seeded from the thread's own generator.
/// Nothing is claimed of it.
pub assume_specification[ Rng::new ]() -> (rng: Rng)
;

/// `fastrand::Rng::usize` on the half-open range `low..high`, which must not
/// be empty. The claim is the one its documentation makes: the number drawn
/// lies in the range.
#[verifier::external_body]
pub(crate) fn draw(rng: &Rng, low: usize, high: usize) -> (r: usize)
    requires
        low < high,
    ensures
        low <= r < high,
{
    rng.usize(low..high)
}

} // verus!
