//! The pseudo-random source of the Monte Carlo walk: rand's `StdRng`,
//! behind trusted wrappers.  Nothing is promised of the drawn values — every
//! verified function takes them as arguments and is proved for all of them.

use vstd::prelude::*;
use crate::fx::{Fx, SCALE, ONE};

verus! {

#[verifier::external_type_specification]
#[verifier::external_body]
pub struct ExStdRng(rand::rngs::StdRng);

/// Relies on rand's `SeedableRng::seed_from_u64`: builds a deterministic
/// generator from a 64-bit seed.
#[verifier::external_body]
pub fn rng_from_seed(seed: u64) -> rand::rngs::StdRng {
    <rand::rngs::StdRng as rand::SeedableRng>::seed_from_u64(seed)
}

/// Relies on rand's `Rng::next_u64`: one draw of the generator; nothing is
/// promised of the value.
#[verifier::external_body]
fn rng_next(rng: &mut rand::rngs::StdRng) -> u64 {
    rand::Rng::next_u64(rng)
}

/// One uniform variate in `[0, 1)`: the low 32 bits of a draw, over the
/// scale of the representation.
pub fn next_unit(rng: &mut rand::rngs::StdRng) -> (u: Fx)
    ensures
        u.wf(),
        0 <= u.raw < ONE,
{
    let d = rng_next(rng);
    Fx { raw: (d % (SCALE as u64)) as i64 }
}

} // verus!
