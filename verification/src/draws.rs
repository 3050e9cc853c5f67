//! Random draws.
//!
//! What a draw gives is left to chance: only its range is stated.

use rand::rngs::StdRng;
use rand::Rng;
use vstd::prelude::*;

verus! {

/// rand's standard generator.
#[verifier::external_type_specification]
#[verifier::external_body]
pub struct ExStdRng(StdRng);

/// `Rng::gen_range` of `u64`: a number below the bound. It panics on an empty
/// range.
#[verifier::external_body]
pub(crate) fn draw_u64(rng: &mut StdRng, bound: u64) -> (r: u64)
    requires
        0 < bound,
    ensures
        r < bound,
{
    rng.gen_range(0..bound)
}

/// `Rng::gen_range` of `usize`: a number below the bound. It panics on an
/// empty range.
#[verifier::external_body]
pub(crate) fn draw_usize(rng: &mut StdRng, bound: usize) -> (r: usize)
    requires
        0 < bound,
    ensures
        r < bound,
{
    rng.gen_range(0..bound)
}

/// `Rng::gen` of `bool`: either value.
#[verifier::external_body]
pub(crate) fn draw_bool(rng: &mut StdRng) -> (r: bool) {
    rng.gen()
}

} // verus!
