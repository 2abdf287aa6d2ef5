//! Random draws, through `rand`; every draw comes from a generator the caller owns.
use rand::distributions::Alphanumeric;
use rand::rngs::StdRng;
use rand::{Rng, SeedableRng};
use vstd::prelude::*;

verus! {

#[verifier::external_type_specification]
#[verifier::external_body]
pub struct ExStdRng(rand::rngs::StdRng);

pub open spec fn is_alphanumeric(c: u8) -> bool {
    (65 <= c <= 90) || (97 <= c <= 122) || (48 <= c <= 57)
}

/// Relies on rand's `SeedableRng::from_entropy`: a generator seeded by the operating system.
#[verifier::external_body]
pub(crate) fn fresh_rng() -> (r: StdRng)
{
    StdRng::from_entropy()
}

/// Relies on rand's `Rng::gen_range` over `0..n`: a value in that range (it panics only on an
/// empty range).
#[verifier::external_body]
pub(crate) fn below(rng: &mut StdRng, n: usize) -> (r: usize)
    requires
        n > 0,
    ensures
        r < n,
{
    rng.gen_range(0..n)
}

/// Relies on rand's `Rng::gen` for `u32`: any value.
#[verifier::external_body]
pub(crate) fn any_u32(rng: &mut StdRng) -> (r: u32)
{
    rng.gen::<u32>()
}

/// Relies on rand's `Rng::gen` for `u8`: any value.
#[verifier::external_body]
pub(crate) fn any_byte(rng: &mut StdRng) -> (r: u8)
{
    rng.gen::<u8>()
}

/// Relies on rand's `Alphanumeric` distribution: `n` bytes drawn from `A-Z`, `a-z`, `0-9`.
#[verifier::external_body]
pub(crate) fn alphanumeric(rng: &mut StdRng, n: usize) -> (r: Vec<u8>)
    ensures
        r@.len() == n,
        forall|i: int| 0 <= i < r@.len() ==> is_alphanumeric(#[trigger] r@[i]),
{
    rng.sample_iter(&Alphanumeric).take(n).collect()
}

} // verus!
