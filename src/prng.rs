//! Uniformly random field elements, drawn by rejection sampling from the
//! operating system's random source.
use crate::field::{accepted_values, FieldElement};
use vstd::prelude::*;

verus! {

#[verifier::external_type_specification]
#[verifier::external_body]
pub struct ExGetrandomError(getrandom::Error);

/// How many blocks of random bytes one draw may reject before it gives up.
/// Every field accepts a block with probability above one half, so a draw
/// gives up with probability below `2^-128`.
pub const MAX_SAMPLING_ATTEMPTS: u32 = 128;

/// Relies on `getrandom::getrandom`: overwrites the buffer with bytes from the
/// operating system's random source, or fails. The length stays as it is.
#[verifier::external_body]
fn fill_random(dest: &mut [u8]) -> (r: Result<(), getrandom::Error>)
    ensures
        final(dest)@.len() == old(dest)@.len(),
{
    getrandom::getrandom(dest)
}

/// Relies on `getrandom::Error::UNEXPECTED`, the error that reports a random
/// source that misbehaved.
#[verifier::external_body]
fn unexpected_error() -> getrandom::Error {
    getrandom::Error::UNEXPECTED
}

/// Draws one uniformly random field element: blocks of `F::BYTES` random
/// bytes are read until one is accepted by `F::try_from_random`. The blocks
/// read before it were all rejected.
pub fn random_element<F: FieldElement>() -> (r: Result<F, getrandom::Error>)
    ensures
        r matches Ok(x) ==> exists|blocks: Seq<Seq<u8>>|
            accepted_values::<F>(blocks) == seq![x.val()],
{
    let ghost mut drawn: Seq<Seq<u8>> = Seq::empty();
    let mut attempts: u32 = 0;
    while attempts < MAX_SAMPLING_ATTEMPTS
        invariant
            accepted_values::<F>(drawn) == Seq::<nat>::empty(),
        decreases MAX_SAMPLING_ATTEMPTS - attempts,
    {
        let mut block: Vec<u8> = vec![0u8; F::BYTES];
        match fill_random(block.as_mut_slice()) {
            Ok(()) => {},
            Err(e) => return Err(e),
        }
        let accepted = F::try_from_random(block.as_slice());
        proof {
            assert(drawn.push(block@).drop_last() =~= drawn);
            assert(drawn.push(block@).last() == block@);
        }
        match accepted {
            Ok(x) => {
                assert(accepted_values::<F>(drawn.push(block@)) =~= seq![x.val()]);
                return Ok(x);
            },
            Err(_) => {},
        }
        proof {
            drawn = drawn.push(block@);
        }
        attempts = attempts + 1;
    }
    Err(unexpected_error())
}

} // verus!
