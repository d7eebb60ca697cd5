//! The program commitment scheme and its randomness.
//!
//! The scheme is the Blake2s commitment of `snarkvm_algorithms`: a hash of
//! the message followed by 32 bytes of randomness.

use rand::rngs::StdRng;
use snarkvm_algorithms::commitment::Blake2sCommitment;
use snarkvm_algorithms::{CommitmentError, CommitmentScheme};
use snarkvm_utilities::UniformRand;
use vstd::prelude::*;

verus! {

/// The generator `StdRng` of `rand`, carried through as it is.
#[verifier::external_type_specification]
#[verifier::external_body]
pub struct ExStdRng(StdRng);

/// The error of the commitment schemes of `snarkvm_algorithms`, carried
/// through as it is.
#[verifier::external_type_specification]
#[verifier::external_body]
pub struct ExCommitmentError(CommitmentError);

/// The Blake2s commitment to a message under 32 bytes of randomness.
pub uninterp spec fn blake2s_commitment(message: Seq<u8>, randomness: Seq<u8>) -> Seq<u8>;

/// `CommitmentScheme::commit` of `Blake2sCommitment` in `snarkvm_algorithms`:
/// the commitment depends on the message and the randomness alone, and the
/// outside function has no path that ends in an error.
#[verifier::external_body]
pub(crate) fn commit(message: &[u8], randomness: &[u8; 32]) -> (r: Result<
    [u8; 32],
    CommitmentError,
>)
    ensures
        r is Ok,
        r matches Ok(commitment) ==> commitment@ == blake2s_commitment(message@, randomness@),
{
    Blake2sCommitment.commit(message, randomness)
}

/// `UniformRand::rand` of `snarkvm_utilities`, for 32 bytes: whatever the
/// generator gives.
#[verifier::external_body]
pub(crate) fn sample_randomness(rng: &mut StdRng) -> (randomness: [u8; 32]) {
    UniformRand::rand(rng)
}

} // verus!
