//! The random source.
use vstd::prelude::*;
use rand::RngCore;
use rand_pcg::Pcg64Mcg;

verus! {

/// The generator `rand_pcg::Mcg128Xsl64`, also named `Pcg64Mcg`, known to
/// this crate only as a value that can be asked for the next word.
#[verifier::external_type_specification]
#[verifier::external_body]
pub struct ExMcg128Xsl64(rand_pcg::Mcg128Xsl64);

/// Calls `RngCore::next_u64` on the generator. The call advances the
/// generator and cannot fail; nothing is claimed about the word it returns.
#[verifier::external_body]
pub(crate) fn next_word(rng: &mut Pcg64Mcg) -> (word: u64) {
    rng.next_u64()
}

} // verus!
