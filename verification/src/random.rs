//! The random draws that Sticky Sampling makes, taken from a seeded
//! generator of the `rand` crate.

use vstd::prelude::*;

verus! {

/// `rand::StdRng`, the standard generator of the `rand` crate, as a value of
/// which nothing is known.
#[verifier::external_type_specification]
#[verifier::external_body]
pub struct ExStdRng(rand::StdRng);

/// `rand::SeedableRng::from_seed` for `rand::StdRng`, on the one-word seed
/// `seed`: a generator whose draws are fixed by the seed. Nothing is claimed
/// of the generator.
#[verifier::external_body]
pub(crate) fn seeded_rng(seed: u64) -> (rng: rand::StdRng) {
    let words = [seed as usize];
    rand::SeedableRng::from_seed(&words[..])
}

/// `rand::Rng::next_u64` on `rng`: the generator's next word. Nothing is
/// claimed of the word.
#[verifier::external_body]
pub(crate) fn next_word(rng: &mut rand::StdRng) -> (word: u64) {
    rand::Rng::next_u64(rng)
}

/// `rand::Rng::gen_weighted_bool` on `rng`: `true` with a chance of one in
/// `n`. All that is claimed is what its source decides without a draw: for
/// `n` of at most one the answer is `true`.
#[verifier::external_body]
pub(crate) fn one_in(rng: &mut rand::StdRng, n: u32) -> (hit: bool)
    ensures
        n <= 1 ==> hit,
{
    rand::Rng::gen_weighted_bool(rng, n)
}

/// Flips a fair coin until it says stop, at most `limit` times, and returns
/// the number of flips that said go on. Each flip is a draw from `rng`, so
/// all that holds of the number, whatever the draws, is its bound.
pub(crate) fn coin_run(rng: &mut rand::StdRng, limit: u64) -> (run: u64)
    ensures
        run <= limit,
{
    let mut run: u64 = 0;
    while run < limit
        invariant
            run <= limit,
        decreases limit - run,
    {
        if one_in(rng, 2) {
            break ;
        }
        run = run + 1;
    }
    run
}

} // verus!
