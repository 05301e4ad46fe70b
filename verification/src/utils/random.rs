//! Draws from a seeded ChaCha generator.
//!
//! The generator itself is opaque to the verifier. Each function below states
//! only what holds of every outcome of the draw it makes.

use rand::seq::SliceRandom;
use rand::Rng;
use rand::SeedableRng;
use vstd::prelude::*;

verus! {

/// `ChaCha8Rng` of rand_chacha, as a type whose inside is not looked into.
#[verifier::external_type_specification]
#[verifier::external_body]
pub struct ExChaCha8Rng(rand_chacha::ChaCha8Rng);

/// The generator every random decision of the library is drawn from.
pub type RandomGenerator = rand_chacha::ChaCha8Rng;

/// `Rng::gen_range` of rand on the half-open range `low..high`. rand panics
/// on an empty range, which the precondition excludes; the value drawn lies
/// inside the range.
#[verifier::external_body]
pub(crate) fn draw_below(random_state: &mut RandomGenerator, low: usize, high: usize) -> (r: usize)
    requires
        low < high,
    ensures
        low <= r < high,
{
    random_state.gen_range(low..high)
}

/// `Rng::gen_range` of rand on the closed range `low..=high`. rand panics
/// when `low > high`, which the precondition excludes; the value drawn lies
/// inside the range.
#[verifier::external_body]
pub(crate) fn draw_within(random_state: &mut RandomGenerator, low: usize, high: usize) -> (r: usize)
    requires
        low <= high,
    ensures
        low <= r <= high,
{
    random_state.gen_range(low..=high)
}

/// `SliceRandom::shuffle` of rand: a sequence of swaps inside the slice, so
/// the items afterwards are the items before, in some order.
#[verifier::external_body]
pub(crate) fn shuffle(items: &mut Vec<usize>, random_state: &mut RandomGenerator)
    ensures
        final(items)@.to_multiset() == old(items)@.to_multiset(),
{
    items.shuffle(random_state)
}

/// `SeedableRng::from_rng` of rand_core with a ChaCha generator as source.
/// It fails only when the source fails to fill the seed, and a ChaCha
/// generator always fills it, so a generator always comes back.
#[verifier::external_body]
pub(crate) fn child_generator(random_state: &mut RandomGenerator) -> (child: Option<RandomGenerator>)
    ensures
        child.is_some(),
{
    RandomGenerator::from_rng(random_state).ok()
}

/// A rearrangement of distinct items holds distinct items, and the same
/// ones.
pub proof fn lemma_shuffle_keeps_distinct(before: Seq<usize>, after: Seq<usize>)
    requires
        before.no_duplicates(),
        after.to_multiset() == before.to_multiset(),
    ensures
        after.no_duplicates(),
        after.len() == before.len(),
        forall|item: usize| after.contains(item) <==> before.contains(item),
{
    before.lemma_multiset_has_no_duplicates();
    after.lemma_multiset_has_no_duplicates_conv();
    before.to_multiset_ensures();
    after.to_multiset_ensures();
    assert forall|item: usize| after.contains(item) <==> before.contains(item) by {
        assert(after.contains(item) <==> after.to_multiset().count(item) > 0);
        assert(before.contains(item) <==> before.to_multiset().count(item) > 0);
    }
}

} // verus!
