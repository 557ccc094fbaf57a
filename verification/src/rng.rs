//! Random numbers, as the `rand` and `rand_chacha` crates draw them from a seed.

use rand::seq::SliceRandom;
use rand::{Rng, SeedableRng};
use vstd::prelude::*;

verus! {

/// `rand_chacha::ChaCha8Rng`, opaque.
#[verifier::external_type_specification]
#[verifier::external_body]
pub struct ExChaCha8Rng(rand_chacha::ChaCha8Rng);

/// The state of a generator: all that its next numbers depend on.
pub uninterp spec fn rng_state(rng: rand_chacha::ChaCha8Rng) -> nat;

/// The state of a generator that was just made from a seed.
pub uninterp spec fn seeded_state(seed: u64) -> nat;

/// The number that a generator draws from a range, and the state after that.
pub uninterp spec fn range_draw(state: nat, low: u64, high: u64) -> (u64, nat);

/// The order in which a generator shuffles a number of items: for each place the place from which
/// its item comes.
pub uninterp spec fn shuffle_order(state: nat, len: nat) -> Seq<int>;

/// Items in another order.
pub open spec fn reordered<T>(items: Seq<T>, order: Seq<int>) -> Seq<T> {
    order.map_values(|k: int| items[k])
}

/// Whether an order has each of the places below `len` once.
pub open spec fn is_order(order: Seq<int>, len: nat) -> bool {
    &&& order.len() == len
    &&& forall|i: int| 0 <= i < order.len() ==> 0 <= #[trigger] order[i] < len
    &&& forall|i: int, j: int|
        0 <= i < j < order.len() ==> #[trigger] order[i] != #[trigger] order[j]
}

/// Whether items came into the given order, each once.
pub open spec fn is_reordering<T>(before: Seq<T>, after: Seq<T>, order: Seq<int>) -> bool {
    is_order(order, before.len()) && after == reordered(before, order)
}

/// Calls `SeedableRng::seed_from_u64`: the same seed makes a generator in the same state.
#[verifier::external_body]
pub(crate) fn seeded_rng(seed: u64) -> (r: rand_chacha::ChaCha8Rng)
    ensures
        rng_state(r) == seeded_state(seed),
{
    rand_chacha::ChaCha8Rng::seed_from_u64(seed)
}

/// Calls `Rng::gen_range` with a range of `u64`. The number lies in the range, and depends on the
/// range and the generator's state alone, as does the state after it. It panics on an empty range.
#[verifier::external_body]
pub(crate) fn draw(rng: &mut rand_chacha::ChaCha8Rng, low: u64, high: u64) -> (r: u64)
    requires
        low < high,
    ensures
        low <= r < high,
        r == range_draw(rng_state(*old(rng)), low, high).0,
        rng_state(*final(rng)) == range_draw(rng_state(*old(rng)), low, high).1,
{
    rng.gen_range(low..high)
}

/// Calls `SliceRandom::shuffle`: the same items, each once, in an order that depends on their
/// number and the generator's state alone. Of the generator after that nothing is said.
#[verifier::external_body]
pub(crate) fn shuffle(items: &mut Vec<String>, rng: &mut rand_chacha::ChaCha8Rng)
    ensures
        is_reordering(
            old(items)@,
            final(items)@,
            shuffle_order(rng_state(*old(rng)), old(items)@.len()),
        ),
{
    items.shuffle(rng)
}

} // verus!
