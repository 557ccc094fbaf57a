//! Signatures of texts that agree in about as many rows as the texts share shingles.

use std::collections::hash_map::DefaultHasher;
use std::hash::{Hash, Hasher};

use vstd::prelude::*;
use vstd::std_specs::hash::DefaultHasherAdditionalSpecFns;

use crate::rng::{draw, range_draw, rng_state, seeded_rng, seeded_state};
use crate::text::{chars_of, string_of};

verus! {

/// How many rows a signature has.
pub const NUM_HASHES: usize = 128;

/// The modulus of the hash functions, a prime.
pub const PRIME: u64 = 2147483647;

/// How many characters a shingle has.
pub const SHINGLE_SIZE: usize = 5;

/// What a text writes into a hasher.
pub uninterp spec fn text_writes(text: Seq<char>) -> Seq<Seq<u8>>;

/// Calls `Hash::hash` of `str`: what is written depends on the text alone.
#[verifier::external_body]
fn write_text(text: &str, hasher: &mut DefaultHasher)
    ensures
        final(hasher)@ == old(hasher)@ + text_writes(text@),
{
    text.hash(hasher)
}

/// The hash of a text.
pub open spec fn text_hash(text: Seq<char>) -> u64 {
    DefaultHasher::spec_finish(text_writes(text))
}

/// The hash of a text.
fn hash_text(text: &str) -> (r: u64)
    ensures
        r == text_hash(text@),
{
    let mut hasher = DefaultHasher::new();
    write_text(text, &mut hasher);
    assert(hasher@ =~= text_writes(text@));
    hasher.finish()
}

/// The pieces of a text that are hashed: all runs of five characters, or the whole of a shorter
/// text.
pub open spec fn shingles(text: Seq<char>) -> Seq<Seq<char>> {
    if text.len() < SHINGLE_SIZE {
        seq![text]
    } else {
        Seq::new(
            (text.len() - SHINGLE_SIZE + 1) as nat,
            |i: int| text.subrange(i, i + SHINGLE_SIZE),
        )
    }
}

/// A hash function of the family, applied to a hash.
pub open spec fn permuted(hash: u64, a: u64, b: u64) -> u32 {
    ((a * hash + b) % PRIME as int) as u32
}

/// The least value that a hash function of the family takes on texts.
pub open spec fn least_hash(items: Seq<Seq<char>>, a: u64, b: u64) -> u32
    decreases items.len(),
{
    if items.len() == 0 {
        u32::MAX
    } else {
        let before = least_hash(items.drop_last(), a, b);
        let last = permuted(text_hash(items.last()), a, b);
        if last < before {
            last
        } else {
            before
        }
    }
}

/// The signature of a text: for each hash function the least value on its shingles.
pub open spec fn signature_of(text: Seq<char>, a: Seq<u64>, b: Seq<u64>) -> Seq<u32> {
    Seq::new(NUM_HASHES as nat, |i: int| least_hash(shingles(text), a[i], b[i]))
}

/// Applies a hash function of the family.
pub fn permute(hash: u64, a: u64, b: u64) -> (r: u32)
    ensures
        r == permuted(hash, a, b),
        r < PRIME,
{
    assert(a * hash <= 0xffff_ffff_ffff_ffff * 0xffff_ffff_ffff_ffff) by (nonlinear_arith)
        requires
            a <= 0xffff_ffff_ffff_ffff,
            hash <= 0xffff_ffff_ffff_ffff,
    ;
    assert(0 <= a * hash) by (nonlinear_arith)
        requires
            a >= 0,
            hash >= 0,
    ;
    ((a as u128 * hash as u128 + b as u128) % PRIME as u128) as u32
}

/// Lowers a signature by the hash of one more shingle.
fn lower(
    sig: &mut [u32; NUM_HASHES],
    hash: u64,
    a: &[u64],
    b: &[u64],
    Ghost(items): Ghost<Seq<Seq<char>>>,
)
    requires
        a.len() >= NUM_HASHES,
        b.len() >= NUM_HASHES,
        items.len() > 0,
        hash == text_hash(items.last()),
        forall|i: int|
            0 <= i < NUM_HASHES ==> #[trigger] old(sig)@[i] == least_hash(
                items.drop_last(),
                a@[i],
                b@[i],
            ),
    ensures
        forall|i: int|
            0 <= i < NUM_HASHES ==> #[trigger] final(sig)@[i] == least_hash(items, a@[i], b@[i]),
{
    let mut i: usize = 0;
    while i < NUM_HASHES
        invariant
            i <= NUM_HASHES,
            a.len() >= NUM_HASHES,
            b.len() >= NUM_HASHES,
            items.len() > 0,
            hash == text_hash(items.last()),
            forall|j: int|
                0 <= j < i ==> #[trigger] sig@[j] == least_hash(items, a@[j], b@[j]),
            forall|j: int|
                i <= j < NUM_HASHES ==> #[trigger] sig@[j] == least_hash(
                    items.drop_last(),
                    a@[j],
                    b@[j],
                ),
        decreases NUM_HASHES - i,
    {
        let value = permute(hash, a[i], b[i]);
        if value < sig[i] {
            sig[i] = value;
        }
        i += 1;
    }
}

/// The signature of a text.
pub fn compute_signature(text: &str, a: &[u64], b: &[u64]) -> (r: [u32; NUM_HASHES])
    requires
        a.len() >= NUM_HASHES,
        b.len() >= NUM_HASHES,
    ensures
        r@ == signature_of(text@, a@, b@),
{
    let chars = chars_of(text);
    let ghost items = shingles(text@);
    let mut sig: [u32; NUM_HASHES] = [u32::MAX; NUM_HASHES];
    if chars.len() < SHINGLE_SIZE {
        assert(items.drop_last() =~= Seq::empty());
        lower(&mut sig, hash_text(text), a, b, Ghost(items));
        assert(sig@ =~= signature_of(text@, a@, b@));
        return sig;
    }
    let count: usize = chars.len() - SHINGLE_SIZE + 1;
    let mut at: usize = 0;
    while at < count
        invariant
            at <= count,
            count == chars.len() - SHINGLE_SIZE + 1,
            chars@ == text@,
            a.len() >= NUM_HASHES,
            b.len() >= NUM_HASHES,
            items == shingles(text@),
            items.len() == count,
            forall|i: int|
                0 <= i < NUM_HASHES ==> #[trigger] sig@[i] == least_hash(
                    items.take(at as int),
                    a@[i],
                    b@[i],
                ),
        decreases count - at,
    {
        let mut window: Vec<char> = Vec::new();
        let mut k: usize = 0;
        while k < SHINGLE_SIZE
            invariant
                k <= SHINGLE_SIZE,
                at + SHINGLE_SIZE <= chars.len(),
                window@ == chars@.subrange(at as int, at + k),
            decreases SHINGLE_SIZE - k,
        {
            window.push(chars[at + k]);
            assert(window@ =~= chars@.subrange(at as int, at + k + 1));
            k += 1;
        }
        let shingle = string_of(&window);
        proof {
            assert(items[at as int] == shingle@);
            assert(items.take(at + 1).drop_last() =~= items.take(at as int));
            assert(items.take(at + 1).last() == shingle@);
        }
        lower(&mut sig, hash_text(shingle.as_str()), a, b, Ghost(items.take(at + 1)));
        at += 1;
    }
    assert(items.take(at as int) =~= items);
    assert(sig@ =~= signature_of(text@, a@, b@));
    sig
}

/// The state of the generator before the coefficients of the k-th hash function are drawn.
pub open spec fn coefficient_state(k: nat, seed: u64) -> nat
    decreases k,
{
    if k == 0 {
        seeded_state(seed)
    } else {
        let (_, middle) = range_draw(coefficient_state((k - 1) as nat, seed), 1, PRIME);
        range_draw(middle, 0, PRIME).1
    }
}

/// The factor of the k-th hash function.
pub open spec fn factor(k: nat, seed: u64) -> u64 {
    range_draw(coefficient_state(k, seed), 1, PRIME).0
}

/// The offset of the k-th hash function.
pub open spec fn offset(k: nat, seed: u64) -> u64 {
    let (_, middle) = range_draw(coefficient_state(k, seed), 1, PRIME);
    range_draw(middle, 0, PRIME).0
}

/// The factors of all hash functions.
pub open spec fn factors(seed: u64) -> Seq<u64> {
    Seq::new(NUM_HASHES as nat, |k: int| factor(k as nat, seed))
}

/// The offsets of all hash functions.
pub open spec fn offsets(seed: u64) -> Seq<u64> {
    Seq::new(NUM_HASHES as nat, |k: int| offset(k as nat, seed))
}

/// Draws the coefficients of the hash functions: factors from one up to the prime, offsets from
/// zero.
pub fn coefficients(seed: u64) -> (r: (Vec<u64>, Vec<u64>))
    ensures
        r.0@ == factors(seed),
        r.1@ == offsets(seed),
        forall|k: int| 0 <= k < r.0@.len() ==> 1 <= #[trigger] r.0@[k] < PRIME,
        forall|k: int| 0 <= k < r.1@.len() ==> 0 <= #[trigger] r.1@[k] < PRIME,
{
    let mut rng = seeded_rng(seed);
    let mut a: Vec<u64> = Vec::new();
    let mut b: Vec<u64> = Vec::new();
    let mut i: usize = 0;
    while i < NUM_HASHES
        invariant
            i <= NUM_HASHES,
            a.len() == i,
            b.len() == i,
            rng_state(rng) == coefficient_state(i as nat, seed),
            forall|k: int| 0 <= k < i ==> #[trigger] a@[k] == factor(k as nat, seed),
            forall|k: int| 0 <= k < i ==> #[trigger] b@[k] == offset(k as nat, seed),
            forall|k: int| 0 <= k < i ==> 1 <= #[trigger] a@[k] < PRIME,
            forall|k: int| 0 <= k < i ==> 0 <= #[trigger] b@[k] < PRIME,
        decreases NUM_HASHES - i,
    {
        a.push(draw(&mut rng, 1, PRIME));
        b.push(draw(&mut rng, 0, PRIME));
        i += 1;
    }
    assert(a@ =~= factors(seed));
    assert(b@ =~= offsets(seed));
    (a, b)
}

/// The least value on texts is not above that on any of them, and is that on one of them.
proof fn lemma_least_hash(items: Seq<Seq<char>>, a: u64, b: u64)
    ensures
        forall|i: int|
            0 <= i < items.len() ==> least_hash(items, a, b) <= permuted(
                text_hash(#[trigger] items[i]),
                a,
                b,
            ),
        least_hash(items, a, b) == u32::MAX || exists|i: int|
            0 <= i < items.len() && least_hash(items, a, b) == permuted(
                text_hash(#[trigger] items[i]),
                a,
                b,
            ),
    decreases items.len(),
{
    if items.len() > 0 {
        let rest = items.drop_last();
        lemma_least_hash(rest, a, b);
        let last = items.len() - 1;
        assert(items[last] == items.last());
        assert forall|i: int| 0 <= i < items.len() implies least_hash(items, a, b) <= permuted(
            text_hash(#[trigger] items[i]),
            a,
            b,
        ) by {
            if i < last {
                assert(rest[i] == items[i]);
            }
        }
        if least_hash(items, a, b) != u32::MAX && least_hash(items, a, b) == least_hash(
            rest,
            a,
            b,
        ) {
            let k = choose|k: int|
                0 <= k < rest.len() && least_hash(rest, a, b) == permuted(
                    text_hash(#[trigger] rest[k]),
                    a,
                    b,
                );
            assert(items[k] == rest[k]);
        }
    }
}

/// Texts with the same shingles have the same signature, however often and in what order these
/// occur.
pub proof fn law_signature_tells_shingles(
    x: Seq<char>,
    y: Seq<char>,
    a: Seq<u64>,
    b: Seq<u64>,
)
    requires
        forall|i: int|
            0 <= i < shingles(x).len() ==> shingles(y).contains(#[trigger] shingles(x)[i]),
        forall|i: int|
            0 <= i < shingles(y).len() ==> shingles(x).contains(#[trigger] shingles(y)[i]),
    ensures
        signature_of(x, a, b) == signature_of(y, a, b),
{
    assert forall|r: int| 0 <= r < NUM_HASHES implies least_hash(shingles(x), a[r], b[r])
        == least_hash(shingles(y), a[r], b[r]) by {
        lemma_least_within(shingles(x), shingles(y), a[r], b[r]);
        lemma_least_within(shingles(y), shingles(x), a[r], b[r]);
    }
    assert(signature_of(x, a, b) =~= signature_of(y, a, b));
}

/// The least value on texts that are all among others is not below that on the others.
proof fn lemma_least_within(some: Seq<Seq<char>>, all: Seq<Seq<char>>, a: u64, b: u64)
    requires
        forall|i: int| 0 <= i < some.len() ==> all.contains(#[trigger] some[i]),
    ensures
        least_hash(all, a, b) <= least_hash(some, a, b),
{
    lemma_least_hash(some, a, b);
    lemma_least_hash(all, a, b);
    if least_hash(some, a, b) != u32::MAX {
        let i = choose|i: int|
            0 <= i < some.len() && least_hash(some, a, b) == permuted(
                text_hash(#[trigger] some[i]),
                a,
                b,
            );
        let j = choose|j: int| 0 <= j < all.len() && all[j] == some[i];
        assert(least_hash(all, a, b) <= permuted(text_hash(all[j]), a, b));
    }
}

/// The signature of a text of five characters or more looks at each run of five characters of the
/// whole text: no row is above what its hash function, a factor times the run's hash plus an
/// offset modulo a prime, makes of the run at `at`, and each row is what it makes of some run.
pub proof fn law_signature_covers_every_run(
    text: Seq<char>,
    a: Seq<u64>,
    b: Seq<u64>,
    row: int,
    at: int,
)
    requires
        0 <= row < 128,
        0 <= at,
        at + 5 <= text.len(),
    ensures
        signature_of(text, a, b).len() == 128,
        signature_of(text, a, b)[row] <= (a[row] * DefaultHasher::spec_finish(
            text_writes(text.subrange(at, at + 5)),
        ) + b[row]) % 2147483647,
        exists|i: int|
            0 <= i && i + 5 <= text.len() && signature_of(text, a, b)[row] == (a[row]
                * DefaultHasher::spec_finish(text_writes(#[trigger] text.subrange(i, i + 5)))
                + b[row]) % 2147483647,
{
    let items = shingles(text);
    assert(items[at] == text.subrange(at, at + 5));
    lemma_least_hash(items, a[row], b[row]);
    lemma_permuted(text_hash(items[at]), a[row], b[row]);
    let i = choose|i: int|
        0 <= i < items.len() && least_hash(items, a[row], b[row]) == permuted(
            text_hash(#[trigger] items[i]),
            a[row],
            b[row],
        );
    lemma_permuted(text_hash(items[i]), a[row], b[row]);
    assert(items[i] == text.subrange(i, i + 5));
}

/// The signature of a text of less than five characters is made of the whole text.
pub proof fn law_signature_of_short_text(text: Seq<char>, a: Seq<u64>, b: Seq<u64>, row: int)
    requires
        0 <= row < 128,
        text.len() < 5,
    ensures
        signature_of(text, a, b).len() == 128,
        signature_of(text, a, b)[row] == (a[row] * DefaultHasher::spec_finish(text_writes(text))
            + b[row]) % 2147483647,
{
    let items = shingles(text);
    assert(items[0] == text);
    lemma_least_hash(items, a[row], b[row]);
    lemma_permuted(text_hash(text), a[row], b[row]);
}

/// What a hash function of the family takes is below the prime.
proof fn lemma_permuted(hash: u64, a: u64, b: u64)
    ensures
        permuted(hash, a, b) == (a * hash + b) % 2147483647,
        permuted(hash, a, b) < u32::MAX,
{
    assert(a * hash >= 0) by (nonlinear_arith)
        requires
            a >= 0,
            hash >= 0,
    ;
}

/// The coefficients come out of one generator that is made from the seed: for each of the rows in
/// turn a factor from one up to the prime is drawn, and then an offset from zero up to it.
pub proof fn law_coefficients_are_drawn_in_turn(seed: u64)
    ensures
        factors(seed).len() == 128,
        offsets(seed).len() == 128,
        exists|states: Seq<nat>|
            {
                &&& #[trigger] states.len() == 129
                &&& states[0] == seeded_state(seed)
                &&& forall|k: int|
                    0 <= k < 128 ==> {
                        let first = range_draw(#[trigger] states[k], 1, 2147483647);
                        let second = range_draw(first.1, 0, 2147483647);
                        &&& factors(seed)[k] == first.0
                        &&& offsets(seed)[k] == second.0
                        &&& states[k + 1] == second.1
                    }
            },
{
    let states = Seq::new(129, |k: int| coefficient_state(k as nat, seed));
    assert forall|k: int| 0 <= k < 128 implies {
        let first = range_draw(#[trigger] states[k], 1, 2147483647);
        let second = range_draw(first.1, 0, 2147483647);
        &&& factors(seed)[k] == first.0
        &&& offsets(seed)[k] == second.0
        &&& states[k + 1] == second.1
    } by {
        assert(coefficient_state((k + 1) as nat, seed) == range_draw(
            range_draw(coefficient_state(k as nat, seed), 1, PRIME).1,
            0,
            PRIME,
        ).1);
    }
    assert(states.len() == 129);
}

} // verus!
