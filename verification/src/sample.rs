//! Drawing a sample of fixed size from a stream of lines.

use vstd::prelude::*;

use crate::rng::{
    draw, is_order, range_draw, reordered, rng_state, seeded_rng, seeded_state, shuffle,
    shuffle_order,
};
use crate::text::texts;

verus! {

/// The places of the lines that are in the reservoir after `total` lines, and the generator's state
/// then. The first lines fill it; a later one takes the place that is drawn among as many places
/// as there were lines, where the reservoir has that place.
pub open spec fn chosen(total: nat, n: nat, seed: u64) -> (Seq<int>, nat)
    decreases total,
{
    if total == 0 {
        (Seq::empty(), seeded_state(seed))
    } else {
        let (before, state) = chosen((total - 1) as nat, n, seed);
        if before.len() < n {
            (before.push(total - 1), state)
        } else {
            let (j, after) = range_draw(state, 0, total as u64);
            if j < n {
                (before.update(j as int, total - 1), after)
            } else {
                (before, after)
            }
        }
    }
}

/// The sample of lines: the chosen ones, shuffled.
pub open spec fn sample_of(lines: Seq<Seq<char>>, n: nat, seed: u64) -> Seq<Seq<char>> {
    let (places, state) = chosen(lines.len(), n, seed);
    reordered(reordered(lines, places), shuffle_order(state, places.len()))
}

/// As many lines are chosen as there are, up to the size of the reservoir, and none twice.
proof fn lemma_chosen(total: nat, n: nat, seed: u64)
    ensures
        chosen(total, n, seed).0.len() == if total < n {
            total
        } else {
            n
        },
        forall|i: int|
            0 <= i < chosen(total, n, seed).0.len() ==> 0 <= #[trigger] chosen(
                total,
                n,
                seed,
            ).0[i] < total,
        forall|i: int, j: int|
            0 <= i < j < chosen(total, n, seed).0.len() ==> #[trigger] chosen(total, n, seed).0[i]
                != #[trigger] chosen(total, n, seed).0[j],
        total <= n ==> chosen(total, n, seed) == (
            Seq::new(total, |i: int| i),
            seeded_state(seed),
        ),
    decreases total,
{
    if total > 0 {
        lemma_chosen((total - 1) as nat, n, seed);
        if total <= n {
            assert(chosen(total, n, seed).0 =~= Seq::new(total, |i: int| i));
        }
    } else {
        assert(chosen(total, n, seed).0 =~= Seq::new(total, |i: int| i));
    }
}

/// Whether lines come from the given places of the input, each place giving one line at most.
pub open spec fn is_drawn_at(
    lines: Seq<Seq<char>>,
    drawn: Seq<Seq<char>>,
    places: Seq<int>,
) -> bool {
    &&& drawn == reordered(lines, places)
    &&& forall|i: int| 0 <= i < places.len() ==> 0 <= #[trigger] places[i] < lines.len()
    &&& forall|i: int, j: int|
        0 <= i < j < places.len() ==> #[trigger] places[i] != #[trigger] places[j]
}

/// Whether lines are a sample: as many as asked for, or all where there are fewer, each from a
/// place of its own among the input lines.
pub open spec fn is_drawn(lines: Seq<Seq<char>>, drawn: Seq<Seq<char>>, n: nat) -> bool {
    &&& drawn.len() == if lines.len() < n {
        lines.len()
    } else {
        n
    }
    &&& exists|places: Seq<int>| is_drawn_at(lines, drawn, places)
}

/// What is chosen and shuffled is drawn from the lines.
proof fn lemma_sample_drawn(lines: Seq<Seq<char>>, n: nat, seed: u64)
    requires
        is_order(
            shuffle_order(chosen(lines.len(), n, seed).1, chosen(lines.len(), n, seed).0.len()),
            chosen(lines.len(), n, seed).0.len(),
        ),
    ensures
        is_drawn(lines, sample_of(lines, n, seed), n),
{
    let (kept, state) = chosen(lines.len(), n, seed);
    let order = shuffle_order(state, kept.len());
    lemma_chosen(lines.len(), n, seed);
    let places = reordered(kept, order);
    assert forall|i: int| 0 <= i < places.len() implies 0 <= #[trigger] places[i] < lines.len() by {
        assert(places[i] == kept[order[i]]);
    }
    assert forall|i: int, j: int| 0 <= i < j < places.len() implies #[trigger] places[i]
        != #[trigger] places[j] by {
        assert(places[i] == kept[order[i]]);
        assert(places[j] == kept[order[j]]);
        assert(order[i] != order[j]);
        if order[i] < order[j] {
            assert(kept[order[i]] != kept[order[j]]);
        } else {
            assert(kept[order[j]] != kept[order[i]]);
        }
    }
    assert(reordered(lines, places) =~= sample_of(lines, n, seed));
    assert(is_drawn_at(lines, sample_of(lines, n, seed), places));
}

/// The place in a full reservoir that a line takes, given the number that was drawn for it.
pub fn taken_place(drawn: u64, size: usize) -> (r: Option<usize>)
    ensures
        drawn < size ==> r == Some(drawn as usize),
        drawn >= size ==> r is None,
{
    if drawn < size as u64 {
        Some(drawn as usize)
    } else {
        None
    }
}

/// Lines of a stream of which a sample is drawn.
pub struct Reservoir {
    size: usize,
    total: u64,
    lines: Vec<String>,
    rng: rand_chacha::ChaCha8Rng,
}

impl Reservoir {
    /// How many lines came by.
    pub closed spec fn seen(&self) -> nat {
        self.total as nat
    }

    /// Whether the reservoir is what the given lines leave in one of size `n`.
    pub closed spec fn holds(&self, lines: Seq<Seq<char>>, n: nat, seed: u64) -> bool {
        let (places, state) = chosen(lines.len(), n, seed);
        &&& self.size == n
        &&& self.total == lines.len()
        &&& self.lines@.len() <= n
        &&& texts(self.lines@) == reordered(lines, places)
        &&& rng_state(self.rng) == state
    }

    /// An empty reservoir of size `n`.
    pub fn new(n: usize, seed: u64) -> (r: Reservoir)
        ensures
            r.holds(Seq::empty(), n as nat, seed),
            r.seen() == 0,
    {
        let r = Reservoir { size: n, total: 0, lines: Vec::new(), rng: seeded_rng(seed) };
        assert(texts(r.lines@) =~= reordered(
            Seq::<Seq<char>>::empty(),
            chosen(0, n as nat, seed).0,
        ));
        r
    }

    /// How many lines came by.
    pub fn total_lines(&self) -> (r: u64)
        ensures
            r == self.seen(),
    {
        self.total
    }

    /// Takes a line in.
    pub fn add_line(&mut self, line: String)
        requires
            old(self).seen() < u64::MAX,
        ensures
            final(self).seen() == old(self).seen() + 1,
            forall|lines: Seq<Seq<char>>, n: nat, seed: u64| #[trigger]
                old(self).holds(lines, n, seed) ==> final(self).holds(lines.push(line@), n, seed),
    {
        let ghost before = *self;
        self.total = self.total + 1;
        if self.lines.len() < self.size {
            self.lines.push(line);
        } else {
            let drawn: u64 = draw(&mut self.rng, 0, self.total);
            match taken_place(drawn, self.size) {
                Some(place) => {
                    if place < self.lines.len() {
                        self.lines.set(place, line);
                    }
                },
                None => {},
            }
        }
        proof {
            assert forall|lines: Seq<Seq<char>>, n: nat, seed: u64| #[trigger]
                before.holds(lines, n, seed) implies self.holds(lines.push(line@), n, seed) by {
                let more = lines.push(line@);
                let (old_places, old_state) = chosen(lines.len(), n, seed);
                let (places, state) = chosen(more.len(), n, seed);
                assert(reordered(lines, old_places).len() == old_places.len());
                assert(texts(before.lines@).len() == before.lines@.len());
                lemma_chosen(lines.len(), n, seed);
                assert forall|k: int| 0 <= k < old_places.len() implies more[#[trigger] old_places[k]]
                    == lines[old_places[k]] by {
                    assert(0 <= old_places[k] < lines.len());
                }
                assert(texts(self.lines@) =~= reordered(more, places)) by {
                    assert forall|k: int| 0 <= k < old_places.len() implies texts(
                        before.lines@,
                    )[k] == lines[#[trigger] old_places[k]] by {
                        assert(reordered(lines, old_places)[k] == lines[old_places[k]]);
                    }
                }
            }
        }
    }

    /// The sample.
    pub fn finish(self) -> (r: Vec<String>)
        ensures
            forall|lines: Seq<Seq<char>>, n: nat, seed: u64| #[trigger]
                self.holds(lines, n, seed) ==> texts(r@) == sample_of(lines, n, seed) && is_drawn(
                    lines,
                    texts(r@),
                    n,
                ),
    {
        let mut lines = self.lines;
        let mut rng = self.rng;
        let ghost before = lines@;
        let ghost state = rng_state(rng);
        shuffle(&mut lines, &mut rng);
        proof {
            assert forall|all: Seq<Seq<char>>, n: nat, seed: u64| #[trigger]
                self.holds(all, n, seed) implies texts(lines@) == sample_of(all, n, seed)
                && is_drawn(all, texts(lines@), n) by {
                let (places, end) = chosen(all.len(), n, seed);
                assert(texts(before).len() == before.len());
                assert(reordered(all, places).len() == places.len());
                let order = shuffle_order(state, before.len());
                assert(texts(lines@) =~= reordered(texts(before), order));
                lemma_sample_drawn(all, n, seed);
            }
        }
        lines
    }
}

/// Draws a sample of `n` lines, or of all where there are fewer, in random order; gives the number
/// of all lines.
pub fn sample(lines: &Vec<String>, output: &mut Vec<String>, n: usize, seed: u64) -> (r: u64)
    ensures
        r == lines.len(),
        texts(final(output)@) == texts(old(output)@) + sample_of(texts(lines@), n as nat, seed),
        is_drawn(texts(lines@), texts(final(output)@).skip(old(output)@.len() as int), n as nat),
{
    let ghost all = texts(lines@);
    let mut reservoir = Reservoir::new(n, seed);
    let mut i: usize = 0;
    assert(all.take(0) =~= Seq::empty());
    while i < lines.len()
        invariant
            i <= lines.len(),
            all == texts(lines@),
            reservoir.seen() == i,
            reservoir.holds(all.take(i as int), n as nat, seed),
        decreases lines.len() - i,
    {
        assert(all.take(i + 1) =~= all.take(i as int).push(all[i as int]));
        reservoir.add_line(lines[i].clone());
        i += 1;
    }
    assert(all.take(i as int) =~= all);
    let total = lines.len() as u64;
    let mut drawn = reservoir.finish();
    let ghost before = output@;
    let ghost added = drawn@;
    output.append(&mut drawn);
    assert(texts(output@) =~= texts(before) + texts(added));
    assert(texts(output@).skip(before.len() as int) =~= texts(added));
    total
}

/// A reservoir that is not smaller than the input takes all lines, and then draws only their order.
pub proof fn law_large_sample_takes_all(lines: Seq<Seq<char>>, n: nat, seed: u64)
    requires
        lines.len() <= n,
    ensures
        sample_of(lines, n, seed) == reordered(
            lines,
            shuffle_order(seeded_state(seed), lines.len()),
        ),
{
    lemma_chosen(lines.len(), n, seed);
    assert(reordered(lines, Seq::new(lines.len(), |i: int| i)) =~= lines);
}

/// Before the first line nothing is chosen, and the generator is as it was made from the seed.
pub proof fn law_reservoir_starts_empty(n: nat, seed: u64)
    ensures
        chosen(0, n, seed).0.len() == 0,
        chosen(0, n, seed).1 == seeded_state(seed),
{
}

/// The reservoir takes the first lines as they come, and draws nothing for them. For each line
/// after that a number below the number of lines so far is drawn: where the reservoir has that
/// place, the line takes it, and else all stays; so each line has its chance, the last as well.
pub proof fn law_reservoir_takes_what_is_drawn(total: nat, n: nat, seed: u64)
    requires
        0 < total <= u64::MAX,
    ensures
        ({
            let (before, state) = chosen((total - 1) as nat, n, seed);
            let (after, later) = chosen(total, n, seed);
            let (j, next) = range_draw(state, 0, total as u64);
            &&& total <= n ==> after == before.push(total - 1) && later == state
            &&& total > n ==> after.len() == n && later == next
            &&& total > n && j < n ==> after[j as int] == total - 1 && forall|k: int|
                0 <= k < n && k != j ==> #[trigger] after[k] == before[k]
            &&& total > n && j >= n ==> after == before
        }),
{
    lemma_chosen((total - 1) as nat, n, seed);
    lemma_chosen(total, n, seed);
}

/// The sample is made of the chosen lines and no others, in an order that the generator gives.
pub proof fn law_sample_shuffles_what_was_chosen(lines: Seq<Seq<char>>, n: nat, seed: u64, k: int)
    requires
        0 <= k < sample_of(lines, n, seed).len(),
        0 <= shuffle_order(
            chosen(lines.len(), n, seed).1,
            chosen(lines.len(), n, seed).0.len(),
        )[k] < chosen(lines.len(), n, seed).0.len(),
    ensures
        ({
            let (places, state) = chosen(lines.len(), n, seed);
            let order = shuffle_order(state, places.len());
            &&& sample_of(lines, n, seed).len() == order.len()
            &&& sample_of(lines, n, seed)[k] == lines[places[order[k]]]
        }),
{
}

} // verus!
