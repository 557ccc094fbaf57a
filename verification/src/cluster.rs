//! Groups of signatures that are alike, directly or through others.

use std::collections::HashMap;

use vstd::prelude::*;

use crate::minhash::NUM_HASHES;
use crate::union_find::{joined_root, UnionFind};

verus! {

/// In how many of the first rows two signatures agree.
pub open spec fn agreement(x: Seq<u32>, y: Seq<u32>, rows: nat) -> nat
    decreases rows,
{
    if rows == 0 {
        0
    } else {
        agreement(x, y, (rows - 1) as nat) + if x[rows - 1] == y[rows - 1] {
            1nat
        } else {
            0nat
        }
    }
}

/// Whether two signatures are alike: they agree in enough rows.
pub open spec fn alike(x: Seq<u32>, y: Seq<u32>, min_rows: nat) -> bool {
    agreement(x, y, NUM_HASHES as nat) >= min_rows
}

/// Whether a way leads from one signature to the next alike one.
pub open spec fn is_way(sigs: Seq<Seq<u32>>, min_rows: nat, way: Seq<int>) -> bool {
    &&& way.len() > 0
    &&& forall|i: int| 0 <= i < way.len() ==> 0 <= #[trigger] way[i] < sigs.len()
    &&& forall|i: int|
        0 < i < way.len() ==> alike(sigs[way[i - 1]], sigs[#[trigger] way[i]], min_rows)
}

/// Whether two signatures are alike, directly or through others.
pub open spec fn connected(sigs: Seq<Seq<u32>>, min_rows: nat, i: int, j: int) -> bool {
    exists|way: Seq<int>| #[trigger]
        is_way(sigs, min_rows, way) && way[0] == i && way.last() == j
}

/// For each signature whether none before it is in its group.
pub open spec fn firsts(sigs: Seq<Seq<u32>>, min_rows: nat) -> Seq<bool> {
    Seq::new(
        sigs.len(),
        |k: int| forall|j: int| 0 <= j < k ==> !#[trigger] connected(sigs, min_rows, k, j),
    )
}

/// Agreement does not depend on the order.
proof fn lemma_agreement_symmetric(x: Seq<u32>, y: Seq<u32>, rows: nat)
    ensures
        agreement(x, y, rows) == agreement(y, x, rows),
    decreases rows,
{
    if rows > 0 {
        lemma_agreement_symmetric(x, y, (rows - 1) as nat);
    }
}

/// Likeness does not depend on the order.
proof fn lemma_alike_symmetric(x: Seq<u32>, y: Seq<u32>, min_rows: nat)
    requires
        alike(x, y, min_rows),
    ensures
        alike(y, x, min_rows),
{
    lemma_agreement_symmetric(x, y, NUM_HASHES as nat);
}

/// Each signature is in its own group.
pub proof fn law_connected_reflexive(sigs: Seq<Seq<u32>>, min_rows: nat, i: int)
    requires
        0 <= i < sigs.len(),
    ensures
        connected(sigs, min_rows, i, i),
{
    assert(is_way(sigs, min_rows, seq![i]));
}

/// Of two signatures each is in the group of the other, or none.
pub proof fn law_connected_symmetric(sigs: Seq<Seq<u32>>, min_rows: nat, i: int, j: int)
    requires
        connected(sigs, min_rows, i, j),
    ensures
        connected(sigs, min_rows, j, i),
{
    let way = choose|way: Seq<int>| #[trigger]
        is_way(sigs, min_rows, way) && way[0] == i && way.last() == j;
    let back = Seq::new(way.len(), |k: int| way[way.len() - 1 - k]);
    assert forall|k: int| 0 < k < back.len() implies alike(
        sigs[back[k - 1]],
        sigs[#[trigger] back[k]],
        min_rows,
    ) by {
        let at = way.len() - k;
        assert(back[k - 1] == way[at]);
        assert(back[k] == way[at - 1]);
        assert(alike(sigs[way[at - 1]], sigs[way[at]], min_rows));
        lemma_alike_symmetric(sigs[way[at - 1]], sigs[way[at]], min_rows);
    }
    assert(is_way(sigs, min_rows, back));
    assert(back[0] == j && back.last() == i);
}

/// Two signatures that are in the group of a third are in one group.
pub proof fn law_connected_transitive(sigs: Seq<Seq<u32>>, min_rows: nat, i: int, j: int, k: int)
    requires
        connected(sigs, min_rows, i, j),
        connected(sigs, min_rows, j, k),
    ensures
        connected(sigs, min_rows, i, k),
{
    let first = choose|way: Seq<int>| #[trigger]
        is_way(sigs, min_rows, way) && way[0] == i && way.last() == j;
    let second = choose|way: Seq<int>| #[trigger]
        is_way(sigs, min_rows, way) && way[0] == j && way.last() == k;
    let both = first + second.drop_first();
    assert forall|n: int| 0 <= n < both.len() implies 0 <= #[trigger] both[n] < sigs.len() by {
        if n >= first.len() {
            assert(both[n] == second[n - first.len() + 1]);
        } else {
            assert(both[n] == first[n]);
        }
    }
    assert forall|n: int| 0 < n < both.len() implies alike(
        sigs[both[n - 1]],
        sigs[#[trigger] both[n]],
        min_rows,
    ) by {
        if n < first.len() {
            assert(both[n - 1] == first[n - 1] && both[n] == first[n]);
        } else {
            let at = n - first.len() + 1;
            assert(both[n] == second[at]);
            assert(both[n - 1] == second[at - 1]);
            assert(alike(sigs[second[at - 1]], sigs[second[at]], min_rows));
        }
    }
    assert(is_way(sigs, min_rows, both));
    assert(both[0] == i);
    if second.len() > 1 {
        assert(both.last() == second.last());
    } else {
        assert(both =~= first);
    }
}

/// Into how many bands signatures are cut to find those that are alike: one more than the rows in
/// which these may differ, so that such a pair agrees in a whole band.
spec fn band_count(min_rows: nat) -> nat {
    if min_rows <= NUM_HASHES {
        (NUM_HASHES + 1 - min_rows) as nat
    } else {
        0
    }
}

/// The row at which a band starts, and the one before ends.
spec fn band_start(band: int, bands: nat) -> int {
    band * NUM_HASHES / bands as int
}

/// The rows of a band.
spec fn band_rows(x: Seq<u32>, band: int, bands: nat) -> Seq<u32> {
    x.subrange(band_start(band, bands), band_start(band + 1, bands))
}

/// Whether two signatures agree in a whole band.
spec fn share_band(x: Seq<u32>, y: Seq<u32>, band: int, bands: nat) -> bool {
    band_rows(x, band, bands) == band_rows(y, band, bands)
}

/// The bands lie one after the other, from the first row to the last.
proof fn lemma_band_start(band: int, bands: nat)
    requires
        0 <= band < bands,
    ensures
        0 <= band_start(band, bands) <= band_start(band + 1, bands) <= NUM_HASHES,
        band_start(0, bands) == 0,
        band_start(bands as int, bands) == NUM_HASHES,
{
    let rows = NUM_HASHES as int;
    let n = bands as int;
    assert(0 <= band * rows / n <= (band + 1) * rows / n <= rows) by (nonlinear_arith)
        requires
            0 <= band < n,
            rows == 128,
    ;
    assert(0 * rows / n == 0) by (nonlinear_arith)
        requires
            n > 0,
    ;
    assert(n * rows / n == rows) by (nonlinear_arith)
        requires
            n > 0,
    ;
}

/// Agreement grows by at most the number of rows, and by less where one of these differs.
proof fn lemma_agreement_grows(x: Seq<u32>, y: Seq<u32>, from: nat, to: nat)
    requires
        from <= to <= x.len(),
        x.len() == y.len(),
    ensures
        agreement(x, y, to) <= agreement(x, y, from) + to - from,
        x.subrange(from as int, to as int) != y.subrange(from as int, to as int) ==> agreement(
            x,
            y,
            to,
        ) < agreement(x, y, from) + to - from,
    decreases to,
{
    if from < to {
        let before = (to - 1) as nat;
        lemma_agreement_grows(x, y, from, before);
        let ours = x.subrange(from as int, to as int);
        let theirs = y.subrange(from as int, to as int);
        assert(ours =~= x.subrange(from as int, before as int).push(x[to - 1]));
        assert(theirs =~= y.subrange(from as int, before as int).push(y[to - 1]));
    } else {
        assert(x.subrange(from as int, to as int) =~= y.subrange(from as int, to as int));
    }
}

/// Signatures that differ in each of the first bands differ in as many rows.
proof fn lemma_bands_differ(x: Seq<u32>, y: Seq<u32>, count: int, bands: nat)
    requires
        x.len() == NUM_HASHES,
        y.len() == NUM_HASHES,
        0 <= count <= bands,
        0 < bands,
        forall|band: int| 0 <= band < count ==> !#[trigger] share_band(x, y, band, bands),
    ensures
        0 <= band_start(count, bands),
        agreement(x, y, band_start(count, bands) as nat) + count <= band_start(count, bands),
    decreases count,
{
    if count == 0 {
        lemma_band_start(0, bands);
    } else {
        let last = count - 1;
        lemma_bands_differ(x, y, last, bands);
        lemma_band_start(last, bands);
        assert(!share_band(x, y, last, bands));
        lemma_agreement_grows(
            x,
            y,
            band_start(last, bands) as nat,
            band_start(count, bands) as nat,
        );
    }
}

/// Signatures that are alike agree in a whole band.
proof fn lemma_alike_share_band(x: Seq<u32>, y: Seq<u32>, min_rows: nat)
    requires
        x.len() == NUM_HASHES,
        y.len() == NUM_HASHES,
        alike(x, y, min_rows),
    ensures
        exists|band: int|
            0 <= band < band_count(min_rows) && #[trigger] share_band(
                x,
                y,
                band,
                band_count(min_rows),
            ),
{
    let bands = band_count(min_rows);
    lemma_agreement_grows(x, y, 0, NUM_HASHES as nat);
    if forall|band: int| 0 <= band < bands ==> !#[trigger] share_band(x, y, band, bands) {
        lemma_bands_differ(x, y, bands as int, bands);
        lemma_band_start(0, bands);
    }
}

/// Signatures as mathematical values.
pub open spec fn sig_views(sigs: Seq<[u32; NUM_HASHES]>) -> Seq<Seq<u32>> {
    sigs.map_values(|sig: [u32; NUM_HASHES]| sig@)
}

/// In how many rows two signatures agree.
fn count_agreement(x: &[u32; NUM_HASHES], y: &[u32; NUM_HASHES]) -> (r: usize)
    ensures
        r == agreement(x@, y@, NUM_HASHES as nat),
{
    let mut count: usize = 0;
    let mut i: usize = 0;
    while i < NUM_HASHES
        invariant
            i <= NUM_HASHES,
            count <= i,
            count == agreement(x@, y@, i as nat),
        decreases NUM_HASHES - i,
    {
        if x[i] == y[i] {
            count = count + 1;
        }
        i += 1;
    }
    count
}

/// A number that rows with the same values share.
spec fn rows_key(rows: Seq<u32>) -> u64
    decreases rows.len(),
{
    if rows.len() == 0 {
        0
    } else {
        rows_key(rows.drop_last()).wrapping_mul(1099511628211).wrapping_add(rows.last() as u64)
    }
}

/// A number that signatures with the same values in the rows from one to another share.
fn key_of_rows(sig: &[u32; NUM_HASHES], from: usize, to: usize) -> (r: u64)
    requires
        from <= to <= NUM_HASHES,
    ensures
        r == rows_key(sig@.subrange(from as int, to as int)),
{
    let mut key: u64 = 0;
    let mut i: usize = from;
    while i < to
        invariant
            from <= i <= to <= NUM_HASHES,
            key == rows_key(sig@.subrange(from as int, i as int)),
        decreases to - i,
    {
        assert(sig@.subrange(from as int, i + 1).drop_last() =~= sig@.subrange(
            from as int,
            i as int,
        ));
        key = key.wrapping_mul(1099511628211).wrapping_add(sig[i] as u64);
        i += 1;
    }
    key
}

/// Whether all signatures that are told to be in one set are in one group.
spec fn sound(sets: UnionFind, sigs: Seq<Seq<u32>>, min_rows: nat) -> bool {
    forall|i: int, j: int|
        0 <= i < sigs.len() && 0 <= j < sigs.len() && sets.least_of(i) == sets.least_of(j)
            ==> #[trigger] connected(sigs, min_rows, i, j)
}

/// Whether two signatures are alike that agree in the given band.
spec fn alike_in(sigs: Seq<Seq<u32>>, min_rows: nat, i: int, j: int, band: int) -> bool {
    share_band(sigs[i], sigs[j], band, band_count(min_rows)) && alike(sigs[i], sigs[j], min_rows)
}

/// Whether signatures below `below` that are alike by a band are told to be in one set.
spec fn complete_in(
    sets: UnionFind,
    sigs: Seq<Seq<u32>>,
    min_rows: nat,
    band: int,
    below: int,
) -> bool {
    forall|i: int, j: int|
        0 <= i < j < below && #[trigger] alike_in(sigs, min_rows, i, j, band) ==> sets.least_of(i)
            == sets.least_of(j)
}

/// Joins two signatures that are alike.
fn join(
    sets: &mut UnionFind,
    i: usize,
    j: usize,
    Ghost(sigs): Ghost<Seq<Seq<u32>>>,
    Ghost(min_rows): Ghost<nat>,
)
    requires
        old(sets).wf(),
        old(sets).size() == sigs.len(),
        i < sigs.len(),
        j < sigs.len(),
        alike(sigs[i as int], sigs[j as int], min_rows),
        sound(*old(sets), sigs, min_rows),
    ensures
        final(sets).wf(),
        final(sets).size() == sigs.len(),
        sound(*final(sets), sigs, min_rows),
        final(sets).least_of(i as int) == final(sets).least_of(j as int),
        forall|k: int, l: int|
            0 <= k < sigs.len() && 0 <= l < sigs.len() && old(sets).least_of(k)
                == old(sets).least_of(l) ==> #[trigger] final(sets).least_of(k)
                == #[trigger] final(sets).least_of(l),
{
    let ghost before = *sets;
    sets.union(i, j);
    proof {
        let a = i as int;
        let b = j as int;
        assert(is_way(sigs, min_rows, seq![a, b]));
        assert(connected(sigs, min_rows, a, b)) by {
            assert(seq![a, b].last() == b);
        }
        law_connected_symmetric(sigs, min_rows, a, b);
        assert(sets.least_of(a) == joined_root(
            before.least_of(a),
            before.least_of(a),
            before.least_of(b),
        ));
        assert(sets.least_of(b) == joined_root(
            before.least_of(b),
            before.least_of(a),
            before.least_of(b),
        ));
        assert forall|k: int, l: int|
            0 <= k < sigs.len() && 0 <= l < sigs.len() && sets.least_of(k) == sets.least_of(
                l,
            ) implies #[trigger] connected(sigs, min_rows, k, l) by {
            assert(sets.least_of(k) == joined_root(
                before.least_of(k),
                before.least_of(a),
                before.least_of(b),
            ));
            assert(sets.least_of(l) == joined_root(
                before.least_of(l),
                before.least_of(a),
                before.least_of(b),
            ));
            if before.least_of(k) == before.least_of(l) {
                assert(connected(sigs, min_rows, k, l));
            } else if before.least_of(k) == before.least_of(a) && before.least_of(l)
                == before.least_of(b) {
                assert(connected(sigs, min_rows, k, a));
                assert(connected(sigs, min_rows, b, l));
                law_connected_transitive(sigs, min_rows, k, a, b);
                law_connected_transitive(sigs, min_rows, k, b, l);
            } else {
                assert(before.least_of(k) == before.least_of(b) && before.least_of(l)
                    == before.least_of(a));
                assert(connected(sigs, min_rows, k, b));
                assert(connected(sigs, min_rows, a, l));
                law_connected_transitive(sigs, min_rows, k, b, a);
                law_connected_transitive(sigs, min_rows, k, a, l);
            }
        }
    }
}

/// Whether the buckets hold the signatures below `below`, each under the key of its band.
spec fn filed(
    buckets: Map<u64, Vec<usize>>,
    sigs: Seq<Seq<u32>>,
    min_rows: nat,
    band: int,
    below: int,
) -> bool {
    &&& forall|key: u64, k: int|
        #![trigger buckets[key]@[k]]
        buckets.dom().contains(key) && 0 <= k < buckets[key]@.len() ==> buckets[key]@[k] < below
    &&& forall|i: int|
        #![trigger sigs[i]]
        0 <= i < below ==> {
            let key = rows_key(band_rows(sigs[i], band, band_count(min_rows)));
            &&& buckets.dom().contains(key)
            &&& exists|k: int| 0 <= k < buckets[key]@.len() && #[trigger] buckets[key]@[k] == i
        }
}

/// Joins a signature with those among earlier candidates that it is alike to.
fn join_candidates(
    sets: &mut UnionFind,
    sigs: &Vec<[u32; NUM_HASHES]>,
    min_rows: usize,
    at: usize,
    candidates: &Vec<usize>,
    Ghost(others): Ghost<spec_fn(int, int) -> bool>,
)
    requires
        old(sets).wf(),
        old(sets).size() == sigs.len(),
        at < sigs.len(),
        forall|k: int| 0 <= k < candidates.len() ==> #[trigger] candidates@[k] < at,
        sound(*old(sets), sig_views(sigs@), min_rows as nat),
        forall|i: int, j: int| #[trigger]
            others(i, j) ==> 0 <= i < sigs.len() && 0 <= j < sigs.len() && old(sets).least_of(i)
                == old(sets).least_of(j),
    ensures
        final(sets).wf(),
        final(sets).size() == sigs.len(),
        sound(*final(sets), sig_views(sigs@), min_rows as nat),
        forall|i: int, j: int| #[trigger]
            others(i, j) ==> final(sets).least_of(i) == final(sets).least_of(j),
        forall|k: int|
            0 <= k < candidates.len() && alike(
                sig_views(sigs@)[#[trigger] candidates@[k] as int],
                sig_views(sigs@)[at as int],
                min_rows as nat,
            ) ==> final(sets).least_of(candidates@[k] as int) == final(sets).least_of(at as int),
{
    let ghost views = sig_views(sigs@);
    let mut k: usize = 0;
    while k < candidates.len()
        invariant
            k <= candidates.len(),
            views == sig_views(sigs@),
            at < sigs.len(),
                sets.wf(),
            sets.size() == sigs.len(),
            sound(*sets, views, min_rows as nat),
            forall|i: int| 0 <= i < candidates.len() ==> #[trigger] candidates@[i] < at,
            forall|i: int, j: int| #[trigger]
                others(i, j) ==> 0 <= i < sigs.len() && 0 <= j < sigs.len() && sets.least_of(i)
                    == sets.least_of(j),
            forall|i: int|
                0 <= i < k && alike(
                    views[#[trigger] candidates@[i] as int],
                    views[at as int],
                    min_rows as nat,
                ) ==> sets.least_of(candidates@[i] as int) == sets.least_of(at as int),
        decreases candidates.len() - k,
    {
        let other: usize = candidates[k];
        assert(views[other as int] == sigs@[other as int]@);
        assert(views[at as int] == sigs@[at as int]@);
        if count_agreement(&sigs[other], &sigs[at]) >= min_rows {
            join(sets, other, at, Ghost(views), Ghost(min_rows as nat));
        }
        k += 1;
    }
}

/// Joins all signatures that are alike by a band.
fn join_band(
    sets: &mut UnionFind,
    sigs: &Vec<[u32; NUM_HASHES]>,
    min_rows: usize,
    band: usize,
)
    requires
        old(sets).wf(),
        old(sets).size() == sigs.len(),
        min_rows <= NUM_HASHES,
        band < band_count(min_rows as nat),
        sound(*old(sets), sig_views(sigs@), min_rows as nat),
        forall|earlier: int|
            0 <= earlier < band ==> #[trigger] complete_in(
                *old(sets),
                sig_views(sigs@),
                min_rows as nat,
                earlier,
                sigs.len() as int,
            ),
    ensures
        final(sets).wf(),
        final(sets).size() == sigs.len(),
        sound(*final(sets), sig_views(sigs@), min_rows as nat),
        forall|earlier: int|
            0 <= earlier <= band ==> #[trigger] complete_in(
                *final(sets),
                sig_views(sigs@),
                min_rows as nat,
                earlier,
                sigs.len() as int,
            ),
{
    let ghost views = sig_views(sigs@);
    let ghost min = min_rows as nat;
    let ghost all = sigs.len() as int;
    let bands: usize = NUM_HASHES + 1 - min_rows;
    proof {
        lemma_band_start(band as int, bands as nat);
    }
    let from: usize = band * NUM_HASHES / bands;
    let to: usize = (band + 1) * NUM_HASHES / bands;
    let mut buckets: HashMap<u64, Vec<usize>> = HashMap::new();
    let mut at: usize = 0;
    while at < sigs.len()
        invariant
            at <= sigs.len(),
            views == sig_views(sigs@),
            min == min_rows,
            all == sigs.len(),
            min_rows <= NUM_HASHES,
            bands == band_count(min),
            band < bands,
            from == band_start(band as int, bands as nat),
            to == band_start(band + 1, bands as nat),
            from <= to <= NUM_HASHES,
            sets.wf(),
            sets.size() == sigs.len(),
            sound(*sets, views, min),
            forall|earlier: int|
                0 <= earlier < band ==> #[trigger] complete_in(*sets, views, min, earlier, all),
            complete_in(*sets, views, min, band as int, at as int),
            filed(buckets@, views, min, band as int, at as int),
        decreases sigs.len() - at,
    {
        let key: u64 = key_of_rows(&sigs[at], from, to);
        assert(views[at as int] == sigs@[at as int]@);
        let ghost filed_before = buckets@;
        let mut bucket: Vec<usize> = match buckets.remove(&key) {
            Some(bucket) => bucket,
            None => Vec::new(),
        };
        let ghost known = bucket@;
        let ghost others = |i: int, j: int|
            0 <= i < j < all && (j < at && alike_in(views, min, i, j, band as int) || exists|
                earlier: int,
            |
                0 <= earlier < band && #[trigger] alike_in(views, min, i, j, earlier));
        proof {
            assert forall|i: int, j: int| #[trigger] others(i, j) implies 0 <= i < sigs.len() && 0
                <= j < sigs.len() && sets.least_of(i) == sets.least_of(j) by {
                if j < at && alike_in(views, min, i, j, band as int) {
                } else {
                    let earlier = choose|earlier: int|
                        0 <= earlier < band && #[trigger] alike_in(views, min, i, j, earlier);
                    assert(complete_in(*sets, views, min, earlier, all));
                }
            }
            assert forall|k: int| 0 <= k < bucket.len() implies #[trigger] bucket@[k] < at by {
                assert(filed_before[key]@[k] < at);
            }
        }
        join_candidates(sets, sigs, min_rows, at, &bucket, Ghost(others));
        proof {
            assert forall|i: int, j: int|
                0 <= i < j < at + 1 && #[trigger] alike_in(views, min, i, j, band as int) implies
                sets.least_of(i) == sets.least_of(j) by {
                if j < at {
                    assert(others(i, j));
                } else {
                    let same = rows_key(band_rows(views[i], band as int, bands as nat));
                    assert(same == key);
                    let k = choose|k: int|
                        0 <= k < filed_before[same]@.len() && #[trigger] filed_before[same]@[k]
                            == i;
                    assert(bucket@[k] == i);
                }
            }
            assert forall|earlier: int| 0 <= earlier < band implies #[trigger] complete_in(
                *sets,
                views,
                min,
                earlier,
                all,
            ) by {
                assert forall|i: int, j: int|
                    0 <= i < j < all && #[trigger] alike_in(views, min, i, j, earlier) implies
                    sets.least_of(i) == sets.least_of(j) by {
                    assert(others(i, j));
                }
            }
        }
        bucket.push(at);
        let ghost grown = bucket@;
        buckets.insert(key, bucket);
        proof {
            let after = buckets@;
            assert(grown == known.push(at));
            assert forall|other: u64, k: int|
                #![trigger after[other]@[k]]
                after.dom().contains(other) && 0 <= k < after[other]@.len() implies after[other]@[k]
                < at + 1 by {
                if other == key {
                    if k < known.len() {
                        assert(after[other]@[k] == known[k]);
                    }
                } else {
                    assert(after[other]@ == filed_before[other]@);
                    assert(filed_before[other]@[k] < at);
                }
            }
            assert forall|i: int|
                #![trigger views[i]]
                0 <= i < at + 1 implies ({
                let own = rows_key(band_rows(views[i], band as int, bands as nat));
                &&& after.dom().contains(own)
                &&& exists|k: int| 0 <= k < after[own]@.len() && #[trigger] after[own]@[k] == i
            }) by {
                let own = rows_key(band_rows(views[i], band as int, bands as nat));
                if i == at {
                    assert(after[own]@[grown.len() - 1] == i);
                } else {
                    let k = choose|k: int|
                        0 <= k < filed_before[own]@.len() && #[trigger] filed_before[own]@[k] == i;
                    if own == key {
                        assert(known[k] == i);
                        assert(after[own]@[k] == i);
                    } else {
                        assert(after[own]@[k] == i);
                    }
                }
            }
        }
        at += 1;
    }
}

/// For each signature whether none before it is in its group.
pub fn group_firsts(sigs: &Vec<[u32; NUM_HASHES]>, min_rows: usize) -> (r: Vec<bool>)
    ensures
        r@ == firsts(sig_views(sigs@), min_rows as nat),
{
    let ghost views = sig_views(sigs@);
    let ghost min = min_rows as nat;
    let ghost all = sigs.len() as int;
    let mut sets = UnionFind::new(sigs.len());
    proof {
        assert forall|i: int, j: int|
            0 <= i < views.len() && 0 <= j < views.len() && sets.least_of(i) == sets.least_of(
                j,
            ) implies #[trigger] connected(views, min, i, j) by {
            law_connected_reflexive(views, min, i);
        }
    }
    let bands: usize = if min_rows <= NUM_HASHES {
        NUM_HASHES + 1 - min_rows
    } else {
        0
    };
    let mut band: usize = 0;
    while band < bands
        invariant
            band <= bands,
            bands == band_count(min),
            views == sig_views(sigs@),
            min == min_rows,
            all == sigs.len(),
            sets.wf(),
            sets.size() == sigs.len(),
            sound(sets, views, min),
            forall|earlier: int|
                0 <= earlier < band ==> #[trigger] complete_in(sets, views, min, earlier, all),
        decreases bands - band,
    {
        join_band(&mut sets, sigs, min_rows, band);
        band += 1;
    }
    proof {
        assert forall|i: int, j: int| #[trigger]
            connected(views, min, i, j) implies sets.least_of(i) == sets.least_of(j) by {
            lemma_connected_joined(sets, views, min, i, j);
        }
    }
    let ghost done = sets;
    let mut marks: Vec<bool> = Vec::new();
    let mut k: usize = 0;
    while k < sigs.len()
        invariant
            k <= sigs.len(),
            marks.len() == k,
            views == sig_views(sigs@),
            min == min_rows,
            done.wf(),
            done.size() == sigs.len(),
            sound(done, views, min),
            forall|i: int, j: int| #[trigger]
                connected(views, min, i, j) ==> done.least_of(i) == done.least_of(j),
            sets.wf(),
            sets.size() == sigs.len(),
            forall|i: int|
                0 <= i < sigs.len() ==> #[trigger] sets.least_of(i) == done.least_of(i),
            forall|i: int| 0 <= i < k ==> #[trigger] marks@[i] == firsts(views, min)[i],
        decreases sigs.len() - k,
    {
        let ghost earlier = sets;
        let top: usize = sets.find(k);
        proof {
            let at = k as int;
            assert(earlier.least_of(at) == done.least_of(at));
            done.law_least_member(at);
            assert forall|i: int| 0 <= i < sigs.len() implies #[trigger] sets.least_of(i)
                == done.least_of(i) by {
                assert(earlier.least_of(i) == done.least_of(i));
            }
            if top == k {
                assert forall|j: int| 0 <= j < at implies !#[trigger] connected(
                    views,
                    min,
                    at,
                    j,
                ) by {
                    done.law_least_member(j);
                }
            } else {
                assert(done.least_of(top as int) == done.least_of(at));
                assert(connected(views, min, at, top as int));
            }
            assert((top == k) == firsts(views, min)[at]);
        }
        marks.push(top == k);
        k += 1;
    }
    assert(marks@ =~= firsts(views, min));
    marks
}

/// Signatures of one group are in one set, where those are that are alike by a band.
proof fn lemma_connected_joined(
    sets: UnionFind,
    sigs: Seq<Seq<u32>>,
    min_rows: nat,
    i: int,
    j: int,
)
    requires
        connected(sigs, min_rows, i, j),
        forall|k: int| 0 <= k < sigs.len() ==> (#[trigger] sigs[k]).len() == NUM_HASHES,
        forall|band: int|
            0 <= band < band_count(min_rows) ==> #[trigger] complete_in(
                sets,
                sigs,
                min_rows,
                band,
                sigs.len() as int,
            ),
    ensures
        sets.least_of(i) == sets.least_of(j),
{
    let way = choose|way: Seq<int>| #[trigger]
        is_way(sigs, min_rows, way) && way[0] == i && way.last() == j;
    lemma_way_joined(sets, sigs, min_rows, way, way.len() - 1);
}

/// The signatures of a way are in one set.
proof fn lemma_way_joined(
    sets: UnionFind,
    sigs: Seq<Seq<u32>>,
    min_rows: nat,
    way: Seq<int>,
    n: int,
)
    requires
        is_way(sigs, min_rows, way),
        0 <= n < way.len(),
        forall|k: int| 0 <= k < sigs.len() ==> (#[trigger] sigs[k]).len() == NUM_HASHES,
        forall|band: int|
            0 <= band < band_count(min_rows) ==> #[trigger] complete_in(
                sets,
                sigs,
                min_rows,
                band,
                sigs.len() as int,
            ),
    ensures
        sets.least_of(way[0]) == sets.least_of(way[n]),
    decreases n,
{
    if n > 0 {
        lemma_way_joined(sets, sigs, min_rows, way, n - 1);
        let x = way[n - 1];
        let y = way[n];
        assert(alike(sigs[x], sigs[y], min_rows));
        let bands = band_count(min_rows);
        lemma_alike_share_band(sigs[x], sigs[y], min_rows);
        let band = choose|band: int|
            0 <= band < bands && #[trigger] share_band(sigs[x], sigs[y], band, bands);
        assert(complete_in(sets, sigs, min_rows, band, sigs.len() as int));
        if x < y {
            assert(alike_in(sigs, min_rows, x, y, band));
        } else if y < x {
            lemma_alike_symmetric(sigs[x], sigs[y], min_rows);
            assert(share_band(sigs[y], sigs[x], band, bands));
            assert(alike_in(sigs, min_rows, y, x, band));
        }
    }
}

/// Agreement counts each row by itself: one more row adds one where both signatures have the same
/// number there, and nothing where they do not. All rows count for likeness.
pub proof fn law_agreement_counts_equal_rows(x: Seq<u32>, y: Seq<u32>, rows: nat, min_rows: nat)
    ensures
        agreement(x, y, 0) == 0,
        x[rows as int] == y[rows as int] ==> agreement(x, y, rows + 1) == agreement(x, y, rows) + 1,
        x[rows as int] != y[rows as int] ==> agreement(x, y, rows + 1) == agreement(x, y, rows),
        alike(x, y, min_rows) <==> agreement(x, y, 128) >= min_rows,
{
}

/// Two signatures are in one group exactly where a way leads from one to the other on which each
/// agrees with the next in enough of its rows.
pub proof fn law_groups_are_reached_step_by_step(
    sigs: Seq<Seq<u32>>,
    min_rows: nat,
    i: int,
    j: int,
)
    ensures
        connected(sigs, min_rows, i, j) <==> exists|way: Seq<int>|
            {
                &&& #[trigger] way.len() > 0
                &&& way[0] == i
                &&& way.last() == j
                &&& forall|k: int| 0 <= k < way.len() ==> 0 <= #[trigger] way[k] < sigs.len()
                &&& forall|k: int|
                    0 < k < way.len() ==> agreement(sigs[way[k - 1]], sigs[#[trigger] way[k]], 128)
                        >= min_rows
            },
{
    if connected(sigs, min_rows, i, j) {
        let way = choose|way: Seq<int>| #[trigger]
            is_way(sigs, min_rows, way) && way[0] == i && way.last() == j;
        assert forall|k: int| 0 < k < way.len() implies agreement(
            sigs[way[k - 1]],
            sigs[#[trigger] way[k]],
            128,
        ) >= min_rows by {
            assert(alike(sigs[way[k - 1]], sigs[way[k]], min_rows));
        }
        assert(way.len() > 0);
    }
    if exists|way: Seq<int>|
        {
            &&& #[trigger] way.len() > 0
            &&& way[0] == i
            &&& way.last() == j
            &&& forall|k: int| 0 <= k < way.len() ==> 0 <= #[trigger] way[k] < sigs.len()
            &&& forall|k: int|
                0 < k < way.len() ==> agreement(sigs[way[k - 1]], sigs[#[trigger] way[k]], 128)
                    >= min_rows
        } {
        let way = choose|way: Seq<int>|
            {
                &&& #[trigger] way.len() > 0
                &&& way[0] == i
                &&& way.last() == j
                &&& forall|k: int| 0 <= k < way.len() ==> 0 <= #[trigger] way[k] < sigs.len()
                &&& forall|k: int|
                    0 < k < way.len() ==> agreement(sigs[way[k - 1]], sigs[#[trigger] way[k]], 128)
                        >= min_rows
            };
        assert(is_way(sigs, min_rows, way));
    }
}

/// A signature is marked exactly where no earlier one is in its group.
pub proof fn law_firsts_have_none_before(sigs: Seq<Seq<u32>>, min_rows: nat, k: int)
    requires
        0 <= k < sigs.len(),
    ensures
        firsts(sigs, min_rows).len() == sigs.len(),
        firsts(sigs, min_rows)[k] <==> forall|j: int|
            0 <= j < k ==> !#[trigger] connected(sigs, min_rows, k, j),
{
}

/// Signatures are viewed one by one, in order.
pub proof fn law_signatures_are_viewed_in_order(sigs: Seq<[u32; NUM_HASHES]>)
    ensures
        sig_views(sigs).len() == sigs.len(),
        forall|i: int| 0 <= i < sigs.len() ==> #[trigger] sig_views(sigs)[i] == sigs[i]@,
{
}

} // verus!
