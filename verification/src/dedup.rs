//! Removing duplicates.

use std::collections::HashSet;

use vstd::prelude::*;

use crate::cluster::{
    agreement, alike, connected, firsts, group_firsts, is_way, law_connected_symmetric,
    law_connected_transitive, sig_views,
};
use crate::detect::{detect, format_of_line};
use crate::error::{Error, ErrorView};
use crate::minhash::{
    coefficients, compute_signature, factors, offsets, signature_of, NUM_HASHES,
};
use crate::record::{reading_text, Line, LineView};
use crate::select::{
    count_marks, law_selection_keeps_order, lemma_all_selected, lemma_first_mark,
    lemma_first_mark_is, lemma_selected_len, lemma_selected_step, line_views, places, run_end,
    selected,
};
use crate::text::texts;

verus! {

/// The text by which a line is compared with others: nothing of a line of no known format, an
/// error of one that is no record of its format.
pub open spec fn compared_text(line: LineView) -> Result<Option<Seq<char>>, ErrorView> {
    match format_of_line(line.text) {
        Err(_) => Ok(None),
        Ok(format) => match reading_text(line.reading, format) {
            Ok(text) => Ok(Some(text)),
            Err(e) => Err(e),
        },
    }
}

/// For each line whether it is no record of its format.
pub open spec fn unfit(lines: Seq<LineView>) -> Seq<bool> {
    Seq::new(lines.len(), |i: int| compared_text(lines[i]) is Err)
}

/// The lines that are compared, in order.
pub open spec fn entries(lines: Seq<LineView>) -> Seq<LineView>
    decreases lines.len(),
{
    if lines.len() == 0 {
        Seq::empty()
    } else {
        match compared_text(lines.last()) {
            Ok(Some(_)) => entries(lines.drop_last()).push(lines.last()),
            _ => entries(lines.drop_last()),
        }
    }
}

/// The texts of lines that are compared.
pub open spec fn entry_texts(items: Seq<LineView>) -> Seq<Seq<char>> {
    items.map_values(|line: LineView| compared_text(line)->Ok_0->0)
}

/// The lines that are compared up to the end of a run.
pub open spec fn run_entries(lines: Seq<LineView>, skip_errors: bool) -> Seq<LineView> {
    entries(lines.take(run_end(unfit(lines), skip_errors)))
}

/// Whether a run over lines ends as it should: well behind the last line, and else with the
/// complaint of the line it ends at.
pub open spec fn run_ended(lines: Seq<LineView>, skip_errors: bool, r: Result<u64, Error>) -> bool {
    let end = run_end(unfit(lines), skip_errors);
    &&& 0 <= end <= lines.len()
    &&& r is Ok <==> end == lines.len()
    &&& r matches Err(e) ==> compared_text(lines[end]) == Err::<Option<Seq<char>>, ErrorView>(e@)
}

/// The text by which a line is compared with others; nothing of a line that is passed over.
pub fn comparison_text(line: &Line, skip_errors: bool) -> (r: Result<Option<String>, Error>)
    ensures
        match compared_text(line@) {
            Ok(Some(text)) => r matches Ok(Some(s)) && s@ == text,
            Ok(None) => r matches Ok(None),
            Err(e) => if skip_errors {
                r matches Ok(None)
            } else {
                r is Err && r->Err_0@ == e
            },
        },
{
    match detect(line.text.as_str()) {
        Ok(format) => match line.reading.canonical_text(format) {
            Ok(text) => Ok(Some(text)),
            Err(e) => if skip_errors {
                Ok(None)
            } else {
                Err(e)
            },
        },
        Err(_) => Ok(None),
    }
}

/// The 128 bit XXH3 hash of bytes.
pub uninterp spec fn xxh3_of(bytes: Seq<u8>) -> u128;

/// `xxhash_rust::xxh3::xxh3_128`: the hash depends on the bytes alone.
pub assume_specification[ xxhash_rust::xxh3::xxh3_128 ](input: &[u8]) -> (r: u128)
    ensures
        r == xxh3_of(input@),
;

/// The hash of a text.
pub open spec fn text_key(text: Seq<char>) -> u128 {
    xxh3_of(vstd::utf8::encode_utf8(text))
}

/// For each text whether its hash is not that of an earlier one.
pub open spec fn fresh(items: Seq<Seq<char>>) -> Seq<bool> {
    Seq::new(
        items.len(),
        |i: int| forall|j: int| 0 <= j < i ==> text_key(#[trigger] items[j]) != text_key(items[i]),
    )
}

/// The hashes of the texts so far.
pub struct SeenTexts {
    keys: HashSet<u128>,
}

impl SeenTexts {
    /// The hashes.
    pub closed spec fn keys(&self) -> Set<u128> {
        self.keys@
    }

    /// No text so far.
    pub fn new() -> (r: SeenTexts)
        ensures
            r.keys() == Set::<u128>::empty(),
    {
        SeenTexts { keys: HashSet::new() }
    }

    /// Takes a hash in; says whether it is new.
    pub fn insert_key(&mut self, key: u128) -> (r: bool)
        ensures
            r == !old(self).keys().contains(key),
            final(self).keys() == old(self).keys().insert(key),
    {
        self.keys.insert(key)
    }

    /// Takes a text in; says whether its hash is new.
    pub fn insert(&mut self, text: &str) -> (r: bool)
        ensures
            r == !old(self).keys().contains(text_key(text@)),
            final(self).keys() == old(self).keys().insert(text_key(text@)),
    {
        self.insert_key(xxhash_rust::xxh3::xxh3_128(text.as_bytes()))
    }
}

/// One more line, compared or not.
proof fn lemma_entries_step(lines: Seq<LineView>, i: int)
    requires
        0 <= i < lines.len(),
    ensures
        entries(lines.take(i + 1)) == match compared_text(lines[i]) {
            Ok(Some(_)) => entries(lines.take(i)).push(lines[i]),
            _ => entries(lines.take(i)),
        },
{
    assert(lines.take(i + 1).drop_last() =~= lines.take(i));
}

/// One more text at the end leaves the marks of the others as they are.
proof fn lemma_fresh_step(items: Seq<Seq<char>>, text: Seq<char>)
    ensures
        fresh(items.push(text)).drop_last() == fresh(items),
{
    let more = items.push(text);
    assert forall|i: int| 0 <= i < items.len() implies fresh(more)[i] == #[trigger] fresh(
        items,
    )[i] by {
        assert(forall|j: int| 0 <= j < items.len() ==> more[j] == #[trigger] items[j]);
        assert(forall|j: int| 0 <= j < items.len() ==> #[trigger] more[j] == items[j]);
    }
    assert(fresh(more).drop_last() =~= fresh(items));
}

/// The texts of lines.
pub open spec fn texts_of(items: Seq<LineView>) -> Seq<Seq<char>> {
    items.map_values(|line: LineView| line.text)
}

/// Writes the lines whose canonical text has a hash that no earlier one has; gives their number.
/// Lines of no known format are dropped. A line that is no record of its format ends the run,
/// unless such lines are skipped.
pub fn exact_dedup(lines: &Vec<Line>, output: &mut Vec<String>, skip_errors: bool) -> (r: Result<
    u64,
    Error,
>)
    ensures
        run_ended(line_views(lines@), skip_errors, r),
        ({
            let items = run_entries(line_views(lines@), skip_errors);
            let marks = fresh(entry_texts(items));
            &&& texts(final(output)@) == texts(old(output)@) + selected(texts_of(items), marks)
            &&& r matches Ok(kept) ==> kept == count_marks(marks)
        }),
{
    let ghost views = line_views(lines@);
    let ghost failures = unfit(views);
    let ghost before = texts(output@);
    let mut seen = SeenTexts::new();
    let mut kept: u64 = 0;
    let mut i: usize = 0;
    proof {
        lemma_first_mark(failures);
        assert(entries(views.take(0)) =~= Seq::empty());
        assert(entry_texts(Seq::empty()) =~= Seq::empty());
        assert(texts_of(Seq::empty()) =~= Seq::empty());
        assert(texts(output@) =~= before + selected(
            texts_of(entries(views.take(0))),
            fresh(entry_texts(entries(views.take(0)))),
        ));
    }
    while i < lines.len()
        invariant
            i <= lines.len(),
            views == line_views(lines@),
            failures == unfit(views),
            before == texts(old(output)@),
            kept <= i,
            kept == count_marks(fresh(entry_texts(entries(views.take(i as int))))),
            texts(output@) == before + selected(
                texts_of(entries(views.take(i as int))),
                fresh(entry_texts(entries(views.take(i as int)))),
            ),
            forall|key: u128| #[trigger]
                seen.keys().contains(key) <==> exists|j: int|
                    0 <= j < entries(views.take(i as int)).len() && key == text_key(
                        #[trigger] entry_texts(entries(views.take(i as int)))[j],
                    ),
            !skip_errors ==> forall|j: int| 0 <= j < i ==> !#[trigger] failures[j],
        decreases lines.len() - i,
    {
        let line = &lines[i];
        let ghost items = entries(views.take(i as int));
        let ghost old_keys = seen.keys();
        proof {
            assert(views[i as int] == line@);
            lemma_entries_step(views, i as int);
        }
        match comparison_text(line, skip_errors) {
            Ok(Some(text)) => {
                let ghost more = items.push(line@);
                let ghost old_texts = entry_texts(items);
                let ghost new_texts = entry_texts(more);
                proof {
                    assert(entries(views.take(i + 1)) == more);
                    assert(new_texts =~= old_texts.push(text@));
                    lemma_fresh_step(old_texts, text@);
                    assert(texts_of(more) =~= texts_of(items).push(line@.text));
                    assert(texts_of(more).drop_last() =~= texts_of(items));
                }
                let new = seen.insert(text.as_str());
                proof {
                    let marks = fresh(new_texts);
                    let last = new_texts.len() - 1;
                    if new {
                        assert forall|j: int| 0 <= j < last implies text_key(
                            #[trigger] new_texts[j],
                        ) != text_key(new_texts[last]) by {
                            assert(new_texts[j] == old_texts[j]);
                            assert(old_keys.contains(text_key(old_texts[j])));
                        }
                    } else {
                        let j = choose|j: int|
                            0 <= j < items.len() && text_key(text@) == text_key(
                                #[trigger] old_texts[j],
                            );
                        assert(new_texts[j] == old_texts[j]);
                    }
                    assert(marks.last() == new);
                    assert forall|key: u128| #[trigger]
                        seen.keys().contains(key) <==> exists|j: int|
                            0 <= j < more.len() && key == text_key(#[trigger] new_texts[j]) by {
                        if seen.keys().contains(key) {
                            if old_keys.contains(key) {
                                let j = choose|j: int|
                                    0 <= j < items.len() && key == text_key(
                                        #[trigger] old_texts[j],
                                    );
                                assert(new_texts[j] == old_texts[j]);
                            } else {
                                assert(key == text_key(new_texts[last]));
                            }
                        }
                        if exists|j: int|
                            0 <= j < more.len() && key == text_key(#[trigger] new_texts[j]) {
                            let j = choose|j: int|
                                0 <= j < more.len() && key == text_key(#[trigger] new_texts[j]);
                            if j < last {
                                assert(old_texts[j] == new_texts[j]);
                                assert(old_keys.contains(key));
                            }
                        }
                    }
                }
                if new {
                    kept = kept + 1;
                    let ghost earlier = output@;
                    output.push(line.text.clone());
                    assert(texts(output@) =~= texts(earlier).push(line@.text));
                    assert(texts(output@) =~= before + selected(texts_of(more), fresh(new_texts)));
                }
            },
            Ok(None) => {},
            Err(e) => {
                proof {
                    assert(failures[i as int]);
                    lemma_first_mark_is(failures, i as int);
                }
                return Err(e);
            },
        }
        i += 1;
    }
    proof {
        if !skip_errors {
            lemma_first_mark_is(failures, failures.len() as int);
        }
        assert(views.take(i as int) =~= views);
    }
    Ok(kept)
}

/// When two texts count as near duplicates.
#[derive(Debug, Clone, Copy, PartialEq, Eq, Structural)]
pub struct MinHashDedupOptions {
    /// In how many of the rows of their signatures they have to agree.
    pub threshold: usize,
    /// From which the hash functions are drawn.
    pub seed: u64,
}

/// The signatures of texts.
pub open spec fn signatures_of(items: Seq<Seq<char>>, seed: u64) -> Seq<Seq<u32>> {
    items.map_values(|text: Seq<char>| signature_of(text, factors(seed), offsets(seed)))
}

/// The lines so far, with the signatures of their texts.
pub struct MinHasher {
    a: Vec<u64>,
    b: Vec<u64>,
    signatures: Vec<[u32; NUM_HASHES]>,
    lines: Vec<String>,
}

impl MinHasher {
    /// Whether the given lines are those so far.
    pub closed spec fn holds(&self, items: Seq<LineView>, seed: u64) -> bool {
        &&& self.a@ == factors(seed)
        &&& self.b@ == offsets(seed)
        &&& texts(self.lines@) == texts_of(items)
        &&& sig_views(self.signatures@) == signatures_of(entry_texts(items), seed)
    }

    /// Whether there is a hash function for each row.
    pub closed spec fn wf(&self) -> bool {
        &&& self.a@.len() == NUM_HASHES
        &&& self.b@.len() == NUM_HASHES
        &&& self.lines@.len() == self.signatures@.len()
    }

    /// No lines so far.
    pub fn new(seed: u64) -> (r: MinHasher)
        ensures
            r.wf(),
            r.holds(Seq::empty(), seed),
    {
        let (a, b) = coefficients(seed);
        let r = MinHasher { a, b, signatures: Vec::new(), lines: Vec::new() };
        proof {
            let none = Seq::<LineView>::empty();
            assert(texts(r.lines@) =~= texts_of(none));
            assert(sig_views(r.signatures@) =~= signatures_of(entry_texts(none), seed));
        }
        r
    }

    /// Takes a line in. One of no known format is passed over.
    pub fn add_line(&mut self, line: &Line, skip_errors: bool) -> (r: Result<(), Error>)
        requires
            old(self).wf(),
        ensures
            final(self).wf(),
            match compared_text(line@) {
                Ok(Some(_)) => r is Ok && forall|items: Seq<LineView>, seed: u64| #[trigger]
                    old(self).holds(items, seed) ==> final(self).holds(items.push(line@), seed),
                Ok(None) => r is Ok && *final(self) == *old(self),
                Err(e) => *final(self) == *old(self) && if skip_errors {
                    r is Ok
                } else {
                    r is Err && r->Err_0@ == e
                },
            },
    {
        let text = match comparison_text(line, skip_errors) {
            Ok(Some(text)) => text,
            Ok(None) => return Ok(()),
            Err(e) => return Err(e),
        };
        let ghost before = *self;
        let signature = compute_signature(text.as_str(), self.a.as_slice(), self.b.as_slice());
        self.signatures.push(signature);
        self.lines.push(line.text.clone());
        proof {
            assert forall|items: Seq<LineView>, seed: u64| #[trigger]
                before.holds(items, seed) implies self.holds(items.push(line@), seed) by {
                let more = items.push(line@);
                assert(texts(self.lines@) =~= texts(before.lines@).push(line@.text));
                assert(texts_of(more) =~= texts_of(items).push(line@.text));
                assert(entry_texts(more) =~= entry_texts(items).push(text@));
                assert(sig_views(self.signatures@) =~= sig_views(before.signatures@).push(
                    signature@,
                ));
                assert(signatures_of(entry_texts(more), seed) =~= signatures_of(
                    entry_texts(items),
                    seed,
                ).push(signature@));
            }
        }
        Ok(())
    }

    /// The lines of which none before is in their group of near duplicates.
    pub fn finish(self, threshold: usize) -> (r: Vec<String>)
        requires
            self.wf(),
        ensures
            forall|items: Seq<LineView>, seed: u64| #[trigger]
                self.holds(items, seed) ==> texts(r@) == selected(
                    texts_of(items),
                    firsts(signatures_of(entry_texts(items), seed), threshold as nat),
                ),
    {
        let marks = group_firsts(&self.signatures, threshold);
        let ghost all = texts(self.lines@);
        let mut out: Vec<String> = Vec::new();
        let mut i: usize = 0;
        assert(texts(out@) =~= selected(all.take(0), marks@.take(0)));
        while i < self.lines.len()
            invariant
                i <= self.lines.len(),
                self.lines.len() == marks.len(),
                all == texts(self.lines@),
                texts(out@) == selected(all.take(i as int), marks@.take(i as int)),
            decreases self.lines.len() - i,
        {
            proof {
                lemma_selected_step(all, marks@, i as int);
            }
            if marks[i] {
                let ghost earlier = out@;
                out.push(self.lines[i].clone());
                assert(texts(out@) =~= texts(earlier).push(all[i as int]));
            }
            i += 1;
        }
        assert(all.take(i as int) =~= all);
        assert(marks@.take(i as int) =~= marks@);
        out
    }
}

/// Writes the lines of which none before is in their group of near duplicates; gives their number.
/// Lines of no known format are dropped. A line that is no record of its format ends the run with
/// nothing written, unless such lines are skipped.
pub fn minhash_dedup(
    lines: &Vec<Line>,
    output: &mut Vec<String>,
    options: &MinHashDedupOptions,
    skip_errors: bool,
) -> (r: Result<u64, Error>)
    ensures
        run_ended(line_views(lines@), skip_errors, r),
        r is Err ==> final(output)@ == old(output)@,
        r matches Ok(kept) ==> {
            let items = run_entries(line_views(lines@), skip_errors);
            let marks = firsts(
                signatures_of(entry_texts(items), options.seed),
                options.threshold as nat,
            );
            &&& texts(final(output)@) == texts(old(output)@) + selected(texts_of(items), marks)
            &&& kept == count_marks(marks)
        },
{
    let ghost views = line_views(lines@);
    let ghost failures = unfit(views);
    let mut hasher = MinHasher::new(options.seed);
    let mut i: usize = 0;
    assert(entries(views.take(0)) =~= Seq::empty());
    while i < lines.len()
        invariant
            i <= lines.len(),
            views == line_views(lines@),
            failures == unfit(views),
            hasher.wf(),
            hasher.holds(entries(views.take(i as int)), options.seed),
            !skip_errors ==> forall|j: int| 0 <= j < i ==> !#[trigger] failures[j],
        decreases lines.len() - i,
    {
        proof {
            assert(views[i as int] == lines@[i as int]@);
            lemma_entries_step(views, i as int);
        }
        match hasher.add_line(&lines[i], skip_errors) {
            Ok(_) => {},
            Err(e) => {
                proof {
                    assert(failures[i as int]);
                    lemma_first_mark_is(failures, i as int);
                }
                return Err(e);
            },
        }
        i += 1;
    }
    proof {
        if !skip_errors {
            lemma_first_mark_is(failures, failures.len() as int);
        }
        assert(views.take(i as int) =~= views);
    }
    let mut kept = hasher.finish(options.threshold);
    let count = kept.len() as u64;
    let ghost before = output@;
    let ghost added = kept@;
    output.append(&mut kept);
    proof {
        assert(texts(output@) =~= texts(before) + texts(added));
        let items = entries(views);
        let marks = firsts(
            signatures_of(entry_texts(items), options.seed),
            options.threshold as nat,
        );
        lemma_selected_len(texts_of(items), marks);
        assert(texts(added).len() == added.len());
    }
    Ok(count)
}

/// How meanings are compared.
#[derive(Debug, Clone, PartialEq, Eq)]
pub struct SemanticDedupOptions {
    /// The directory of the model.
    pub model_path: String,
}

/// How many of the lines that were kept last a line is compared with by meaning.
pub const WINDOW: usize = 5000;

/// Where the lines begin that a line is compared with, of `kept` ones.
pub open spec fn window_start(kept: nat) -> int {
    if kept > WINDOW {
        kept - WINDOW
    } else {
        0
    }
}

/// Whether one of the lines that were kept last is marked.
pub open spec fn any_similar(kept: Seq<int>, similar: Seq<bool>) -> bool {
    exists|k: int|
        window_start(kept.len()) <= k < kept.len() && similar[#[trigger] kept[k]]
}

/// The places of the lines that are kept, where `similar` marks for each line the earlier ones that
/// it is close to in meaning: those that are compared, and close to none of the lines that were
/// kept last.
pub open spec fn meanings(lines: Seq<LineView>, similar: Seq<Seq<bool>>) -> Seq<int>
    decreases lines.len(),
{
    if lines.len() == 0 {
        Seq::empty()
    } else {
        let last = lines.len() - 1;
        let before = meanings(lines.drop_last(), similar);
        match compared_text(lines.last()) {
            Ok(Some(_)) => if any_similar(before, similar[last]) {
                before
            } else {
                before.push(last)
            },
            _ => before,
        }
    }
}

/// The lines that stand at the given places.
pub open spec fn lines_at(lines: Seq<LineView>, places: Seq<int>) -> Seq<Seq<char>> {
    places.map_values(|k: int| lines[k].text)
}

/// Deduplication by meaning: how many lines were kept.
#[derive(Debug, Clone, Copy, PartialEq, Eq, Structural)]
pub struct MeaningWindow {
    pub kept: usize,
}

impl MeaningWindow {
    /// No lines so far.
    pub fn new() -> (r: MeaningWindow)
        ensures
            r.kept == 0,
    {
        MeaningWindow { kept: 0 }
    }

    /// Where the lines begin that the next one is compared with, among those that were kept.
    pub fn start(&self) -> (r: usize)
        ensures
            r == window_start(self.kept as nat) <= self.kept,
    {
        self.kept.saturating_sub(WINDOW)
    }

    /// Decides on a line, given for each line of the window whether it is close in meaning.
    pub fn decide(&mut self, similar: &Vec<bool>) -> (r: bool)
        requires
            old(self).kept < usize::MAX,
            similar.len() == old(self).kept - window_start(old(self).kept as nat),
        ensures
            r <==> forall|k: int| 0 <= k < similar.len() ==> !#[trigger] similar@[k],
            final(self).kept == old(self).kept + if r {
                1int
            } else {
                0int
            },
    {
        let mut k: usize = 0;
        while k < similar.len()
            invariant
                k <= similar.len(),
                forall|j: int| 0 <= j < k ==> !#[trigger] similar@[j],
                *self == *old(self),
            decreases similar.len() - k,
        {
            if similar[k] {
                return false;
            }
            k += 1;
        }
        self.kept = self.kept + 1;
        true
    }
}

/// One more line, kept or not.
proof fn lemma_meanings_step(lines: Seq<LineView>, similar: Seq<Seq<bool>>, i: int)
    requires
        0 <= i < lines.len(),
    ensures
        meanings(lines.take(i + 1), similar) == match compared_text(lines[i]) {
            Ok(Some(_)) => if any_similar(meanings(lines.take(i), similar), similar[i]) {
                meanings(lines.take(i), similar)
            } else {
                meanings(lines.take(i), similar).push(i)
            },
            _ => meanings(lines.take(i), similar),
        },
{
    assert(lines.take(i + 1).drop_last() =~= lines.take(i));
}

/// The places of the lines that are kept are those of earlier lines.
proof fn lemma_meanings_in_range(lines: Seq<LineView>, similar: Seq<Seq<bool>>)
    ensures
        meanings(lines, similar).len() <= lines.len(),
        forall|k: int|
            0 <= k < meanings(lines, similar).len() ==> 0 <= #[trigger] meanings(
                lines,
                similar,
            )[k] < lines.len(),
    decreases lines.len(),
{
    if lines.len() > 0 {
        lemma_meanings_in_range(lines.drop_last(), similar);
    }
}

/// Marks as mathematical values.
pub open spec fn mark_views(similar: Seq<Vec<bool>>) -> Seq<Seq<bool>> {
    similar.map_values(|marks: Vec<bool>| marks@)
}

/// Writes the lines that are close in meaning to none of those that were kept last, given for each
/// line the earlier ones that it is close to; gives their number. Lines of no known format are
/// dropped. A line that is no record of its format ends the run, unless such lines are skipped.
pub fn semantic_dedup(
    lines: &Vec<Line>,
    similar: &Vec<Vec<bool>>,
    output: &mut Vec<String>,
    skip_errors: bool,
) -> (r: Result<u64, Error>)
    requires
        similar.len() == lines.len(),
        forall|i: int| 0 <= i < similar.len() ==> (#[trigger] similar@[i])@.len() >= i,
    ensures
        run_ended(line_views(lines@), skip_errors, r),
        ({
            let views = line_views(lines@);
            let end = run_end(unfit(views), skip_errors);
            let places = meanings(views.take(end), mark_views(similar@));
            &&& texts(final(output)@) == texts(old(output)@) + lines_at(views, places)
            &&& r matches Ok(kept) ==> kept == places.len()
        }),
{
    let ghost views = line_views(lines@);
    let ghost marks = mark_views(similar@);
    let ghost failures = unfit(views);
    let ghost before = texts(output@);
    let mut window = MeaningWindow::new();
    let mut kept: Vec<usize> = Vec::new();
    let mut i: usize = 0;
    proof {
        assert(meanings(views.take(0), marks) =~= Seq::empty());
        assert(texts(output@) =~= before + lines_at(views, meanings(views.take(0), marks)));
        assert(kept@.map_values(|k: usize| k as int) =~= meanings(views.take(0), marks));
    }
    while i < lines.len()
        invariant
            i <= lines.len(),
            views == line_views(lines@),
            marks == mark_views(similar@),
            failures == unfit(views),
            before == texts(old(output)@),
            similar.len() == lines.len(),
            forall|j: int| 0 <= j < similar.len() ==> (#[trigger] similar@[j])@.len() >= j,
            window.kept == kept.len() <= i,
            kept@.map_values(|k: usize| k as int) == meanings(views.take(i as int), marks),
            texts(output@) == before + lines_at(views, meanings(views.take(i as int), marks)),
            !skip_errors ==> forall|j: int| 0 <= j < i ==> !#[trigger] failures[j],
        decreases lines.len() - i,
    {
        let ghost at = i as int;
        let ghost places = meanings(views.take(at), marks);
        proof {
            assert(views[at] == lines@[at]@);
            assert(marks[at] == similar@[at]@);
            lemma_meanings_step(views, marks, at);
            lemma_meanings_in_range(views.take(at), marks);
        }
        match comparison_text(&lines[i], skip_errors) {
            Ok(Some(_)) => {
                let start: usize = window.start();
                let mut close: Vec<bool> = Vec::new();
                let mut k: usize = start;
                while k < kept.len()
                    invariant
                        start <= k <= kept.len(),
                        at == i < similar.len(),
                        marks[at] == similar@[at]@,
                        similar@[at]@.len() >= at,
                        kept@.map_values(|k: usize| k as int) == places,
                        forall|j: int| 0 <= j < places.len() ==> 0 <= #[trigger] places[j] < at,
                        close.len() == k - start,
                        forall|j: int|
                            0 <= j < close.len() ==> #[trigger] close@[j] == marks[at][places[start
                                + j]],
                    decreases kept.len() - k,
                {
                    let other: usize = kept[k];
                    assert(places[k as int] == other);
                    close.push(similar[i][other]);
                    k += 1;
                }
                let new = window.decide(&close);
                proof {
                    if new {
                        assert forall|j: int| start <= j < places.len() implies !marks[at][
                            #[trigger] places[j]
                        ] by {
                            assert(!close@[j - start]);
                        }
                    } else {
                        let j = choose|j: int| 0 <= j < close.len() && #[trigger] close@[j];
                        assert(marks[at][places[start + j]]);
                    }
                    assert(new == !any_similar(places, marks[at]));
                }
                if new {
                    let ghost known = kept@;
                    let ghost earlier = output@;
                    kept.push(i);
                    output.push(lines[i].text.clone());
                    proof {
                        let more = places.push(at);
                        assert(kept@.map_values(|k: usize| k as int) =~= more);
                        assert(texts(output@) =~= texts(earlier).push(views[at].text));
                        assert(lines_at(views, more) =~= lines_at(views, places).push(
                            views[at].text,
                        ));
                        assert(texts(output@) =~= before + lines_at(views, more));
                    }
                }
            },
            Ok(None) => {},
            Err(e) => {
                proof {
                    assert(failures[at]);
                    lemma_first_mark_is(failures, at);
                }
                return Err(e);
            },
        }
        i += 1;
    }
    proof {
        if !skip_errors {
            lemma_first_mark_is(failures, failures.len() as int);
        }
        assert(views.take(i as int) =~= views);
    }
    Ok(kept.len() as u64)
}

/// No two texts whose marks are set have the same hash, and each other text has that of an earlier
/// text whose mark is set.
pub proof fn law_exact_keeps_one_of_each(items: Seq<Seq<char>>)
    ensures
        forall|i: int, j: int|
            0 <= i < j < items.len() && #[trigger] fresh(items)[i] && #[trigger] fresh(items)[j]
                ==> text_key(items[i]) != text_key(items[j]),
        forall|j: int|
            0 <= j < items.len() && !#[trigger] fresh(items)[j] ==> exists|i: int|
                0 <= i < j && #[trigger] fresh(items)[i] && text_key(items[i]) == text_key(items[j]),
{
    assert forall|i: int, j: int|
        0 <= i < j < items.len() && #[trigger] fresh(items)[i] && #[trigger] fresh(items)[j] implies
        text_key(items[i]) != text_key(items[j]) by {
        assert(fresh(items)[j]);
    }
    assert forall|j: int| 0 <= j < items.len() && !#[trigger] fresh(items)[j] implies exists|i: int|
        0 <= i < j && #[trigger] fresh(items)[i] && text_key(items[i]) == text_key(items[j]) by {
        lemma_first_of_key(items, j);
    }
}

/// The first text with a hash has its mark set.
proof fn lemma_first_of_key(items: Seq<Seq<char>>, j: int)
    requires
        0 <= j < items.len(),
        !fresh(items)[j],
    ensures
        exists|i: int|
            0 <= i < j && #[trigger] fresh(items)[i] && text_key(items[i]) == text_key(items[j]),
    decreases j,
{
    let i = choose|i: int| 0 <= i < j && text_key(#[trigger] items[i]) == text_key(items[j]);
    if !fresh(items)[i] {
        lemma_first_of_key(items, i);
    }
}

/// Of texts that are the same, at most the first has its mark set.
pub proof fn law_exact_drops_repeats(items: Seq<Seq<char>>, i: int, j: int)
    requires
        0 <= i < j < items.len(),
        items[i] == items[j],
    ensures
        !fresh(items)[j],
{
    assert(text_key(items[i]) == text_key(items[j]));
}

/// Exact deduplication of what it kept keeps all of it.
pub proof fn law_exact_is_idempotent(items: Seq<Seq<char>>)
    ensures
        ({
            let rest = selected(items, fresh(items));
            &&& selected(rest, fresh(rest)) == rest
            &&& count_marks(fresh(rest)) == rest.len()
        }),
{
    let marks = fresh(items);
    let rest = selected(items, marks);
    law_selection_keeps_order(items, marks);
    law_exact_keeps_one_of_each(items);
    assert forall|j: int| 0 <= j < rest.len() implies #[trigger] fresh(rest)[j] by {
        assert forall|i: int| 0 <= i < j implies text_key(#[trigger] rest[i]) != text_key(
            rest[j],
        ) by {
            let a = places(marks)[i];
            let b = places(marks)[j];
            assert(marks[a] && marks[b] && a < b);
        }
    }
    lemma_all_selected(rest, fresh(rest));
}

/// Of each group of near duplicates the first member is kept, and no other.
pub proof fn law_minhash_keeps_one_of_each_group(sigs: Seq<Seq<u32>>, threshold: nat)
    ensures
        forall|i: int, j: int|
            0 <= i < j < sigs.len() && #[trigger] firsts(sigs, threshold)[i] && #[trigger] firsts(
                sigs,
                threshold,
            )[j] ==> !connected(sigs, threshold, j, i),
        forall|j: int|
            0 <= j < sigs.len() && !#[trigger] firsts(sigs, threshold)[j] ==> exists|i: int|
                0 <= i < j && #[trigger] firsts(sigs, threshold)[i] && connected(
                    sigs,
                    threshold,
                    j,
                    i,
                ),
{
    assert forall|j: int| 0 <= j < sigs.len() && !#[trigger] firsts(sigs, threshold)[j] implies exists|
        i: int,
    |
        0 <= i < j && #[trigger] firsts(sigs, threshold)[i] && connected(sigs, threshold, j, i) by {
        lemma_first_of_group(sigs, threshold, j);
    }
}

/// No two texts that are kept agree in as many rows of their signatures as near duplicates do.
pub proof fn law_minhash_keeps_no_near_duplicates(
    items: Seq<Seq<char>>,
    seed: u64,
    threshold: nat,
    i: int,
    j: int,
)
    requires
        0 <= i < j < items.len(),
        firsts(signatures_of(items, seed), threshold)[i],
        firsts(signatures_of(items, seed), threshold)[j],
    ensures
        agreement(
            signatures_of(items, seed)[i],
            signatures_of(items, seed)[j],
            NUM_HASHES as nat,
        ) < threshold,
{
    let sigs = signatures_of(items, seed);
    if agreement(sigs[i], sigs[j], NUM_HASHES as nat) >= threshold {
        let way = seq![i, j];
        assert(is_way(sigs, threshold, way));
        assert(way.last() == j);
        assert(connected(sigs, threshold, i, j));
        law_connected_symmetric(sigs, threshold, i, j);
    }
}

/// The first member of a group is kept.
proof fn lemma_first_of_group(sigs: Seq<Seq<u32>>, threshold: nat, j: int)
    requires
        0 <= j < sigs.len(),
        !firsts(sigs, threshold)[j],
    ensures
        exists|i: int|
            0 <= i < j && #[trigger] firsts(sigs, threshold)[i] && connected(
                sigs,
                threshold,
                j,
                i,
            ),
    decreases j,
{
    let i = choose|i: int| 0 <= i < j && #[trigger] connected(sigs, threshold, j, i);
    if !firsts(sigs, threshold)[i] {
        lemma_first_of_group(sigs, threshold, i);
        let first = choose|k: int|
            0 <= k < i && #[trigger] firsts(sigs, threshold)[k] && connected(
                sigs,
                threshold,
                i,
                k,
            );
        law_connected_transitive(sigs, threshold, j, i, first);
    }
}

/// A signature agrees with itself in all rows.
proof fn lemma_agrees_with_itself(x: Seq<u32>, rows: nat)
    ensures
        agreement(x, x, rows) == rows,
    decreases rows,
{
    if rows > 0 {
        lemma_agrees_with_itself(x, (rows - 1) as nat);
    }
}

/// Of texts that are the same, at most the first is kept, unless more rows are asked for than there
/// are.
pub proof fn law_minhash_drops_repeats(
    items: Seq<Seq<char>>,
    seed: u64,
    threshold: nat,
    i: int,
    j: int,
)
    requires
        0 <= i < j < items.len(),
        items[i] == items[j],
        threshold <= NUM_HASHES,
    ensures
        !firsts(signatures_of(items, seed), threshold)[j],
{
    let sigs = signatures_of(items, seed);
    lemma_agrees_with_itself(sigs[i], NUM_HASHES as nat);
    let way = seq![j, i];
    assert(is_way(sigs, threshold, way));
    assert(way.last() == i);
    assert(connected(sigs, threshold, j, i));
}

/// A way among signatures of which no two are in one group stays where it is.
proof fn lemma_way_stays(
    sigs: Seq<Seq<u32>>,
    threshold: nat,
    marks: Seq<bool>,
    way: Seq<int>,
    n: int,
)
    requires
        marks == firsts(sigs, threshold),
        is_way(selected(sigs, marks), threshold, way),
        0 <= n < way.len(),
    ensures
        way[n] == way[0],
    decreases n,
{
    if n > 0 {
        lemma_way_stays(sigs, threshold, marks, way, n - 1);
        law_selection_keeps_order(sigs, marks);
        let rest = selected(sigs, marks);
        let i = way[n - 1];
        let j = way[n];
        assert(alike(rest[i], rest[j], threshold));
        let a = places(marks)[i];
        let b = places(marks)[j];
        assert(marks[a] && marks[b]);
        let step = seq![a, b];
        assert(is_way(sigs, threshold, step));
        assert(step.last() == b);
        assert(connected(sigs, threshold, a, b));
        law_connected_symmetric(sigs, threshold, a, b);
        if i < j {
            assert(a < b);
            assert(!connected(sigs, threshold, b, a));
        } else if j < i {
            assert(b < a);
            assert(!connected(sigs, threshold, a, b));
        }
    }
}

/// Near deduplication of what it kept keeps all of it.
pub proof fn law_minhash_is_idempotent(sigs: Seq<Seq<u32>>, threshold: nat)
    ensures
        ({
            let rest = selected(sigs, firsts(sigs, threshold));
            &&& selected(rest, firsts(rest, threshold)) == rest
            &&& count_marks(firsts(rest, threshold)) == rest.len()
        }),
{
    let marks = firsts(sigs, threshold);
    let rest = selected(sigs, marks);
    assert forall|k: int| 0 <= k < rest.len() implies #[trigger] firsts(rest, threshold)[k] by {
        assert forall|j: int| 0 <= j < k implies !#[trigger] connected(rest, threshold, k, j) by {
            if connected(rest, threshold, k, j) {
                let way = choose|way: Seq<int>| #[trigger]
                    is_way(rest, threshold, way) && way[0] == k && way.last() == j;
                lemma_way_stays(sigs, threshold, marks, way, way.len() - 1);
            }
        }
    }
    lemma_all_selected(rest, firsts(rest, threshold));
}

/// A line is compared by its canonical text in the format that it is told as; one of no known
/// format is not compared at all.
pub proof fn law_lines_are_compared_by_canonical_text(line: LineView)
    ensures
        format_of_line(line.text) is Err ==> compared_text(line) == Ok::<
            Option<Seq<char>>,
            ErrorView,
        >(None),
        format_of_line(line.text) is Ok ==> match reading_text(
            line.reading,
            format_of_line(line.text)->Ok_0,
        ) {
            Ok(text) => compared_text(line) == Ok::<Option<Seq<char>>, ErrorView>(Some(text)),
            Err(e) => compared_text(line) == Err::<Option<Seq<char>>, ErrorView>(e),
        },
{
}

/// The lines that are compared are all that have a text to compare, in order, with just these
/// texts; a run that passes over bad lines, or finds none, takes in all of them.
pub proof fn law_all_comparable_lines_are_compared(
    lines: Seq<LineView>,
    line: LineView,
    skip_errors: bool,
)
    ensures
        entries(Seq::empty()).len() == 0,
        compared_text(line) matches Ok(Some(_)) ==> entries(lines.push(line)) == entries(
            lines,
        ).push(line),
        !(compared_text(line) matches Ok(Some(_))) ==> entries(lines.push(line)) == entries(lines),
        run_entries(lines, true) == entries(lines),
        (forall|i: int| 0 <= i < lines.len() ==> compared_text(#[trigger] lines[i]) is Ok)
            ==> run_entries(lines, skip_errors) == entries(lines),
        entry_texts(lines).len() == lines.len(),
        texts_of(lines).len() == lines.len(),
        forall|i: int|
            #![trigger lines[i]]
            0 <= i < lines.len() ==> texts_of(lines)[i] == lines[i].text && (compared_text(lines[i])
                matches Ok(Some(text)) ==> entry_texts(lines)[i] == text),
{
    assert(lines.push(line).drop_last() =~= lines);
    assert(lines.take(lines.len() as int) =~= lines);
    if forall|i: int| 0 <= i < lines.len() ==> compared_text(#[trigger] lines[i]) is Ok {
        let failures = unfit(lines);
        assert forall|i: int| 0 <= i < failures.len() implies !#[trigger] failures[i] by {
            assert(compared_text(lines[i]) is Ok);
        }
        lemma_first_mark_is(failures, failures.len() as int);
    }
}

/// Exact deduplication compares the hashes of whole texts, all of their bytes in UTF-8, and with all
/// earlier texts: a text is kept exactly where none of these has the same hash.
pub proof fn law_exact_compares_whole_texts(items: Seq<Seq<char>>, i: int)
    requires
        0 <= i < items.len(),
    ensures
        fresh(items).len() == items.len(),
        fresh(items)[i] <==> forall|j: int|
            0 <= j < i ==> xxh3_of(vstd::utf8::encode_utf8(#[trigger] items[j])) != xxh3_of(
                vstd::utf8::encode_utf8(items[i]),
            ),
{
    assert forall|j: int| 0 <= j < i implies text_key(#[trigger] items[j]) == xxh3_of(
        vstd::utf8::encode_utf8(items[j]),
    ) by {}
}

/// The signature of each text is made with the coefficients that are drawn from the seed, for all
/// texts the same.
pub proof fn law_all_texts_share_coefficients(items: Seq<Seq<char>>, seed: u64, i: int)
    requires
        0 <= i < items.len(),
    ensures
        signatures_of(items, seed).len() == items.len(),
        signatures_of(items, seed)[i] == signature_of(items[i], factors(seed), offsets(seed)),
{
}

/// By meaning, a line is compared with the five thousand lines that were kept last, and dropped
/// where it is similar to one of them; all others that have a text to compare are kept.
pub proof fn law_meanings_are_compared_with_those_kept_last(
    lines: Seq<LineView>,
    line: LineView,
    similar: Seq<Seq<bool>>,
)
    ensures
        meanings(Seq::empty(), similar).len() == 0,
        ({
            let before = meanings(lines, similar);
            let after = meanings(lines.push(line), similar);
            let marks = similar[lines.len() as int];
            let duplicate = exists|k: int|
                0 <= k < before.len() && k + 5000 >= before.len() && marks[#[trigger] before[k]];
            let compared = compared_text(line) is Ok && compared_text(line)->Ok_0 is Some;
            &&& !compared ==> after == before
            &&& compared && duplicate ==> after == before
            &&& compared && !duplicate ==> after == before.push(lines.len() as int)
        }),
{
    let more = lines.push(line);
    assert(more.drop_last() =~= lines);
    let before = meanings(lines, similar);
    let marks = similar[lines.len() as int];
    if any_similar(before, marks) {
        let k = choose|k: int|
            window_start(before.len()) <= k < before.len() && marks[#[trigger] before[k]];
        assert(0 <= k < before.len() && k + 5000 >= before.len() && marks[before[k]]);
    }
    if exists|k: int|
        0 <= k < before.len() && k + 5000 >= before.len() && marks[#[trigger] before[k]] {
        let k = choose|k: int|
            0 <= k < before.len() && k + 5000 >= before.len() && marks[#[trigger] before[k]];
        assert(window_start(before.len()) <= k);
    }
}

/// A run ends well where each line can be compared or is passed over, and where bad lines are not
/// passed over at the first of them, with what is told of it; only the lines before it are
/// compared then.
pub proof fn law_runs_end_at_a_bad_line(
    lines: Seq<LineView>,
    skip_errors: bool,
    r: Result<u64, Error>,
    end: int,
)
    requires
        run_ended(lines, skip_errors, r),
        0 <= end <= lines.len(),
        forall|i: int| 0 <= i < end ==> compared_text(#[trigger] lines[i]) is Ok,
        end < lines.len() ==> compared_text(lines[end]) is Err,
    ensures
        skip_errors || end == lines.len() ==> r is Ok,
        !skip_errors && end < lines.len() ==> r is Err && compared_text(lines[end]) == Err::<
            Option<Seq<char>>,
            ErrorView,
        >(r->Err_0@),
        !skip_errors ==> run_entries(lines, skip_errors) == entries(lines.take(end)),
{
    let failures = unfit(lines);
    assert forall|i: int| 0 <= i < end implies !#[trigger] failures[i] by {
        assert(compared_text(lines[i]) is Ok);
    }
    lemma_first_mark_is(failures, end);
}

/// The lines at places are their texts, in that order; marks are viewed one by one.
pub proof fn law_lines_at_their_places(
    lines: Seq<LineView>,
    at: Seq<int>,
    similar: Seq<Vec<bool>>,
)
    ensures
        lines_at(lines, at).len() == at.len(),
        forall|k: int| 0 <= k < at.len() ==> #[trigger] lines_at(lines, at)[k] == lines[at[k]].text,
        mark_views(similar).len() == similar.len(),
        forall|k: int| 0 <= k < similar.len() ==> #[trigger] mark_views(similar)[k] == similar[k]@,
{
}

} // verus!
