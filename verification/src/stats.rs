//! Token statistics of a dataset.

use vstd::prelude::*;
use vstd::relations::{sorted_by, total_ordering};

use crate::detect::{detect, format_of_line};
use crate::error::{Error, ErrorView};
use crate::format::Format;
use crate::record::{reading_conforms, reading_text, Line, LineView};
use crate::select::line_views;
use crate::tokenizer::{can_tokenize, cl100k_tokens, tokenizable, Tokenizer};

verus! {

/// Token counts below which a given part of the lines stays.
#[derive(Debug, Clone, Copy, PartialEq, Eq, Structural)]
pub struct Percentiles {
    pub p25: u64,
    pub p50: u64,
    pub p75: u64,
    pub p90: u64,
    pub p99: u64,
}

/// The statistics of a dataset. The mean is the total over the valid lines.
#[derive(Debug, Clone, Copy, PartialEq, Eq, Structural)]
pub struct StatsSummary {
    pub total_lines: u64,
    pub valid_lines: u64,
    pub invalid_lines: u64,
    pub total_tokens: u64,
    pub min_tokens: u64,
    pub max_tokens: u64,
    pub percentiles: Option<Percentiles>,
}

/// The format and the canonical text of a line that is valid, where the format is known, or told
/// by the line itself.
pub open spec fn admitted(line: LineView, known: Option<Format>) -> Option<(Format, Seq<char>)> {
    let told = match known {
        Some(format) => Ok(format),
        None => format_of_line(line.text),
    };
    match told {
        Ok(format) => if reading_conforms(line.reading, format) {
            Some((format, reading_text(line.reading, format)->Ok_0))
        } else {
            None
        },
        Err(_) => None,
    }
}

/// The format after some lines: the given one, or that of the first valid line.
pub open spec fn known_format(lines: Seq<LineView>, given: Option<Format>) -> Option<Format>
    decreases lines.len(),
{
    if lines.len() == 0 {
        given
    } else {
        let known = known_format(lines.drop_last(), given);
        match admitted(lines.last(), known) {
            Some((format, _)) => Some(format),
            None => known,
        }
    }
}

/// The canonical texts of the valid lines, in order.
pub open spec fn valid_texts(lines: Seq<LineView>, given: Option<Format>) -> Seq<Seq<char>>
    decreases lines.len(),
{
    if lines.len() == 0 {
        Seq::empty()
    } else {
        let rest = valid_texts(lines.drop_last(), given);
        match admitted(lines.last(), known_format(lines.drop_last(), given)) {
            Some((_, text)) => rest.push(text),
            None => rest,
        }
    }
}

/// The numbers of tokens of texts.
pub open spec fn token_counts(items: Seq<Seq<char>>) -> Seq<u64> {
    items.map_values(|text: Seq<char>| cl100k_tokens(text).len() as u64)
}

/// The sum of numbers.
pub open spec fn sum(counts: Seq<u64>) -> nat
    decreases counts.len(),
{
    if counts.len() == 0 {
        0
    } else {
        sum(counts.drop_last()) + counts.last() as nat
    }
}

/// The least of numbers, or the greatest there is where there are none.
pub open spec fn least(counts: Seq<u64>) -> u64
    decreases counts.len(),
{
    if counts.len() == 0 {
        u64::MAX
    } else if counts.last() < least(counts.drop_last()) {
        counts.last()
    } else {
        least(counts.drop_last())
    }
}

/// The greatest of numbers; zero where there are none.
pub open spec fn greatest(counts: Seq<u64>) -> u64
    decreases counts.len(),
{
    if counts.len() == 0 {
        0
    } else if counts.last() > greatest(counts.drop_last()) {
        counts.last()
    } else {
        greatest(counts.drop_last())
    }
}

/// Numbers in ascending order.
pub open spec fn ascending(counts: Seq<u64>) -> Seq<u64> {
    counts.sort_by(|x: u64, y: u64| x <= y)
}

/// The place of a percentile among `n` numbers in ascending order: the given part of the way from
/// the first to the last, rounded to the nearest place, halves upward.
pub open spec fn percentile_place(percent: nat, n: nat) -> int {
    ((percent * (n - 1) + 50) / 100) as int
}

/// The percentiles of numbers.
pub open spec fn percentiles_of(counts: Seq<u64>) -> Percentiles {
    let sorted = ascending(counts);
    Percentiles {
        p25: sorted[percentile_place(25, counts.len())],
        p50: sorted[percentile_place(50, counts.len())],
        p75: sorted[percentile_place(75, counts.len())],
        p90: sorted[percentile_place(90, counts.len())],
        p99: sorted[percentile_place(99, counts.len())],
    }
}

/// The statistics of lines. The total of the tokens is kept modulo 2^64.
pub open spec fn summary_of(
    lines: Seq<LineView>,
    given: Option<Format>,
    percentiles: bool,
) -> StatsSummary {
    let counts = token_counts(valid_texts(lines, given));
    StatsSummary {
        total_lines: lines.len() as u64,
        valid_lines: counts.len() as u64,
        invalid_lines: (lines.len() - counts.len()) as u64,
        total_tokens: (sum(counts) % 0x1_0000_0000_0000_0000) as u64,
        min_tokens: if counts.len() > 0 {
            least(counts)
        } else {
            0
        },
        max_tokens: greatest(counts),
        percentiles: if percentiles && counts.len() > 0 {
            Some(percentiles_of(counts))
        } else {
            None
        },
    }
}

/// Calls `slice::sort_unstable`: the same numbers, in ascending order.
#[verifier::external_body]
fn sort_counts(counts: &mut Vec<u64>)
    ensures
        final(counts)@.to_multiset() == old(counts)@.to_multiset(),
        forall|i: int, j: int|
            0 <= i <= j < final(counts)@.len() ==> #[trigger] final(counts)@[i]
                <= #[trigger] final(counts)@[j],
{
    counts.sort_unstable();
}

/// The order of numbers is total.
proof fn lemma_numbers_ordered()
    ensures
        total_ordering(|x: u64, y: u64| x <= y),
{
}

/// What is known of the lines so far.
#[derive(Debug)]
pub struct Tally {
    pub format: Option<Format>,
    pub total_lines: u64,
    pub valid_lines: u64,
    pub invalid_lines: u64,
    pub total_tokens: u64,
    pub min_tokens: u64,
    pub max_tokens: u64,
    /// The token counts of all valid lines, where percentiles are wanted.
    pub counts: Option<Vec<u64>>,
}

impl Tally {
    /// Whether the tally is that of the given token counts.
    pub open spec fn tells(&self, counts: Seq<u64>) -> bool {
        &&& self.valid_lines == counts.len()
        &&& self.total_tokens == sum(counts) % 0x1_0000_0000_0000_0000
        &&& self.min_tokens == least(counts)
        &&& self.max_tokens == greatest(counts)
        &&& self.counts matches Some(kept) ==> kept@ == counts
    }

    /// The tally of no lines.
    pub fn new(format: Option<Format>, percentiles: bool) -> (r: Tally)
        ensures
            r.format == format,
            r.total_lines == 0,
            r.invalid_lines == 0,
            r.counts is Some == percentiles,
            r.tells(Seq::empty()),
    {
        let counts = if percentiles {
            Some(Vec::new())
        } else {
            None
        };
        let r = Tally {
            format,
            total_lines: 0,
            valid_lines: 0,
            invalid_lines: 0,
            total_tokens: 0,
            min_tokens: u64::MAX,
            max_tokens: 0,
            counts,
        };
        assert(r.counts matches Some(kept) ==> kept@ =~= Seq::empty());
        r
    }

    /// Takes a line in: gives the text whose tokens are to be counted, or counts the line as
    /// invalid. The first valid line tells the format, where it is not known.
    pub fn take_line(&mut self, line: &Line) -> (r: Option<String>)
        requires
            old(self).total_lines < u64::MAX,
            old(self).invalid_lines < u64::MAX,
        ensures
            match admitted(line@, old(self).format) {
                Some((format, text)) => {
                    &&& r matches Some(s) && s@ == text
                    &&& final(self).format == Some(format)
                    &&& final(self).invalid_lines == old(self).invalid_lines
                },
                None => {
                    &&& r is None
                    &&& final(self).format == old(self).format
                    &&& final(self).invalid_lines == old(self).invalid_lines + 1
                },
            },
            final(self).total_lines == old(self).total_lines + 1,
            final(self).valid_lines == old(self).valid_lines,
            final(self).total_tokens == old(self).total_tokens,
            final(self).min_tokens == old(self).min_tokens,
            final(self).max_tokens == old(self).max_tokens,
            final(self).counts == old(self).counts,
    {
        self.total_lines = self.total_lines + 1;
        let told = match self.format {
            Some(format) => Some(format),
            None => match detect(line.text.as_str()) {
                Ok(format) => Some(format),
                Err(_) => None,
            },
        };
        match told {
            Some(format) => {
                if line.reading.conforms(format) {
                    match line.reading.canonical_text(format) {
                        Ok(text) => {
                            self.format = Some(format);
                            return Some(text);
                        },
                        Err(_) => {},
                    }
                }
            },
            None => {},
        }
        self.invalid_lines = self.invalid_lines + 1;
        None
    }

    /// Counts a valid line with the given number of tokens.
    pub fn count(&mut self, tokens: u64)
        requires
            old(self).valid_lines < u64::MAX,
        ensures
            forall|counts: Seq<u64>| #[trigger]
                old(self).tells(counts) ==> final(self).tells(counts.push(tokens)),
            final(self).valid_lines == old(self).valid_lines + 1,
            final(self).format == old(self).format,
            final(self).total_lines == old(self).total_lines,
            final(self).invalid_lines == old(self).invalid_lines,
            final(self).counts is Some == old(self).counts is Some,
    {
        let ghost before = *self;
        self.valid_lines = self.valid_lines + 1;
        self.total_tokens = self.total_tokens.wrapping_add(tokens);
        if tokens < self.min_tokens {
            self.min_tokens = tokens;
        }
        if tokens > self.max_tokens {
            self.max_tokens = tokens;
        }
        if let Some(mut kept) = self.counts.take() {
            kept.push(tokens);
            self.counts = Some(kept);
        }
        proof {
            assert forall|counts: Seq<u64>| #[trigger] before.tells(counts) implies self.tells(
                counts.push(tokens),
            ) by {
                let more = counts.push(tokens);
                assert(more.drop_last() =~= counts);
                assert(sum(more) == sum(counts) + tokens as nat);
            }
        }
    }

    /// The statistics.
    pub fn finish(self) -> (r: StatsSummary)
        ensures
            forall|counts: Seq<u64>| #[trigger]
                self.tells(counts) ==> r == (StatsSummary {
                    total_lines: self.total_lines,
                    valid_lines: self.valid_lines,
                    invalid_lines: self.invalid_lines,
                    total_tokens: self.total_tokens,
                    min_tokens: if counts.len() > 0 {
                        least(counts)
                    } else {
                        0
                    },
                    max_tokens: greatest(counts),
                    percentiles: if self.counts is Some && counts.len() > 0 {
                        Some(percentiles_of(counts))
                    } else {
                        None
                    },
                }),
    {
        let percentiles = match self.counts {
            Some(counts) => if counts.len() > 0 {
                Some(percentiles(counts))
            } else {
                None
            },
            None => None,
        };
        let min_tokens: u64 = if self.valid_lines > 0 {
            self.min_tokens
        } else {
            0
        };
        StatsSummary {
            total_lines: self.total_lines,
            valid_lines: self.valid_lines,
            invalid_lines: self.invalid_lines,
            total_tokens: self.total_tokens,
            min_tokens,
            max_tokens: self.max_tokens,
            percentiles,
        }
    }
}

/// The place of a percentile.
fn place(percent: usize, n: usize) -> (r: usize)
    requires
        percent <= 100,
        n > 0,
    ensures
        r == percentile_place(percent as nat, n as nat) < n,
{
    assert(percent * (n - 1) <= 100 * (n - 1)) by (nonlinear_arith)
        requires
            percent <= 100,
            n > 0,
    ;
    let scaled: u128 = percent as u128 * (n as u128 - 1) + 50;
    (scaled / 100) as usize
}

/// The percentiles of numbers.
pub fn percentiles(counts: Vec<u64>) -> (r: Percentiles)
    requires
        counts.len() > 0,
    ensures
        r == percentiles_of(counts@),
{
    let mut sorted = counts;
    sort_counts(&mut sorted);
    let n: usize = sorted.len();
    proof {
        let leq = |x: u64, y: u64| x <= y;
        lemma_numbers_ordered();
        counts@.lemma_sort_by_ensures(leq);
        vstd::seq_lib::lemma_sorted_unique(sorted@, ascending(counts@), leq);
        sorted@.to_multiset_ensures();
        counts@.to_multiset_ensures();
    }
    Percentiles {
        p25: sorted[place(25, n)],
        p50: sorted[place(50, n)],
        p75: sorted[place(75, n)],
        p90: sorted[place(90, n)],
        p99: sorted[place(99, n)],
    }
}

/// Whether the tokens of all valid lines can be counted.
pub open spec fn all_tokenizable(lines: Seq<LineView>, given: Option<Format>) -> bool {
    forall|i: int|
        0 <= i < valid_texts(lines, given).len() ==> tokenizable(
            #[trigger] valid_texts(lines, given)[i],
        )
}

/// The texts of the first valid lines come first among those of more lines.
proof fn lemma_valid_texts_grow(lines: Seq<LineView>, given: Option<Format>, i: int, j: int)
    requires
        0 <= i <= j <= lines.len(),
    ensures
        valid_texts(lines.take(i), given).len() <= valid_texts(lines.take(j), given).len(),
        valid_texts(lines.take(i), given) == valid_texts(lines.take(j), given).take(
            valid_texts(lines.take(i), given).len() as int,
        ),
    decreases j - i,
{
    let first = valid_texts(lines.take(i), given);
    let n = first.len() as int;
    if i < j {
        lemma_valid_texts_grow(lines, given, i, j - 1);
        assert(lines.take(j).drop_last() =~= lines.take(j - 1));
        assert(valid_texts(lines.take(j), given).take(n) =~= valid_texts(
            lines.take(j - 1),
            given,
        ).take(n));
    } else {
        assert(first =~= valid_texts(lines.take(j), given).take(n));
    }
}

/// No more lines are valid than there are.
proof fn lemma_valid_texts_len(lines: Seq<LineView>, given: Option<Format>)
    ensures
        valid_texts(lines, given).len() <= lines.len(),
    decreases lines.len(),
{
    if lines.len() > 0 {
        lemma_valid_texts_len(lines.drop_last(), given);
    }
}

/// Collects the statistics of lines, given a tokenizer.
pub fn stats_with(
    lines: &Vec<Line>,
    format: Option<Format>,
    tokenizer: &Tokenizer,
    calculate_percentiles: bool,
) -> (r: StatsSummary)
    requires
        all_tokenizable(line_views(lines@), format),
    ensures
        r == summary_of(line_views(lines@), format, calculate_percentiles),
{
    let ghost views = line_views(lines@);
    let mut tally = Tally::new(format, calculate_percentiles);
    let mut i: usize = 0;
    assert(token_counts(valid_texts(views.take(0), format)) =~= Seq::empty());
    while i < lines.len()
        invariant
            i <= lines.len(),
            views == line_views(lines@),
            all_tokenizable(views, format),
            tally.format == known_format(views.take(i as int), format),
            tally.total_lines == i,
            tally.counts is Some == calculate_percentiles,
            tally.tells(token_counts(valid_texts(views.take(i as int), format))),
            tally.valid_lines + tally.invalid_lines == i,
        decreases lines.len() - i,
    {
        let ghost before = valid_texts(views.take(i as int), format);
        proof {
            assert(views.take(i + 1).drop_last() =~= views.take(i as int));
            assert(views[i as int] == lines@[i as int]@);
        }
        match tally.take_line(&lines[i]) {
            Some(text) => {
                let ghost after = valid_texts(views.take(i + 1), format);
                proof {
                    assert(after == before.push(text@));
                    lemma_valid_texts_grow(views, format, i + 1, views.len() as int);
                    assert(views.take(views.len() as int) =~= views);
                    assert(after[before.len() as int] == text@);
                    assert(valid_texts(views, format).take(after.len() as int)[before.len() as int]
                        == text@);
                    assert(token_counts(after) =~= token_counts(before).push(
                        cl100k_tokens(text@).len() as u64,
                    ));
                }
                let tokens: usize = tokenizer.count(text.as_str());
                assert(tally.tells(token_counts(before)));
                tally.count(tokens as u64);
            },
            None => {
                assert(valid_texts(views.take(i + 1), format) == before);
            },
        }
        i += 1;
    }
    proof {
        assert(views.take(i as int) =~= views);
        assert(tally.tells(token_counts(valid_texts(views, format))));
        lemma_valid_texts_len(views, format);
    }
    tally.finish()
}

/// Whether the tokens of all valid lines can be counted.
pub fn can_collect(lines: &Vec<Line>, format: Option<Format>) -> (r: bool)
    ensures
        r == all_tokenizable(line_views(lines@), format),
{
    let ghost views = line_views(lines@);
    let mut tally = Tally::new(format, false);
    let mut i: usize = 0;
    while i < lines.len()
        invariant
            i <= lines.len(),
            views == line_views(lines@),
            tally.format == known_format(views.take(i as int), format),
            tally.total_lines == i,
            tally.invalid_lines <= i,
            forall|j: int|
                0 <= j < valid_texts(views.take(i as int), format).len() ==> tokenizable(
                    #[trigger] valid_texts(views.take(i as int), format)[j],
                ),
        decreases lines.len() - i,
    {
        let ghost before = valid_texts(views.take(i as int), format);
        proof {
            assert(views.take(i + 1).drop_last() =~= views.take(i as int));
            assert(views[i as int] == lines@[i as int]@);
        }
        match tally.take_line(&lines[i]) {
            Some(text) => {
                let ghost after = valid_texts(views.take(i + 1), format);
                assert(after == before.push(text@));
                if !can_tokenize(text.as_str()) {
                    proof {
                        lemma_valid_texts_grow(views, format, i + 1, views.len() as int);
                        assert(views.take(views.len() as int) =~= views);
                        assert(after[before.len() as int] == text@);
                        assert(valid_texts(views, format).take(after.len() as int)[before.len() as int]
                            == text@);
                    }
                    return false;
                }
            },
            None => {
                assert(valid_texts(views.take(i + 1), format) == before);
            },
        }
        i += 1;
    }
    assert(views.take(i as int) =~= views);
    true
}

/// Collects the statistics of lines.
pub fn stats(
    lines: &Vec<Line>,
    format: Option<Format>,
    tokenizer_name: &str,
    calculate_percentiles: bool,
) -> (r: Result<StatsSummary, Error>)
    requires
        all_tokenizable(line_views(lines@), format),
    ensures
        tokenizer_name@ != "cl100k_base"@ ==> r is Err && r->Err_0@
            == ErrorView::UnsupportedTokenizer(tokenizer_name@),
        tokenizer_name@ == "cl100k_base"@ ==> r == Ok::<StatsSummary, Error>(
            summary_of(line_views(lines@), format, calculate_percentiles),
        ),
{
    match Tokenizer::load(tokenizer_name) {
        Ok(tokenizer) => Ok(stats_with(lines, format, &tokenizer, calculate_percentiles)),
        Err(e) => Err(e),
    }
}

/// Collects the statistics of lines as `stats` does, where the tokens of all valid lines can be
/// counted.
pub fn try_stats(
    lines: &Vec<Line>,
    format: Option<Format>,
    tokenizer_name: &str,
    calculate_percentiles: bool,
) -> (r: Option<Result<StatsSummary, Error>>)
    ensures
        r is None <==> !all_tokenizable(line_views(lines@), format),
        r is Some && tokenizer_name@ != "cl100k_base"@ ==> r->0 is Err && r->0->Err_0@
            == ErrorView::UnsupportedTokenizer(tokenizer_name@),
        r is Some && tokenizer_name@ == "cl100k_base"@ ==> r->0 == Ok::<StatsSummary, Error>(
            summary_of(line_views(lines@), format, calculate_percentiles),
        ),
{
    if can_collect(lines, format) {
        Some(stats(lines, format, tokenizer_name, calculate_percentiles))
    } else {
        None
    }
}

/// Each number lies between the least and the greatest.
proof fn lemma_extremes(counts: Seq<u64>, i: int)
    requires
        0 <= i < counts.len(),
    ensures
        least(counts) <= counts[i] <= greatest(counts),
    decreases counts.len(),
{
    if i < counts.len() - 1 {
        lemma_extremes(counts.drop_last(), i);
    }
}

/// The least and the greatest of numbers are among them.
proof fn lemma_extremes_occur(counts: Seq<u64>)
    requires
        counts.len() > 0,
    ensures
        counts.contains(least(counts)),
        counts.contains(greatest(counts)),
    decreases counts.len(),
{
    let last = counts.len() - 1;
    assert(counts[last] == counts.last());
    let rest = counts.drop_last();
    if rest.len() > 0 {
        lemma_extremes_occur(rest);
        let low = choose|k: int| 0 <= k < rest.len() && rest[k] == least(rest);
        let high = choose|k: int| 0 <= k < rest.len() && rest[k] == greatest(rest);
        assert(counts[low] == least(rest));
        assert(counts[high] == greatest(rest));
    } else {
        assert(least(rest) == u64::MAX && greatest(rest) == 0);
        assert(least(counts) == counts.last() && greatest(counts) == counts.last());
    }
}

/// The percentiles do not decrease, and lie between the least and the greatest number.
pub proof fn law_percentiles_ascend(counts: Seq<u64>)
    requires
        counts.len() > 0,
    ensures
        ({
            let p = percentiles_of(counts);
            least(counts) <= p.p25 <= p.p50 <= p.p75 <= p.p90 <= p.p99 <= greatest(counts)
        }),
{
    let leq = |x: u64, y: u64| x <= y;
    let sorted = ascending(counts);
    lemma_numbers_ordered();
    counts.lemma_sort_by_ensures(leq);
    sorted.to_multiset_ensures();
    counts.to_multiset_ensures();
    let n = counts.len();
    assert(sorted.len() == n);
    let a = percentile_place(25, n);
    let b = percentile_place(50, n);
    let c = percentile_place(75, n);
    let d = percentile_place(90, n);
    let e = percentile_place(99, n);
    assert(0 <= a <= b <= c <= d <= e < n);
    assert(forall|i: int, j: int| 0 <= i < j < n ==> leq(sorted[i], sorted[j]));
    assert(leq(sorted[a], sorted[b]) || a == b);
    assert(leq(sorted[b], sorted[c]) || b == c);
    assert(leq(sorted[c], sorted[d]) || c == d);
    assert(leq(sorted[d], sorted[e]) || d == e);
    assert(sorted.contains(sorted[a]) && sorted.contains(sorted[e]));
    assert(counts.contains(sorted[a]) && counts.contains(sorted[e]));
    let low = choose|k: int| 0 <= k < n && counts[k] == sorted[a];
    let high = choose|k: int| 0 <= k < n && counts[k] == sorted[e];
    lemma_extremes(counts, low);
    lemma_extremes(counts, high);
}

/// Every line is valid or invalid. Where some are valid, the least and the greatest count are
/// counts of valid lines, and no count is outside them.
pub proof fn law_summary_is_consistent(
    lines: Seq<LineView>,
    given: Option<Format>,
    percentiles: bool,
)
    requires
        lines.len() <= u64::MAX,
    ensures
        ({
            let s = summary_of(lines, given, percentiles);
            let counts = token_counts(valid_texts(lines, given));
            &&& s.total_lines == lines.len()
            &&& s.valid_lines + s.invalid_lines == s.total_lines
            &&& s.valid_lines > 0 ==> counts.contains(s.min_tokens) && counts.contains(s.max_tokens)
            &&& forall|i: int|
                0 <= i < counts.len() ==> s.min_tokens <= #[trigger] counts[i] <= s.max_tokens
            &&& s.valid_lines == 0 ==> s.min_tokens == 0 && s.max_tokens == 0 && s.total_tokens == 0
            &&& s.percentiles is Some <==> percentiles && s.valid_lines > 0
        }),
{
    lemma_valid_texts_len(lines, given);
    let counts = token_counts(valid_texts(lines, given));
    if counts.len() > 0 {
        lemma_extremes_occur(counts);
    }
    assert forall|i: int| 0 <= i < counts.len() implies least(counts) <= #[trigger] counts[i]
        <= greatest(counts) by {
        lemma_extremes(counts, i);
    }
}

/// The first valid line tells the format of all others: where none is given, all valid lines are
/// of one format.
pub proof fn law_one_format(lines: Seq<LineView>, given: Option<Format>, i: int)
    requires
        0 <= i < lines.len(),
        known_format(lines.take(i), given) is Some,
    ensures
        known_format(lines, given) == known_format(lines.take(i), given),
    decreases lines.len(),
{
    let rest = lines.drop_last();
    if i < rest.len() {
        assert(rest.take(i) =~= lines.take(i));
        law_one_format(rest, given, i);
    } else {
        assert(lines.take(i) =~= rest);
    }
}

/// One more valid line with `tokens` tokens adds these to the total.
pub proof fn law_total_grows_by_each_count(counts: Seq<u64>, tokens: u64)
    ensures
        sum(Seq::empty()) == 0,
        sum(counts.push(tokens)) == sum(counts) + tokens,
{
    assert(counts.push(tokens).drop_last() =~= counts);
}

/// The sum of numbers is what adding them up one by one gives, and lies between their number times
/// the least and the greatest.
proof fn lemma_sum(counts: Seq<u64>)
    ensures
        sum(counts) == counts.map_values(|c: u64| c as int).fold_left(0int, |a: int, c: int| a + c),
        counts.len() > 0 ==> counts.len() * least(counts) <= sum(counts) <= counts.len() * greatest(
            counts,
        ),
    decreases counts.len(),
{
    let values = counts.map_values(|c: u64| c as int);
    if counts.len() > 0 {
        let rest = counts.drop_last();
        lemma_sum(rest);
        assert(values.drop_last() =~= rest.map_values(|c: u64| c as int));
        let n = rest.len() as int;
        let low = least(counts) as int;
        let high = greatest(counts) as int;
        if n > 0 {
            let few = least(rest) as int;
            let many = greatest(rest) as int;
            assert(n * low <= n * few) by (nonlinear_arith)
                requires
                    n >= 0,
                    low <= few,
            ;
            assert(n * many <= n * high) by (nonlinear_arith)
                requires
                    n >= 0,
                    many <= high,
            ;
        } else {
            assert(sum(rest) == 0 && least(rest) == u64::MAX && greatest(rest) == 0);
            assert(n * low == 0 && n * high == 0) by (nonlinear_arith)
                requires
                    n == 0,
            ;
        }
        assert((n + 1) * low == n * low + low) by (nonlinear_arith);
        assert((n + 1) * high == n * high + high) by (nonlinear_arith);
    }
}

/// The total of a dataset is the sum of the token counts of its valid lines, as long as that is
/// below two to the 64th, and so the mean lies between the least and the greatest count.
pub proof fn law_total_is_the_sum_of_counts(
    lines: Seq<LineView>,
    given: Option<Format>,
    percentiles: bool,
)
    requires
        lines.len() <= u64::MAX,
        valid_texts(lines, given).map_values(
            |text: Seq<char>| cl100k_tokens(text).len() as u64 as int,
        ).fold_left(0int, |a: int, c: int| a + c) <= u64::MAX,
    ensures
        ({
            let s = summary_of(lines, given, percentiles);
            &&& s.total_tokens == valid_texts(lines, given).map_values(
                |text: Seq<char>| cl100k_tokens(text).len() as u64 as int,
            ).fold_left(0int, |a: int, c: int| a + c)
            &&& s.valid_lines * s.min_tokens <= s.total_tokens <= s.valid_lines * s.max_tokens
        }),
{
    let items = valid_texts(lines, given);
    let counts = token_counts(items);
    lemma_valid_texts_len(lines, given);
    lemma_sum(counts);
    assert(counts.map_values(|c: u64| c as int) =~= items.map_values(
        |text: Seq<char>| cl100k_tokens(text).len() as u64 as int,
    ));
    let s = summary_of(lines, given, percentiles);
    if counts.len() > 0 {
        assert(s.valid_lines == counts.len() && s.min_tokens == least(counts) && s.max_tokens
            == greatest(counts));
    } else {
        assert(s.valid_lines * s.min_tokens == 0 && s.valid_lines * s.max_tokens == 0)
            by (nonlinear_arith)
            requires
                s.valid_lines == 0,
        ;
    }
}

/// How one more line changes a summary. A line that cannot be read as a record of the format, or
/// has a speaker that the format does not know, is counted as invalid and changes nothing else. A
/// valid one adds its tokens to the total, and lowers the least or raises the greatest count where
/// it is beyond it.
#[verifier::spinoff_prover]
pub proof fn law_one_more_line(lines: Seq<LineView>, line: LineView, given: Option<Format>)
    requires
        lines.len() < u64::MAX,
    ensures
        ({
            let before = summary_of(lines, given, false);
            let after = summary_of(lines.push(line), given, false);
            let known = known_format(lines, given);
            &&& after.total_lines == before.total_lines + 1
            &&& admitted(line, known) is None ==> after == (StatsSummary {
                total_lines: after.total_lines,
                invalid_lines: (before.invalid_lines + 1) as u64,
                ..before
            })
            &&& admitted(line, known) matches Some((_, text)) ==> {
                let tokens = cl100k_tokens(text).len() as u64;
                &&& after.valid_lines == before.valid_lines + 1
                &&& after.invalid_lines == before.invalid_lines
                &&& after.total_tokens == (before.total_tokens + tokens) % 0x1_0000_0000_0000_0000
                &&& after.min_tokens == if before.valid_lines == 0 || tokens < before.min_tokens {
                    tokens
                } else {
                    before.min_tokens
                }
                &&& after.max_tokens == if tokens > before.max_tokens {
                    tokens
                } else {
                    before.max_tokens
                }
            }
        }),
{
    let more = lines.push(line);
    lemma_valid_texts_len(lines, given);
    lemma_valid_texts_len(more, given);
    assert(more.drop_last() =~= lines);
    let counts = token_counts(valid_texts(lines, given));
    let known = known_format(lines, given);
    if admitted(line, known) is Some {
        let (_, text) = admitted(line, known)->0;
        let tokens = cl100k_tokens(text).len() as u64;
        assert(token_counts(valid_texts(more, given)) =~= counts.push(tokens));
        assert(counts.push(tokens).drop_last() =~= counts);
        assert((sum(counts) + tokens) % 0x1_0000_0000_0000_0000 == (sum(counts)
            % 0x1_0000_0000_0000_0000 + tokens) % 0x1_0000_0000_0000_0000);
        if counts.len() > 0 {
            lemma_extremes(counts, 0);
        } else {
            assert(least(counts) == u64::MAX && greatest(counts) == 0);
        }
        assert(least(counts.push(tokens)) == if tokens < least(counts) {
            tokens
        } else {
            least(counts)
        });
        assert(greatest(counts.push(tokens)) == if tokens > greatest(counts) {
            tokens
        } else {
            greatest(counts)
        });
    } else {
        assert(valid_texts(more, given) == valid_texts(lines, given));
    }
}

/// A line counts where it is a record of the known format with only the speakers of that format,
/// or, where none is known yet, of the format that the line itself is told as; its canonical text
/// is counted.
pub proof fn law_valid_lines_count(line: LineView, known: Option<Format>)
    ensures
        known == Some(Format::Alpaca) ==> admitted(line, known) == match line.reading.alpaca {
            Ok(a) => Some(
                (Format::Alpaca, a.instruction + seq!['\n'] + a.input + seq!['\n'] + a.output),
            ),
            Err(_) => None,
        },
        known == Some(Format::ShareGPT) ==> (admitted(line, known) is Some <==> line.reading.sharegpt
            is Ok && forall|i: int|
            0 <= i < line.reading.sharegpt->Ok_0.len() ==> {
                let speaker = (#[trigger] line.reading.sharegpt->Ok_0[i]).speaker;
                speaker == "human"@ || speaker == "gpt"@ || speaker == "system"@
            }),
        known == Some(Format::ChatML) ==> (admitted(line, known) is Some <==> line.reading.chatml
            is Ok && forall|i: int|
            0 <= i < line.reading.chatml->Ok_0.len() ==> {
                let speaker = (#[trigger] line.reading.chatml->Ok_0[i]).speaker;
                speaker == "user"@ || speaker == "assistant"@ || speaker == "system"@
            }),
        known matches Some(f) && f != Format::Alpaca && f != Format::ShareGPT && f != Format::ChatML
            ==> admitted(line, known) is None,
        known is None ==> admitted(line, known) == match format_of_line(line.text) {
            Ok(f) => admitted(line, Some(f)),
            Err(_) => None,
        },
        known matches Some(f) ==> (admitted(line, known) matches Some((format, text)) ==> format == f
            && reading_text(line.reading, f) == Ok::<Seq<char>, ErrorView>(text)),
{
}

/// A percentile is the count at the place in ascending order that is nearest to its part of the
/// way from the first to the last, the later one where two are as near.
pub proof fn law_percentiles_are_nearest_places(counts: Seq<u64>, place: int)
    requires
        0 <= place < counts.len(),
    ensures
        ({
            let sorted = counts.sort_by(|x: u64, y: u64| x <= y);
            let way = counts.len() - 1;
            let p = percentiles_of(counts);
            &&& 100 * place - 50 <= 25 * way < 100 * place + 50 ==> p.p25 == sorted[place]
            &&& 100 * place - 50 <= 50 * way < 100 * place + 50 ==> p.p50 == sorted[place]
            &&& 100 * place - 50 <= 75 * way < 100 * place + 50 ==> p.p75 == sorted[place]
            &&& 100 * place - 50 <= 90 * way < 100 * place + 50 ==> p.p90 == sorted[place]
            &&& 100 * place - 50 <= 99 * way < 100 * place + 50 ==> p.p99 == sorted[place]
        }),
{
}

/// The percentiles of a summary are those of the token counts of all valid lines.
pub proof fn law_percentiles_of_all_counts(lines: Seq<LineView>, given: Option<Format>)
    requires
        lines.len() <= u64::MAX,
    ensures
        valid_texts(lines, given).len() > 0 ==> summary_of(lines, given, true).percentiles == Some(
            percentiles_of(
                valid_texts(lines, given).map_values(
                    |text: Seq<char>| cl100k_tokens(text).len() as u64,
                ),
            ),
        ),
        summary_of(lines, given, true) == (StatsSummary {
            percentiles: summary_of(lines, given, true).percentiles,
            ..summary_of(lines, given, false)
        }),
{
    assert(token_counts(valid_texts(lines, given)) =~= valid_texts(lines, given).map_values(
        |text: Seq<char>| cl100k_tokens(text).len() as u64,
    ));
}

/// The format is the given one, or that of the first valid line; the texts that count are those of
/// the valid lines, one for each, in order.
pub proof fn law_valid_lines_are_taken_in_order(
    lines: Seq<LineView>,
    line: LineView,
    given: Option<Format>,
)
    ensures
        known_format(Seq::empty(), given) == given,
        valid_texts(Seq::empty(), given).len() == 0,
        match admitted(line, known_format(lines, given)) {
            Some((format, text)) => known_format(lines.push(line), given) == Some(format)
                && valid_texts(lines.push(line), given) == valid_texts(lines, given).push(text),
            None => known_format(lines.push(line), given) == known_format(lines, given)
                && valid_texts(lines.push(line), given) == valid_texts(lines, given),
        },
        all_tokenizable(lines, given) <==> forall|i: int|
            0 <= i < valid_texts(lines, given).len() ==> tokenizable(
                #[trigger] valid_texts(lines, given)[i],
            ),
{
    assert(lines.push(line).drop_last() =~= lines);
}

} // verus!
