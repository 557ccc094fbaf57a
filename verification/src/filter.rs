//! Removing samples of low quality.

use vstd::prelude::*;
use vstd::string::StrSliceExecFns;

use crate::detect::{detect, format_of_line};
use crate::error::{Error, ErrorView};
use crate::format::Format;
use crate::record::{
    reading_text, ChatML, Line, LineView, Reading, ReadingView, ShareGPT, Turn,
};
use crate::select::{
    count_marks, first_mark, law_selection_keeps_order, lemma_all_selected, lemma_first_mark,
    lemma_first_mark_is, lemma_selected_len, lemma_selected_step, line_texts, line_views, places,
    selected,
};
use crate::text::{contains, join_lines, joined, lower_text, occurs, same_text, texts, to_lowercase};
use crate::tokenizer::{can_tokenize, cl100k_tokens, tokenizable, Tokenizer};

verus! {

/// Which samples stay.
#[derive(Debug, Clone, PartialEq, Eq)]
pub struct FilterOptions {
    pub min_tokens: Option<u32>,
    pub max_tokens: Option<u32>,
    pub min_chars: Option<u32>,
    pub max_chars: Option<u32>,
    pub remove_refusals: bool,
    pub tokenizer_name: Option<String>,
    /// Whether there is a bound on the perplexity; the scorer knows which.
    pub perplexity_threshold: bool,
    pub model_path: Option<String>,
}

impl Default for FilterOptions {
    fn default() -> (r: Self)
        ensures
            r.min_tokens is None,
            r.max_tokens is None,
            r.min_chars is None,
            r.max_chars is None,
            !r.remove_refusals,
            r.tokenizer_name is None,
            !r.perplexity_threshold,
            r.model_path is None,
    {
        FilterOptions {
            min_tokens: None,
            max_tokens: None,
            min_chars: None,
            max_chars: None,
            remove_refusals: false,
            tokenizer_name: None,
            perplexity_threshold: false,
            model_path: None,
        }
    }
}

/// How many samples were kept, removed, and not understood.
#[derive(Debug, Clone, Copy, PartialEq, Eq, Structural)]
pub struct FilterSummary {
    pub kept: u64,
    pub removed: u64,
    pub error: u64,
}

impl Default for FilterSummary {
    fn default() -> (r: Self)
        ensures
            r.kept == 0,
            r.removed == 0,
            r.error == 0,
    {
        FilterSummary { kept: 0, removed: 0, error: 0 }
    }
}

/// What becomes of a line that does not end the run.
#[derive(Debug, Clone, Copy, PartialEq, Eq, Structural)]
pub enum Outcome {
    Kept,
    Removed,
    Malformed,
}

impl FilterSummary {
    /// How many lines were counted.
    pub open spec fn lines(self) -> int {
        self.kept + self.removed + self.error
    }

    /// Counts a line.
    pub fn count(&mut self, outcome: Outcome)
        requires
            old(self).lines() < u64::MAX,
        ensures
            final(self).lines() == old(self).lines() + 1,
            final(self).kept == old(self).kept + if outcome == Outcome::Kept {
                1int
            } else {
                0int
            },
            final(self).removed == old(self).removed + if outcome == Outcome::Removed {
                1int
            } else {
                0int
            },
            final(self).error == old(self).error + if outcome == Outcome::Malformed {
                1int
            } else {
                0int
            },
    {
        match outcome {
            Outcome::Kept => {
                self.kept = self.kept + 1;
            },
            Outcome::Removed => {
                self.removed = self.removed + 1;
            },
            Outcome::Malformed => {
                self.error = self.error + 1;
            },
        }
    }
}

/// The phrases by which a refusal is told.
pub open spec fn refusal_patterns() -> Seq<Seq<char>> {
    seq![
        "as an ai language model"@,
        "as a large language model"@,
        "as an ai assistant"@,
        "i cannot and will not"@,
        "i'm not able to provide"@,
        "i am not able to provide"@,
        "it is not appropriate for me"@,
        "i must inform you that"@,
    ]
}

/// Whether a text in lower case refuses.
pub open spec fn refuses(lower: Seq<char>) -> bool {
    exists|i: int|
        0 <= i < refusal_patterns().len() && occurs(#[trigger] refusal_patterns()[i], lower)
}

/// Whether a speaker is the model.
pub open spec fn is_model(speaker: Seq<char>) -> bool {
    speaker == "gpt"@ || speaker == "assistant"@
}

/// What the model says, turn by turn.
pub open spec fn model_words(turns: Seq<Turn>) -> Seq<Seq<char>>
    decreases turns.len(),
{
    if turns.len() == 0 {
        Seq::empty()
    } else if is_model(turns.last().speaker) {
        model_words(turns.drop_last()).push(turns.last().words)
    } else {
        model_words(turns.drop_last())
    }
}

/// What the model says in a line that is read as `format`.
pub open spec fn answer(reading: ReadingView, format: Format) -> Seq<char> {
    match format {
        Format::Alpaca => reading.alpaca->Ok_0.output,
        Format::ShareGPT => joined(model_words(reading.sharegpt->Ok_0), '\n'),
        _ => joined(model_words(reading.chatml->Ok_0), '\n'),
    }
}

/// Whether a count is within bounds, as far as there are any.
pub open spec fn within(count: nat, min: Option<u32>, max: Option<u32>) -> bool {
    &&& min matches Some(least) ==> count >= least
    &&& max matches Some(most) ==> count <= most
}

/// What becomes of a line before its tokens are counted.
pub enum Screened {
    /// It is of no known format.
    Malformed,
    /// It is no record of its format.
    Failed(ErrorView),
    /// It refuses, or its length is out of bounds.
    Removed,
    /// It passes, with this canonical text.
    Passed(Seq<char>),
}

/// What becomes of a line before its tokens are counted.
pub open spec fn screened(line: LineView, options: FilterOptions) -> Screened {
    match format_of_line(line.text) {
        Err(_) => Screened::Malformed,
        Ok(format) => match reading_text(line.reading, format) {
            Err(e) => Screened::Failed(e),
            Ok(text) => if options.remove_refusals && refuses(
                lower_text(answer(line.reading, format)),
            ) {
                Screened::Removed
            } else if !within(text.len(), options.min_chars, options.max_chars) {
                Screened::Removed
            } else {
                Screened::Passed(text)
            },
        },
    }
}

impl FilterOptions {
    /// Whether tokens have to be counted.
    pub open spec fn counts_tokens(self) -> bool {
        self.min_tokens is Some || self.max_tokens is Some
    }

    /// Whether perplexity has to be scored.
    pub open spec fn scores(self) -> bool {
        self.perplexity_threshold && self.model_path is Some
    }

    /// The name of the tokenizer.
    pub open spec fn tokenizer(self) -> Seq<char> {
        match self.tokenizer_name {
            Some(name) => name@,
            None => "cl100k_base"@,
        }
    }

    /// Whether a bound on tokens is set.
    pub fn needs_tokenizer(&self) -> (r: bool)
        ensures
            r == self.counts_tokens(),
    {
        self.min_tokens.is_some() || self.max_tokens.is_some()
    }

    /// Whether a bound on perplexity is set, and a model to score it with.
    pub fn needs_scorer(&self) -> (r: bool)
        ensures
            r == self.scores(),
    {
        self.perplexity_threshold && self.model_path.is_some()
    }

    /// Loads the tokenizer, where it is needed.
    pub fn load_tokenizer(&self) -> (r: Result<Option<Tokenizer>, Error>)
        ensures
            !self.counts_tokens() ==> (r matches Ok(None)),
            self.counts_tokens() && self.tokenizer() == "cl100k_base"@ ==> r matches Ok(Some(_)),
            self.counts_tokens() && self.tokenizer() != "cl100k_base"@ ==> r is Err && r->Err_0@
                == ErrorView::UnsupportedTokenizer(self.tokenizer()),
    {
        if !self.needs_tokenizer() {
            return Ok(None);
        }
        let name = match &self.tokenizer_name {
            Some(name) => name.as_str(),
            None => "cl100k_base",
        };
        match Tokenizer::load(name) {
            Ok(tokenizer) => Ok(Some(tokenizer)),
            Err(e) => Err(e),
        }
    }
}

/// Whether a text in lower case refuses.
pub fn is_refusal(lower: &str) -> (r: bool)
    ensures
        r == refuses(lower@),
{
    let ghost patterns = refusal_patterns();
    let r = contains(lower, "as an ai language model") || contains(
        lower,
        "as a large language model",
    ) || contains(lower, "as an ai assistant") || contains(lower, "i cannot and will not")
        || contains(lower, "i'm not able to provide") || contains(
        lower,
        "i am not able to provide",
    ) || contains(lower, "it is not appropriate for me") || contains(
        lower,
        "i must inform you that",
    );
    proof {
        assert(r == (occurs(patterns[0], lower@) || occurs(patterns[1], lower@) || occurs(
            patterns[2],
            lower@,
        ) || occurs(patterns[3], lower@) || occurs(patterns[4], lower@) || occurs(
            patterns[5],
            lower@,
        ) || occurs(patterns[6], lower@) || occurs(patterns[7], lower@)));
    }
    r
}

/// Whether a count is within bounds, as far as there are any.
pub fn in_bounds(count: usize, min: Option<u32>, max: Option<u32>) -> (r: bool)
    ensures
        r == within(count as nat, min, max),
{
    let long_enough = match min {
        Some(least) => count as u64 >= least as u64,
        None => true,
    };
    let short_enough = match max {
        Some(most) => count as u64 <= most as u64,
        None => true,
    };
    long_enough && short_enough
}

impl ShareGPT {
    /// What the model says, joined with line feeds.
    pub fn answer_text(&self) -> (r: String)
        ensures
            r@ == joined(model_words(self@), '\n'),
    {
        let mut parts: Vec<&str> = Vec::new();
        let mut i: usize = 0;
        assert(parts@.map_values(|p: &str| p@) =~= model_words(self@.take(0)));
        while i < self.conversations.len()
            invariant
                i <= self.conversations.len(),
                parts@.map_values(|p: &str| p@) == model_words(self@.take(i as int)),
            decreases self.conversations.len() - i,
        {
            let turn = &self.conversations[i];
            assert(self@.take(i + 1).drop_last() =~= self@.take(i as int));
            assert(self@[i as int] == turn@);
            if same_text(turn.from.as_str(), "gpt") || same_text(turn.from.as_str(), "assistant") {
                let ghost earlier = parts@;
                parts.push(turn.value.as_str());
                assert(parts@.map_values(|p: &str| p@) =~= earlier.map_values(|p: &str| p@).push(
                    turn@.words,
                ));
            }
            i += 1;
        }
        assert(self@.take(i as int) =~= self@);
        join_lines(&parts)
    }
}

impl ChatML {
    /// What the model says, joined with line feeds.
    pub fn answer_text(&self) -> (r: String)
        ensures
            r@ == joined(model_words(self@), '\n'),
    {
        let mut parts: Vec<&str> = Vec::new();
        let mut i: usize = 0;
        assert(parts@.map_values(|p: &str| p@) =~= model_words(self@.take(0)));
        while i < self.messages.len()
            invariant
                i <= self.messages.len(),
                parts@.map_values(|p: &str| p@) == model_words(self@.take(i as int)),
            decreases self.messages.len() - i,
        {
            let message = &self.messages[i];
            assert(self@.take(i + 1).drop_last() =~= self@.take(i as int));
            assert(self@[i as int] == message@);
            if same_text(message.role.as_str(), "assistant") || same_text(
                message.role.as_str(),
                "gpt",
            ) {
                let ghost earlier = parts@;
                parts.push(message.content.as_str());
                assert(parts@.map_values(|p: &str| p@) =~= earlier.map_values(|p: &str| p@).push(
                    message@.words,
                ));
            }
            i += 1;
        }
        assert(self@.take(i as int) =~= self@);
        join_lines(&parts)
    }
}

/// Whether the model refuses in a line that is read as `format`.
fn reading_refuses(reading: &Reading, format: Format) -> (r: bool)
    requires
        reading_text(reading@, format) is Ok,
    ensures
        r == refuses(lower_text(answer(reading@, format))),
{
    match format {
        Format::Alpaca => match &reading.alpaca {
            Ok(a) => is_refusal(to_lowercase(a.output.as_str()).as_str()),
            Err(_) => false,
        },
        Format::ShareGPT => match &reading.sharegpt {
            Ok(s) => is_refusal(to_lowercase(s.answer_text().as_str()).as_str()),
            Err(_) => false,
        },
        _ => match &reading.chatml {
            Ok(c) => is_refusal(to_lowercase(c.answer_text().as_str()).as_str()),
            Err(_) => false,
        },
    }
}

/// The outcome of a line's first checks.
#[derive(Debug)]
pub enum Screening {
    /// The line is of no known format.
    Malformed,
    /// The line is removed.
    Removed,
    /// The line passes, with this canonical text.
    Passed(String),
}

/// Checks a line before its tokens are counted.
pub fn screen(line: &Line, options: &FilterOptions) -> (r: Result<Screening, Error>)
    ensures
        match screened(line@, *options) {
            Screened::Malformed => r matches Ok(Screening::Malformed),
            Screened::Failed(e) => r is Err && r->Err_0@ == e,
            Screened::Removed => r matches Ok(Screening::Removed),
            Screened::Passed(text) => r matches Ok(Screening::Passed(s)) && s@ == text,
        },
{
    let format = match detect(line.text.as_str()) {
        Ok(format) => format,
        Err(_) => return Ok(Screening::Malformed),
    };
    let text = match line.reading.canonical_text(format) {
        Ok(text) => text,
        Err(e) => return Err(e),
    };
    if options.remove_refusals && reading_refuses(&line.reading, format) {
        return Ok(Screening::Removed);
    }
    if !in_bounds(text.as_str().unicode_len(), options.min_chars, options.max_chars) {
        return Ok(Screening::Removed);
    }
    Ok(Screening::Passed(text))
}

/// What becomes of a line.
pub enum Fate {
    Malformed,
    Failed(ErrorView),
    Removed,
    Kept,
}

/// What becomes of a line, given whether it is too perplexing for the scorer.
pub open spec fn fate(line: LineView, options: FilterOptions, perplexing: bool) -> Fate {
    match screened(line, options) {
        Screened::Malformed => Fate::Malformed,
        Screened::Failed(e) => Fate::Failed(e),
        Screened::Removed => Fate::Removed,
        Screened::Passed(text) => if options.counts_tokens() && !within(
            cl100k_tokens(text).len(),
            options.min_tokens,
            options.max_tokens,
        ) {
            Fate::Removed
        } else if options.scores() && perplexing {
            Fate::Removed
        } else {
            Fate::Kept
        },
    }
}

/// For each line whether it ends the run.
pub open spec fn failing(lines: Seq<LineView>, options: FilterOptions) -> Seq<bool> {
    Seq::new(lines.len(), |i: int| screened(lines[i], options) is Failed)
}

/// For each line whether it is of no known format.
pub open spec fn malformed(lines: Seq<LineView>, options: FilterOptions) -> Seq<bool> {
    Seq::new(lines.len(), |i: int| screened(lines[i], options) is Malformed)
}

/// For each line whether it is kept.
pub open spec fn kept(lines: Seq<LineView>, options: FilterOptions, perplexing: Seq<bool>) -> Seq<
    bool,
> {
    Seq::new(lines.len(), |i: int| fate(lines[i], options, perplexing[i]) is Kept)
}

/// Whether the tokens of all lines can be counted that they have to be counted of.
pub open spec fn countable(lines: Seq<LineView>, options: FilterOptions) -> bool {
    options.counts_tokens() ==> forall|i: int|
        0 <= i < first_mark(failing(lines, options)) && #[trigger] screened(lines[i], options)
            is Passed ==> tokenizable(screened(lines[i], options)->Passed_0)
}

/// What a run over lines does: it writes the lines that are kept, in order, and counts them; a
/// line that is no record of its format ends the run.
pub open spec fn filtered(
    lines: Seq<LineView>,
    options: FilterOptions,
    perplexing: Seq<bool>,
    before: Seq<Seq<char>>,
    after: Seq<Seq<char>>,
    r: Result<FilterSummary, Error>,
) -> bool {
    let end = first_mark(failing(lines, options));
    let marks = kept(lines, options, perplexing);
    &&& 0 <= end <= lines.len()
    &&& after == before + selected(line_texts(lines).take(end), marks.take(end))
    &&& r is Ok <==> end == lines.len()
    &&& r matches Ok(summary) ==> {
        &&& summary.kept == count_marks(marks)
        &&& summary.error == count_marks(malformed(lines, options))
        &&& summary.kept + summary.removed + summary.error == lines.len()
    }
    &&& r matches Err(e) ==> screened(lines[end], options) == Screened::Failed(e@)
}

/// What becomes of a line that passed its first checks, given whether its tokens are within bounds
/// and whether it is too perplexing.
pub fn settle(tokens_pass: bool, perplexing: bool) -> (r: Outcome)
    ensures
        r == if tokens_pass && !perplexing {
            Outcome::Kept
        } else {
            Outcome::Removed
        },
{
    if tokens_pass && !perplexing {
        Outcome::Kept
    } else {
        Outcome::Removed
    }
}

/// Whether the tokens of a text are within bounds.
pub fn tokens_pass(tokenizer: &Tokenizer, text: &str, options: &FilterOptions) -> (r: bool)
    requires
        tokenizable(text@),
    ensures
        r == within(cl100k_tokens(text@).len(), options.min_tokens, options.max_tokens),
{
    in_bounds(tokenizer.count(text), options.min_tokens, options.max_tokens)
}

/// Filters lines, given a tokenizer where one is needed, and for each line whether it is too
/// perplexing where that is scored.
pub fn filter_with(
    lines: &Vec<Line>,
    perplexing: &Vec<bool>,
    tokenizer: &Option<Tokenizer>,
    output: &mut Vec<String>,
    options: &FilterOptions,
) -> (r: Result<FilterSummary, Error>)
    requires
        tokenizer is Some <==> options.counts_tokens(),
        options.scores() ==> perplexing.len() == lines.len(),
        countable(line_views(lines@), *options),
    ensures
        filtered(
            line_views(lines@),
            *options,
            perplexing@,
            texts(old(output)@),
            texts(final(output)@),
            r,
        ),
{
    let ghost views = line_views(lines@);
    let ghost all = line_texts(views);
    let ghost ends = failing(views, *options);
    let ghost bad = malformed(views, *options);
    let ghost marks = kept(views, *options, perplexing@);
    let ghost before = texts(output@);
    let mut summary = FilterSummary::default();
    let mut i: usize = 0;
    assert(texts(output@) =~= before + selected(all.take(0), marks.take(0)));
    while i < lines.len()
        invariant
            i <= lines.len(),
            tokenizer is Some <==> options.counts_tokens(),
            options.scores() ==> perplexing.len() == lines.len(),
            countable(views, *options),
            views == line_views(lines@),
            all == line_texts(views),
            ends == failing(views, *options),
            bad == malformed(views, *options),
            marks == kept(views, *options, perplexing@),
            before == texts(old(output)@),
            summary.kept + summary.removed + summary.error == i,
            summary.kept == count_marks(marks.take(i as int)),
            summary.error == count_marks(bad.take(i as int)),
            texts(output@) == before + selected(all.take(i as int), marks.take(i as int)),
            forall|j: int| 0 <= j < i ==> !#[trigger] ends[j],
        decreases lines.len() - i,
    {
        let line = &lines[i];
        let ghost at = i as int;
        proof {
            assert(views[at] == line@);
            lemma_selected_step(all, marks, at);
            lemma_selected_step(all, bad, at);
            assert(marks[at] == fate(views[at], *options, perplexing@[at]) is Kept);
            assert(bad[at] == screened(views[at], *options) is Malformed);
            assert(ends[at] == screened(views[at], *options) is Failed);
        }
        let outcome = match screen(line, options) {
            Err(e) => {
                proof {
                    lemma_first_mark_is(ends, at);
                }
                return Err(e);
            },
            Ok(Screening::Malformed) => Outcome::Malformed,
            Ok(Screening::Removed) => Outcome::Removed,
            Ok(Screening::Passed(text)) => {
                let counted = match tokenizer {
                    Some(tokenizer) => {
                        proof {
                            lemma_first_mark(ends);
                            if first_mark(ends) <= at {
                                assert(ends[first_mark(ends)]);
                            }
                        }
                        tokens_pass(tokenizer, text.as_str(), options)
                    },
                    None => true,
                };
                settle(counted, options.needs_scorer() && perplexing[i])
            },
        };
        summary.count(outcome);
        if outcome == Outcome::Kept {
            let ghost earlier = output@;
            output.push(line.text.clone());
            assert(texts(output@) =~= texts(earlier).push(all[at]));
            assert(texts(output@) =~= before + selected(all.take(at + 1), marks.take(at + 1)));
        }
        i += 1;
    }
    proof {
        lemma_first_mark_is(ends, ends.len() as int);
        assert(all.take(i as int) =~= all);
        assert(marks.take(i as int) =~= marks);
        assert(bad.take(i as int) =~= bad);
    }
    Ok(summary)
}

/// Whether the tokens of all lines can be counted that they have to be counted of.
pub fn can_count(lines: &Vec<Line>, options: &FilterOptions) -> (r: bool)
    ensures
        r == countable(line_views(lines@), *options),
{
    if !options.needs_tokenizer() {
        return true;
    }
    let ghost views = line_views(lines@);
    let ghost ends = failing(views, *options);
    let mut i: usize = 0;
    while i < lines.len()
        invariant
            i <= lines.len(),
            views == line_views(lines@),
            ends == failing(views, *options),
            options.counts_tokens(),
            forall|j: int| 0 <= j < i ==> !#[trigger] ends[j],
            forall|j: int|
                0 <= j < i && #[trigger] screened(views[j], *options) is Passed ==> tokenizable(
                    screened(views[j], *options)->Passed_0,
                ),
        decreases lines.len() - i,
    {
        let ghost at = i as int;
        assert(views[at] == lines@[at]@);
        assert(ends[at] == screened(views[at], *options) is Failed);
        match screen(&lines[i], options) {
            Err(_) => {
                proof {
                    lemma_first_mark_is(ends, at);
                }
                return true;
            },
            Ok(Screening::Passed(text)) => {
                if !can_tokenize(text.as_str()) {
                    proof {
                        lemma_first_mark(ends);
                        if first_mark(ends) <= at {
                            assert(ends[first_mark(ends)]);
                        }
                        assert(screened(views[at], *options) is Passed);
                    }
                    return false;
                }
            },
            Ok(_) => {},
        }
        i += 1;
    }
    proof {
        lemma_first_mark_is(ends, ends.len() as int);
    }
    true
}

/// Filters lines, given for each whether it is too perplexing where that is scored.
pub fn filter(
    lines: &Vec<Line>,
    perplexing: &Vec<bool>,
    output: &mut Vec<String>,
    options: &FilterOptions,
) -> (r: Result<FilterSummary, Error>)
    requires
        options.scores() ==> perplexing.len() == lines.len(),
        countable(line_views(lines@), *options),
    ensures
        options.counts_tokens() && options.tokenizer() != "cl100k_base"@ ==> r is Err
            && r->Err_0@ == ErrorView::UnsupportedTokenizer(options.tokenizer()) && final(output)@
            == old(output)@,
        !options.counts_tokens() || options.tokenizer() == "cl100k_base"@ ==> filtered(
            line_views(lines@),
            *options,
            perplexing@,
            texts(old(output)@),
            texts(final(output)@),
            r,
        ),
{
    match options.load_tokenizer() {
        Ok(tokenizer) => filter_with(lines, perplexing, &tokenizer, output, options),
        Err(e) => Err(e),
    }
}

/// Filters lines as `filter` does, where the tokens can be counted that have to be; else it does
/// nothing.
pub fn try_filter(
    lines: &Vec<Line>,
    perplexing: &Vec<bool>,
    output: &mut Vec<String>,
    options: &FilterOptions,
) -> (r: Option<Result<FilterSummary, Error>>)
    requires
        options.scores() ==> perplexing.len() == lines.len(),
    ensures
        r is None <==> !countable(line_views(lines@), *options),
        r is None ==> final(output)@ == old(output)@,
        r is Some && options.counts_tokens() && options.tokenizer() != "cl100k_base"@ ==> r->0
            is Err && r->0->Err_0@ == ErrorView::UnsupportedTokenizer(options.tokenizer())
            && final(output)@ == old(output)@,
        r is Some && (!options.counts_tokens() || options.tokenizer() == "cl100k_base"@)
            ==> filtered(
            line_views(lines@),
            *options,
            perplexing@,
            texts(old(output)@),
            texts(final(output)@),
            r->0,
        ),
{
    if !can_count(lines, options) {
        return None;
    }
    Some(filter(lines, perplexing, output, options))
}

/// A line that is kept is a record of its format, with as many characters and tokens as the bounds
/// allow, and no refusal where these are removed.
pub proof fn law_kept_lines_pass(line: LineView, options: FilterOptions, perplexing: bool)
    requires
        fate(line, options, perplexing) is Kept,
    ensures
        format_of_line(line.text) is Ok,
        ({
            let format = format_of_line(line.text)->Ok_0;
            let text = reading_text(line.reading, format);
            &&& text is Ok
            &&& within(text->Ok_0.len(), options.min_chars, options.max_chars)
            &&& options.counts_tokens() ==> within(
                cl100k_tokens(text->Ok_0).len(),
                options.min_tokens,
                options.max_tokens,
            )
            &&& options.remove_refusals ==> !refuses(lower_text(answer(line.reading, format)))
            &&& options.scores() ==> !perplexing
        }),
{
}

/// Filtering what was kept keeps all of it.
pub proof fn law_filter_is_idempotent(
    lines: Seq<LineView>,
    options: FilterOptions,
    perplexing: Seq<bool>,
)
    requires
        perplexing.len() == lines.len(),
    ensures
        ({
            let marks = kept(lines, options, perplexing);
            let rest = selected(lines, marks);
            let verdicts = selected(perplexing, marks);
            &&& first_mark(failing(rest, options)) == rest.len()
            &&& selected(rest, kept(rest, options, verdicts)) == rest
            &&& count_marks(kept(rest, options, verdicts)) == rest.len()
        }),
{
    let marks = kept(lines, options, perplexing);
    let rest = selected(lines, marks);
    let verdicts = selected(perplexing, marks);
    law_selection_keeps_order(lines, marks);
    law_selection_keeps_order(perplexing, marks);
    let again = kept(rest, options, verdicts);
    let ends = failing(rest, options);
    assert forall|i: int| 0 <= i < rest.len() implies #[trigger] again[i] && !ends[i] by {
        let place = places(marks)[i];
        assert(marks[place]);
        assert(rest[i] == lines[place]);
        assert(verdicts[i] == perplexing[place]);
    }
    assert forall|i: int| 0 <= i < ends.len() implies !#[trigger] ends[i] by {
        assert(again[i]);
    }
    lemma_first_mark_is(ends, ends.len() as int);
    lemma_all_selected(rest, again);
}

/// A line that is kept obeys each bound by itself, whatever the others are: none of its counts of
/// characters and tokens is below a least or above a greatest number that is set. Where refusals
/// are removed it is none, and where perplexity is scored it is not too perplexing.
pub proof fn law_kept_lines_obey_each_bound(
    line: LineView,
    options: FilterOptions,
    perplexing: bool,
)
    requires
        fate(line, options, perplexing) is Kept,
    ensures
        format_of_line(line.text) is Ok,
        reading_text(line.reading, format_of_line(line.text)->Ok_0) is Ok,
        ({
            let format = format_of_line(line.text)->Ok_0;
            let text = reading_text(line.reading, format)->Ok_0;
            &&& options.min_chars matches Some(least) ==> text.len() >= least
            &&& options.max_chars matches Some(most) ==> text.len() <= most
            &&& options.min_tokens matches Some(least) ==> cl100k_tokens(text).len() >= least
            &&& options.max_tokens matches Some(most) ==> cl100k_tokens(text).len() <= most
            &&& options.remove_refusals ==> !refuses(lower_text(answer(line.reading, format)))
            &&& options.perplexity_threshold && options.model_path is Some ==> !perplexing
        }),
{
}

/// A record that obeys each bound that is set, and is neither a refusal where these are removed
/// nor too perplexing where that is scored, is kept.
pub proof fn law_lines_that_obey_are_kept(
    line: LineView,
    options: FilterOptions,
    perplexing: bool,
    format: Format,
    text: Seq<char>,
)
    requires
        format_of_line(line.text) == Ok::<Format, ErrorView>(format),
        reading_text(line.reading, format) == Ok::<Seq<char>, ErrorView>(text),
        options.min_chars matches Some(least) ==> text.len() >= least,
        options.max_chars matches Some(most) ==> text.len() <= most,
        options.min_tokens matches Some(least) ==> cl100k_tokens(text).len() >= least,
        options.max_tokens matches Some(most) ==> cl100k_tokens(text).len() <= most,
        options.remove_refusals ==> !refuses(lower_text(answer(line.reading, format))),
        !(options.perplexity_threshold && options.model_path is Some && perplexing),
    ensures
        fate(line, options, perplexing) is Kept,
        !(screened(line, options) is Failed),
        !(screened(line, options) is Malformed),
{
}

/// A line is malformed exactly where its format cannot be told, and ends the run exactly where its
/// format is told but it cannot be read as such; no option and no other line changes that.
pub proof fn law_malformed_lines_are_told_by_themselves(
    line: LineView,
    options: FilterOptions,
    perplexing: bool,
)
    ensures
        fate(line, options, perplexing) is Malformed <==> format_of_line(line.text) is Err,
        screened(line, options) is Malformed <==> format_of_line(line.text) is Err,
        screened(line, options) is Failed <==> format_of_line(line.text) is Ok && reading_text(
            line.reading,
            format_of_line(line.text)->Ok_0,
        ) is Err,
        fate(line, options, perplexing) is Failed <==> screened(line, options) is Failed,
{
}

/// A text in lower case refuses exactly where one of the known phrases stands anywhere in it.
pub proof fn law_refusals_hold_a_phrase(lower: Seq<char>)
    ensures
        refuses(lower) <==> ((exists|at: int|
                0 <= at <= lower.len() - "as an ai language model"@.len() && #[trigger] lower.subrange(
                    at,
                    at + "as an ai language model"@.len(),
                ) == "as an ai language model"@)
            || (exists|at: int|
                0 <= at <= lower.len() - "as a large language model"@.len() && #[trigger] lower.subrange(
                    at,
                    at + "as a large language model"@.len(),
                ) == "as a large language model"@)
            || (exists|at: int|
                0 <= at <= lower.len() - "as an ai assistant"@.len() && #[trigger] lower.subrange(
                    at,
                    at + "as an ai assistant"@.len(),
                ) == "as an ai assistant"@)
            || (exists|at: int|
                0 <= at <= lower.len() - "i cannot and will not"@.len() && #[trigger] lower.subrange(
                    at,
                    at + "i cannot and will not"@.len(),
                ) == "i cannot and will not"@)
            || (exists|at: int|
                0 <= at <= lower.len() - "i'm not able to provide"@.len() && #[trigger] lower.subrange(
                    at,
                    at + "i'm not able to provide"@.len(),
                ) == "i'm not able to provide"@)
            || (exists|at: int|
                0 <= at <= lower.len() - "i am not able to provide"@.len() && #[trigger] lower.subrange(
                    at,
                    at + "i am not able to provide"@.len(),
                ) == "i am not able to provide"@)
            || (exists|at: int|
                0 <= at <= lower.len() - "it is not appropriate for me"@.len() && #[trigger] lower.subrange(
                    at,
                    at + "it is not appropriate for me"@.len(),
                ) == "it is not appropriate for me"@)
            || (exists|at: int|
                0 <= at <= lower.len() - "i must inform you that"@.len() && #[trigger] lower.subrange(
                    at,
                    at + "i must inform you that"@.len(),
                ) == "i must inform you that"@)),
{
    let patterns = refusal_patterns();
    assert(patterns.len() == 8);
    assert(patterns[0] == "as an ai language model"@);
    assert(patterns[1] == "as a large language model"@);
    assert(patterns[2] == "as an ai assistant"@);
    assert(patterns[3] == "i cannot and will not"@);
    assert(patterns[4] == "i'm not able to provide"@);
    assert(patterns[5] == "i am not able to provide"@);
    assert(patterns[6] == "it is not appropriate for me"@);
    assert(patterns[7] == "i must inform you that"@);
    if refuses(lower) {
        let i = choose|i: int|
            0 <= i < patterns.len() && occurs(#[trigger] patterns[i], lower);
        assert(i == 0 || i == 1 || i == 2 || i == 3 || i == 4 || i == 5 || i == 6 || i == 7);
    }
    if (exists|at: int|
        0 <= at <= lower.len() - "as an ai language model"@.len() && #[trigger] lower.subrange(
            at,
            at + "as an ai language model"@.len(),
        ) == "as an ai language model"@) {
        assert(occurs(patterns[0], lower));
    }
    if (exists|at: int|
        0 <= at <= lower.len() - "as a large language model"@.len() && #[trigger] lower.subrange(
            at,
            at + "as a large language model"@.len(),
        ) == "as a large language model"@) {
        assert(occurs(patterns[1], lower));
    }
    if (exists|at: int|
        0 <= at <= lower.len() - "as an ai assistant"@.len() && #[trigger] lower.subrange(
            at,
            at + "as an ai assistant"@.len(),
        ) == "as an ai assistant"@) {
        assert(occurs(patterns[2], lower));
    }
    if (exists|at: int|
        0 <= at <= lower.len() - "i cannot and will not"@.len() && #[trigger] lower.subrange(
            at,
            at + "i cannot and will not"@.len(),
        ) == "i cannot and will not"@) {
        assert(occurs(patterns[3], lower));
    }
    if (exists|at: int|
        0 <= at <= lower.len() - "i'm not able to provide"@.len() && #[trigger] lower.subrange(
            at,
            at + "i'm not able to provide"@.len(),
        ) == "i'm not able to provide"@) {
        assert(occurs(patterns[4], lower));
    }
    if (exists|at: int|
        0 <= at <= lower.len() - "i am not able to provide"@.len() && #[trigger] lower.subrange(
            at,
            at + "i am not able to provide"@.len(),
        ) == "i am not able to provide"@) {
        assert(occurs(patterns[5], lower));
    }
    if (exists|at: int|
        0 <= at <= lower.len() - "it is not appropriate for me"@.len() && #[trigger] lower.subrange(
            at,
            at + "it is not appropriate for me"@.len(),
        ) == "it is not appropriate for me"@) {
        assert(occurs(patterns[6], lower));
    }
    if (exists|at: int|
        0 <= at <= lower.len() - "i must inform you that"@.len() && #[trigger] lower.subrange(
            at,
            at + "i must inform you that"@.len(),
        ) == "i must inform you that"@) {
        assert(occurs(patterns[7], lower));
    }
}

/// What the model says is all that its turns say: the output of an instruction record; of a
/// conversation nothing at first, and with each turn of `gpt` or `assistant` the words of this on
/// a new line, those of other turns never.
pub proof fn law_answer_is_what_the_model_says(
    reading: ReadingView,
    turns: Seq<Turn>,
    turn: Turn,
    format: Format,
)
    requires
        format == Format::ShareGPT || format == Format::ChatML,
    ensures
        reading.alpaca matches Ok(a) ==> answer(reading, Format::Alpaca) == a.output,
        ({
            let chat = |turns: Seq<Turn>|
                ReadingView { sharegpt: Ok(turns), chatml: Ok(turns), ..reading };
            let before = answer(chat(turns), format);
            let after = answer(chat(turns.push(turn)), format);
            let spoke = exists|i: int|
                0 <= i < turns.len() && ((#[trigger] turns[i]).speaker == "gpt"@
                    || turns[i].speaker == "assistant"@);
            let speaks = turn.speaker == "gpt"@ || turn.speaker == "assistant"@;
            &&& turns.len() == 0 ==> before == Seq::<char>::empty()
            &&& !speaks ==> after == before
            &&& speaks && !spoke ==> after == turn.words
            &&& speaks && spoke ==> after == before + seq!['\n'] + turn.words
        }),
{
    let more = turns.push(turn);
    assert(more.drop_last() =~= turns);
    let words = model_words(turns);
    lemma_model_spoke(turns);
    if is_model(turn.speaker) {
        assert(model_words(more) == words.push(turn.words));
        assert(words.push(turn.words).drop_last() =~= words);
        assert(joined(words, '\n').push('\n') + turn.words =~= joined(words, '\n') + seq!['\n']
            + turn.words);
    }
}

/// The model has said something exactly where a turn is its own.
proof fn lemma_model_spoke(turns: Seq<Turn>)
    ensures
        model_words(turns).len() > 0 <==> exists|i: int|
            0 <= i < turns.len() && is_model((#[trigger] turns[i]).speaker),
    decreases turns.len(),
{
    if turns.len() > 0 {
        let rest = turns.drop_last();
        lemma_model_spoke(rest);
        let last = turns.len() - 1;
        assert(turns[last] == turns.last());
        if exists|i: int| 0 <= i < rest.len() && is_model((#[trigger] rest[i]).speaker) {
            let i = choose|i: int| 0 <= i < rest.len() && is_model((#[trigger] rest[i]).speaker);
            assert(is_model(turns[i].speaker));
        }
        if exists|i: int| 0 <= i < turns.len() && is_model((#[trigger] turns[i]).speaker) {
            let i = choose|i: int| 0 <= i < turns.len() && is_model((#[trigger] turns[i]).speaker);
            if i < last {
                assert(is_model(rest[i].speaker));
            }
        }
    }
}

/// A run over lines of which none ends it writes exactly the kept lines, in order, behind what was
/// there, and its counts are those of the kept, the malformed and all other lines.
pub proof fn law_filter_writes_kept_lines(
    lines: Seq<LineView>,
    options: FilterOptions,
    perplexing: Seq<bool>,
    before: Seq<Seq<char>>,
    after: Seq<Seq<char>>,
    r: Result<FilterSummary, Error>,
)
    requires
        filtered(lines, options, perplexing, before, after, r),
        forall|i: int| 0 <= i < lines.len() ==> !(screened(#[trigger] lines[i], options) is Failed),
    ensures
        r is Ok,
        exists|at: Seq<int>|
            {
                &&& #[trigger] at.len() == r->Ok_0.kept
                &&& after.len() == before.len() + at.len()
                &&& after.take(before.len() as int) == before
                &&& forall|k: int|
                    0 <= k < at.len() ==> 0 <= #[trigger] at[k] < lines.len() && fate(
                        lines[at[k]],
                        options,
                        perplexing[at[k]],
                    ) is Kept && after[before.len() + k] == lines[at[k]].text
                &&& forall|k: int, l: int|
                    0 <= k < l < at.len() ==> #[trigger] at[k] < #[trigger] at[l]
                &&& forall|i: int|
                    0 <= i < lines.len() && fate(#[trigger] lines[i], options, perplexing[i])
                        is Kept ==> at.contains(i)
            },
        r->Ok_0.kept + r->Ok_0.removed + r->Ok_0.error == lines.len(),
{
    let ends = failing(lines, options);
    lemma_first_mark(ends);
    let end = first_mark(ends);
    if end < lines.len() {
        assert(ends[end]);
        assert(screened(lines[end], options) is Failed);
    }
    let marks = kept(lines, options, perplexing);
    let all = line_texts(lines);
    assert(all.take(end) =~= all);
    assert(marks.take(end) =~= marks);
    law_selection_keeps_order(all, marks);
    lemma_selected_len(all, marks);
    let at = places(marks);
    assert(after.take(before.len() as int) =~= before);
    assert forall|k: int| 0 <= k < at.len() implies 0 <= #[trigger] at[k] < lines.len() && fate(
        lines[at[k]],
        options,
        perplexing[at[k]],
    ) is Kept && after[before.len() + k] == lines[at[k]].text by {
        assert(marks[at[k]]);
        assert(selected(all, marks)[k] == all[at[k]]);
    }
    assert forall|i: int|
        0 <= i < lines.len() && fate(#[trigger] lines[i], options, perplexing[i])
            is Kept implies at.contains(i) by {
        assert(marks[i]);
    }
    assert(at.len() == r->Ok_0.kept);
}

/// Each malformed line adds one to the count of errors, and no other line does.
pub proof fn law_errors_count_malformed_lines(
    lines: Seq<LineView>,
    line: LineView,
    options: FilterOptions,
)
    ensures
        count_marks(malformed(Seq::empty(), options)) == 0,
        count_marks(malformed(lines.push(line), options)) == count_marks(malformed(lines, options))
            + if format_of_line(line.text) is Err {
            1int
        } else {
            0int
        },
{
    assert(malformed(lines.push(line), options).drop_last() =~= malformed(lines, options));
}

/// A run ends at the first line that is told as a format but cannot be read as such, with the words
/// of that reading; before it, the kept lines are written, and after it nothing.
pub proof fn law_filter_ends_at_an_unreadable_line(
    lines: Seq<LineView>,
    options: FilterOptions,
    perplexing: Seq<bool>,
    before: Seq<Seq<char>>,
    after: Seq<Seq<char>>,
    r: Result<FilterSummary, Error>,
    end: int,
)
    requires
        filtered(lines, options, perplexing, before, after, r),
        0 <= end < lines.len(),
        screened(lines[end], options) is Failed,
        forall|i: int| 0 <= i < end ==> !(screened(#[trigger] lines[i], options) is Failed),
    ensures
        r is Err,
        screened(lines[end], options) == Screened::Failed(r->Err_0@),
        reading_text(lines[end].reading, format_of_line(lines[end].text)->Ok_0) == Err::<
            Seq<char>,
            ErrorView,
        >(r->Err_0@),
        after == before + selected(
            line_texts(lines.take(end)),
            kept(lines.take(end), options, perplexing),
        ),
{
    let ends = failing(lines, options);
    assert forall|i: int| 0 <= i < end implies !#[trigger] ends[i] by {
        assert(!(screened(lines[i], options) is Failed));
    }
    lemma_first_mark_is(ends, end);
    assert(line_texts(lines).take(end) =~= line_texts(lines.take(end)));
    assert(kept(lines, options, perplexing).take(end) =~= kept(
        lines.take(end),
        options,
        perplexing,
    ));
}

/// A run that ends well counts as errors just the malformed lines, as kept just the kept ones, and
/// as removed the rest.
pub proof fn law_filter_counts_every_line_once(
    lines: Seq<LineView>,
    options: FilterOptions,
    perplexing: Seq<bool>,
    before: Seq<Seq<char>>,
    after: Seq<Seq<char>>,
    r: Result<FilterSummary, Error>,
    i: int,
)
    requires
        filtered(lines, options, perplexing, before, after, r),
        r is Ok,
        0 <= i < lines.len(),
    ensures
        r->Ok_0.error == count_marks(malformed(lines, options)),
        r->Ok_0.kept == count_marks(kept(lines, options, perplexing)),
        r->Ok_0.kept + r->Ok_0.removed + r->Ok_0.error == lines.len(),
        malformed(lines, options).len() == lines.len(),
        malformed(lines, options)[i] <==> format_of_line(lines[i].text) is Err,
        kept(lines, options, perplexing).len() == lines.len(),
        kept(lines, options, perplexing)[i] <==> fate(lines[i], options, perplexing[i]) is Kept,
{
}

/// Tokens can be counted where each text that passes the first checks can be tokenized, and always
/// where none have to be counted.
pub proof fn law_countable_lines(lines: Seq<LineView>, options: FilterOptions)
    ensures
        options.min_tokens is None && options.max_tokens is None ==> countable(lines, options),
        (forall|i: int|
            0 <= i < lines.len() ==> (screened(#[trigger] lines[i], options) matches
                Screened::Passed(text) ==> tokenizable(text))) ==> countable(lines, options),
{
    lemma_first_mark(failing(lines, options));
}

} // verus!
