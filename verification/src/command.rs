//! How commands are run, and what is told of them.

use vstd::prelude::*;
use vstd::string::StringExecFns;

use crate::dedup::SemanticDedupOptions;
use crate::error::{Error, ErrorView};
use crate::filter::FilterSummary;
use crate::format::{DedupMethod, Format};
use crate::text::{chars_of, decimal, decimal_of};

verus! {

/// How the program runs.
#[derive(Debug, Clone, Copy, PartialEq, Eq, Structural)]
pub enum Mode {
    /// Prints its usage.
    Help,
    /// Shows the dashboard alone.
    Monitor,
    /// Runs a command and shows it on the dashboard.
    Dashboard,
    /// Runs a command without a word.
    Quiet,
    /// Runs a command with a progress bar.
    Inline,
}

/// Decides how the program runs, by its flags and by whether there is a command.
pub fn mode(tui: bool, quiet: bool, has_command: bool) -> (r: Result<Mode, Error>)
    ensures
        tui && quiet ==> r is Err && r->Err_0@ == ErrorView::ExclusiveFlags,
        !(tui && quiet) ==> r == Ok::<Mode, Error>(
            if !has_command {
                if tui {
                    Mode::Monitor
                } else {
                    Mode::Help
                }
            } else if tui {
                Mode::Dashboard
            } else if quiet {
                Mode::Quiet
            } else {
                Mode::Inline
            },
        ),
{
    if tui && quiet {
        return Err(Error::ExclusiveFlags);
    }
    if !has_command {
        return Ok(
            if tui {
                Mode::Monitor
            } else {
                Mode::Help
            },
        );
    }
    if tui {
        Ok(Mode::Dashboard)
    } else if quiet {
        Ok(Mode::Quiet)
    } else {
        Ok(Mode::Inline)
    }
}

/// A command that runs over lines.
#[derive(Debug, Clone, Copy, PartialEq, Eq, Structural)]
pub enum Task {
    Validate,
    Stats,
    Filter,
    Convert,
    Dedup,
    Sample,
}

/// The words beside a command's progress bar.
pub open spec fn task_label(task: Task) -> Seq<char> {
    match task {
        Task::Validate => "Validating"@,
        Task::Stats => "Stats"@,
        Task::Filter => "Filtering"@,
        Task::Convert => "Converting"@,
        Task::Dedup => "Deduplicating"@,
        Task::Sample => "Sampling"@,
    }
}

/// The status of a command while it runs.
pub open spec fn task_status(task: Task) -> Seq<char> {
    match task {
        Task::Validate => "Validating..."@,
        Task::Stats => "Collecting stats..."@,
        Task::Filter => "Filtering..."@,
        Task::Convert => "Converting..."@,
        Task::Dedup => "Deduplicating..."@,
        Task::Sample => "Sampling..."@,
    }
}

impl Task {
    /// The words beside the progress bar.
    pub fn label(self) -> (r: &'static str)
        ensures
            r@ == task_label(self),
    {
        match self {
            Task::Validate => "Validating",
            Task::Stats => "Stats",
            Task::Filter => "Filtering",
            Task::Convert => "Converting",
            Task::Dedup => "Deduplicating",
            Task::Sample => "Sampling",
        }
    }

    /// The status while the command runs.
    pub fn status(self) -> (r: &'static str)
        ensures
            r@ == task_status(self),
    {
        match self {
            Task::Validate => "Validating...",
            Task::Stats => "Collecting stats...",
            Task::Filter => "Filtering...",
            Task::Convert => "Converting...",
            Task::Dedup => "Deduplicating...",
            Task::Sample => "Sampling...",
        }
    }
}

/// The format in which the rows of a table are read: the given one, or instruction records.
pub fn row_format(format: Option<Format>) -> (r: Format)
    ensures
        r == match format {
            Some(f) => f,
            None => Format::Alpaca,
        },
{
    match format {
        Some(f) => f,
        None => Format::Alpaca,
    }
}

/// How duplicates are looked for.
#[derive(Debug, Clone, PartialEq, Eq)]
pub enum DedupPlan {
    Exact,
    Minhash,
    /// By meaning.
    Semantic(SemanticDedupOptions),
}

/// Decides how duplicates are looked for. To compare meanings takes a model: without one the
/// command fails, however it is run.
pub fn dedup_plan(method: DedupMethod, model_path: &Option<String>) -> (r: Result<DedupPlan, Error>)
    ensures
        match (method, *model_path) {
            (DedupMethod::Exact, _) => r matches Ok(DedupPlan::Exact),
            (DedupMethod::Minhash, _) => r matches Ok(DedupPlan::Minhash),
            (DedupMethod::Semantic, Some(path)) => r matches Ok(DedupPlan::Semantic(options))
                && options.model_path@ == path@,
            (DedupMethod::Semantic, None) => r is Err && r->Err_0@ == ErrorView::ModelPathRequired,
        },
{
    match method {
        DedupMethod::Exact => Ok(DedupPlan::Exact),
        DedupMethod::Minhash => Ok(DedupPlan::Minhash),
        DedupMethod::Semantic => match model_path {
            Some(path) => {
                let model_path = path.clone();
                Ok(DedupPlan::Semantic(SemanticDedupOptions { model_path }))
            },
            None => Err(Error::ModelPathRequired),
        },
    }
}

/// What the name of a table file ends with.
pub open spec fn table_ending() -> Seq<char> {
    ".parquet"@
}

/// Whether a file, given by its name without the directories, is a table: the name ends with
/// `.parquet`, and has something before that.
pub fn is_table_path(name: &str) -> (r: bool)
    ensures
        r == (name@.len() > table_ending().len() && table_ending().is_suffix_of(name@)),
{
    let chars = chars_of(name);
    let ending = chars_of(".parquet");
    if chars.len() <= ending.len() {
        return false;
    }
    let start: usize = chars.len() - ending.len();
    let mut i: usize = 0;
    while i < ending.len()
        invariant
            i <= ending.len(),
            chars@ == name@,
            ending@ == table_ending(),
            start + ending.len() == chars.len(),
            forall|k: int| 0 <= k < i ==> #[trigger] ending@[k] == chars@[start + k],
        decreases ending.len() - i,
    {
        if chars[start + i] != ending[i] {
            assert(name@.subrange(start as int, name@.len() as int)[i as int] != ending@[i as int]);
            return false;
        }
        i += 1;
    }
    assert(name@.subrange(start as int, name@.len() as int) =~= ending@);
    true
}

/// Whether the dashboard is told of the end of a command: a failed collection of statistics ends
/// without a word, as it has no result to show.
pub fn reports_end(task: Task, succeeded: bool) -> (r: bool)
    ensures
        r == (succeeded || task != Task::Stats),
{
    succeeded || task != Task::Stats
}

/// What is told at the end of deduplication.
pub fn kept_message(kept: u64) -> (r: String)
    ensures
        r@ == "Done! Kept "@ + decimal(kept as nat) + " lines."@,
{
    "Done! Kept ".to_owned().concat(decimal_of(kept).as_str()).concat(" lines.")
}

/// What is told at the end of sampling.
pub fn sampled_message(n: u64, total: u64) -> (r: String)
    ensures
        r@ == "Done! Sampled "@ + decimal(n as nat) + " lines out of "@ + decimal(total as nat)
            + "."@,
{
    "Done! Sampled ".to_owned().concat(decimal_of(n).as_str()).concat(" lines out of ").concat(
        decimal_of(total).as_str(),
    ).concat(".")
}

/// What is told of a filter run.
pub fn filter_message(summary: &FilterSummary) -> (r: String)
    ensures
        r@ == "[filter] kept: "@ + decimal(summary.kept as nat) + "  removed: "@ + decimal(
            summary.removed as nat,
        ) + "  errors: "@ + decimal(summary.error as nat),
{
    "[filter] kept: ".to_owned().concat(decimal_of(summary.kept).as_str()).concat(
        "  removed: ",
    ).concat(decimal_of(summary.removed).as_str()).concat("  errors: ").concat(
        decimal_of(summary.error).as_str(),
    )
}

/// What is told while a command runs begins with its label.
pub proof fn law_labels_of_tasks(task: Task)
    ensures
        task != Task::Stats ==> task_status(task) == task_label(task) + "..."@,
        task_status(Task::Stats) == "Collecting stats..."@ && task_label(Task::Stats) == "Stats"@,
        task_label(Task::Validate) == "Validating"@,
        task_label(Task::Filter) == "Filtering"@,
        task_label(Task::Convert) == "Converting"@,
        task_label(Task::Dedup) == "Deduplicating"@,
        task_label(Task::Sample) == "Sampling"@,
        table_ending() == ".parquet"@,
{
    reveal_strlit("...");
    reveal_strlit("Validating");
    reveal_strlit("Validating...");
    reveal_strlit("Filtering");
    reveal_strlit("Filtering...");
    reveal_strlit("Converting");
    reveal_strlit("Converting...");
    reveal_strlit("Deduplicating");
    reveal_strlit("Deduplicating...");
    reveal_strlit("Sampling");
    reveal_strlit("Sampling...");
    if task != Task::Stats {
        assert(task_status(task) =~= task_label(task) + "..."@);
    }
}

} // verus!
