//! The state of the dashboard: what it shows, and how it answers reports and keys.

use std::collections::VecDeque;

use vstd::prelude::*;
use vstd::string::StringExecFns;

use crate::fmt::{bytes_text, fmt_bytes, fmt_number, grouped};
use crate::progress::ProgressUpdate;
use crate::text::{contains, decimal, decimal_of, occurs, same_text, texts};

verus! {

/// How many ticks the dashboard looks back.
pub const HISTORY: usize = 120;

/// How many log lines the dashboard keeps.
pub const LOG_LINES: usize = 1000;

/// How many ticks rates are averaged over.
pub const RECENT_TICKS: usize = 10;

/// After how many lines a log line is written.
pub const LOG_EVERY: u64 = 10_000;

/// How many log lines a page has.
pub const PAGE: usize = 10;

/// A tab of the dashboard.
#[derive(Debug, Clone, Copy, PartialEq, Eq, Structural)]
pub enum Tab {
    Dashboard,
    Logs,
    Help,
}

impl Default for Tab {
    fn default() -> (r: Self)
        ensures
            r == Tab::Dashboard,
    {
        Tab::Dashboard
    }
}

/// The place of a tab.
pub open spec fn tab_place(tab: Tab) -> nat {
    match tab {
        Tab::Dashboard => 0,
        Tab::Logs => 1,
        Tab::Help => 2,
    }
}

impl Tab {
    /// The tab behind this one; the first behind the last.
    pub fn next(self) -> (r: Self)
        ensures
            tab_place(r) == (tab_place(self) + 1) % 3,
    {
        match self {
            Tab::Dashboard => Tab::Logs,
            Tab::Logs => Tab::Help,
            Tab::Help => Tab::Dashboard,
        }
    }

    /// The tab before this one; the last before the first.
    pub fn prev(self) -> (r: Self)
        ensures
            tab_place(r) == (tab_place(self) + 2) % 3,
    {
        match self {
            Tab::Dashboard => Tab::Help,
            Tab::Logs => Tab::Dashboard,
            Tab::Help => Tab::Logs,
        }
    }

    /// The place of the tab.
    pub fn index(self) -> (r: usize)
        ensures
            r == tab_place(self),
    {
        match self {
            Tab::Dashboard => 0,
            Tab::Logs => 1,
            Tab::Help => 2,
        }
    }
}

/// A tab is told by its place. Of two tabs where one comes behind the other, that comes before
/// this; three steps lead back.
pub proof fn law_tabs_cycle(a: Tab, b: Tab, c: Tab, d: Tab)
    requires
        tab_place(b) == (tab_place(a) + 1) % 3,
        tab_place(c) == (tab_place(b) + 1) % 3,
        tab_place(d) == (tab_place(c) + 1) % 3,
    ensures
        d == a,
        tab_place(a) == (tab_place(b) + 2) % 3,
        b != a,
        c != a,
{
}

/// A key that the dashboard knows.
#[derive(Debug, Clone, Copy, PartialEq, Eq, Structural)]
pub enum Key {
    /// A character, and whether the control key was held.
    Char(char, bool),
    Esc,
    Enter,
    Tab,
    BackTab,
    Left,
    Right,
    Up,
    Down,
    PageUp,
    PageDown,
    Other,
}

/// What a log line tells of, by which it is coloured.
#[derive(Debug, Clone, Copy, PartialEq, Eq, Structural)]
pub enum LogKind {
    Done,
    Error,
    System,
    Plain,
}

/// What a log line tells of.
pub open spec fn kind_of_log(line: Seq<char>) -> LogKind {
    if occurs("✓"@, line) || occurs("DONE"@, line) {
        LogKind::Done
    } else if occurs("ERR"@, line) || occurs("error"@, line) {
        LogKind::Error
    } else if occurs("SYSTEM"@, line) {
        LogKind::System
    } else {
        LogKind::Plain
    }
}

/// What a log line tells of.
pub fn log_kind(line: &str) -> (r: LogKind)
    ensures
        r == kind_of_log(line@),
{
    if contains(line, "✓") || contains(line, "DONE") {
        LogKind::Done
    } else if contains(line, "ERR") || contains(line, "error") {
        LogKind::Error
    } else if contains(line, "SYSTEM") {
        LogKind::System
    } else {
        LogKind::Plain
    }
}

/// A sequence with one more item at the end, without its first where it had `cap` items.
pub open spec fn pushed<T>(items: Seq<T>, item: T, cap: nat) -> Seq<T> {
    if items.len() >= cap {
        items.drop_first().push(item)
    } else {
        items.push(item)
    }
}

/// The sum of numbers.
pub open spec fn total(items: Seq<u64>) -> nat
    decreases items.len(),
{
    if items.len() == 0 {
        0
    } else {
        total(items.drop_last()) + items.last() as nat
    }
}

/// The last items, at most `n`.
pub open spec fn last_items<T>(items: Seq<T>, n: nat) -> Seq<T> {
    if items.len() <= n {
        items
    } else {
        items.skip(items.len() - n)
    }
}

/// How far one number is above another; zero where it is not.
pub open spec fn above(a: u64, b: u64) -> u64 {
    if a > b {
        (a - b) as u64
    } else {
        0
    }
}

/// A part of a whole in percent, at most a hundred.
pub open spec fn percent_of(part: nat, whole: nat) -> nat {
    if part * 100 / whole > 100 {
        100
    } else {
        part * 100 / whole
    }
}

/// The state of the dashboard.
#[derive(Debug)]
pub struct App {
    pub progress: ProgressUpdate,
    pub done: bool,
    /// Lines per tick.
    pub throughput_history: VecDeque<u64>,
    /// Bytes per tick.
    pub bytes_history: VecDeque<u64>,
    pub prev_lines: u64,
    pub prev_bytes: u64,
    /// The size of the input, where it is known.
    pub total_bytes: Option<u64>,
    pub active_tab: Tab,
    pub logs: VecDeque<String>,
    /// The log line that is selected.
    pub selected: Option<usize>,
    /// The result of the command.
    pub output: Option<String>,
    pub mem_used_mb: u64,
    pub mem_total_mb: u64,
    pub error_count: u64,
}

/// Whether a status tells of an error.
pub open spec fn status_fails(status: Seq<char>) -> bool {
    occurs("error"@, status) || occurs("ERR"@, status)
}

/// The log line of a report, after some time.
pub open spec fn progress_line(lines: u64, bytes: u64, elapsed: Seq<char>) -> Seq<char> {
    "["@ + elapsed + "s] "@ + grouped(decimal(lines as nat)) + " lines · "@ + bytes_text(
        bytes as nat,
    )
}

/// The log line of the last report, after some time.
pub open spec fn done_line(lines: u64, bytes: u64, elapsed: Seq<char>) -> Seq<char> {
    "["@ + elapsed + "s] ✓ DONE — "@ + grouped(decimal(lines as nat)) + " lines  "@ + bytes_text(
        bytes as nat,
    )
}

/// The log after a report.
pub open spec fn logs_after(
    logs: Seq<Seq<char>>,
    update: ProgressUpdate,
    elapsed: Seq<char>,
) -> Seq<Seq<char>> {
    let cap = LOG_LINES as nat;
    let lines = update.lines_processed;
    let bytes = update.bytes_processed;
    let counted = if lines > 0 && lines % LOG_EVERY == 0 {
        pushed(logs, progress_line(lines, bytes, elapsed), cap)
    } else {
        logs
    };
    if update.status@ == "Finished"@ {
        pushed(counted, done_line(lines, bytes, elapsed), cap)
    } else {
        counted
    }
}

/// The selected line after a step down, of `count` lines.
pub open spec fn lower_line(selected: Option<usize>, steps: nat, count: nat) -> Option<usize> {
    match selected {
        Some(i) => if i + steps < count {
            Some((i + steps) as usize)
        } else {
            Some((count - 1) as usize)
        },
        None => None,
    }
}

/// The selected line after a step up.
pub open spec fn upper_line(selected: Option<usize>, steps: nat) -> Option<usize> {
    match selected {
        Some(i) => if i > steps {
            Some((i - steps) as usize)
        } else {
            Some(0)
        },
        None => None,
    }
}

/// Whether a key ends the dashboard.
pub open spec fn key_quits(key: Key, done: bool) -> bool {
    match key {
        Key::Char(c, control) => c == 'q' || (c == 'c' && control),
        Key::Esc => true,
        Key::Enter => done,
        _ => false,
    }
}

/// The place of the tab that a key leads to.
pub open spec fn tab_after(key: Key, tab: Tab) -> nat {
    match key {
        Key::Char('1', _) => 0,
        Key::Char('2', _) => 1,
        Key::Char('3', _) => 2,
        Key::Tab | Key::Right => (tab_place(tab) + 1) % 3,
        Key::BackTab | Key::Left => (tab_place(tab) + 2) % 3,
        _ => tab_place(tab),
    }
}

/// The selected line that a key leads to.
pub open spec fn line_after(key: Key, selected: Option<usize>, count: nat) -> Option<usize> {
    match key {
        Key::Down => lower_line(selected, 1, count),
        Key::Up => upper_line(selected, 1),
        Key::PageDown => lower_line(selected, PAGE as nat, count),
        Key::PageUp => upper_line(selected, PAGE as nat),
        _ => selected,
    }
}

/// Adds an item to the end of a history, without the first where it is full.
fn push_capped(items: &mut VecDeque<u64>, item: u64)
    ensures
        final(items)@ == pushed(old(items)@, item, HISTORY as nat),
{
    if items.len() >= HISTORY {
        let _ = items.pop_front();
        assert(items@ =~= old(items)@.drop_first());
    }
    items.push_back(item);
}

/// The sum of the last numbers.
fn recent_sum(items: &VecDeque<u64>) -> (r: u128)
    ensures
        r == total(last_items(items@, RECENT_TICKS as nat)),
{
    let count: usize = items.len();
    let start: usize = count.saturating_sub(RECENT_TICKS);
    let ghost last = last_items(items@, RECENT_TICKS as nat);
    let mut sum: u128 = 0;
    let mut i: usize = start;
    assert(last.take(0) =~= Seq::empty());
    while i < count
        invariant
            start <= i <= count == items@.len(),
            start == if count > RECENT_TICKS {
                count - RECENT_TICKS
            } else {
                0
            },
            last == last_items(items@, RECENT_TICKS as nat),
            sum == total(last.take(i - start)),
            sum <= (i - start) * u64::MAX,
        decreases count - i,
    {
        assert(last.take(i - start + 1).drop_last() =~= last.take(i - start));
        assert(last[i - start] == items@[i as int]);
        sum = sum + items[i] as u128;
        i += 1;
    }
    assert(last.take(count - start) =~= last);
    sum
}

impl App {
    /// Histories and log are not longer than they may be, and the selected line exists.
    pub open spec fn wf(&self) -> bool {
        &&& self.throughput_history@.len() <= HISTORY
        &&& self.bytes_history@.len() <= HISTORY
        &&& 0 < self.logs@.len() <= LOG_LINES
        &&& self.selected matches Some(i) && i < self.logs@.len()
    }

    /// A dashboard before the first report.
    pub fn new(total_bytes: Option<u64>) -> (r: App)
        ensures
            r.wf(),
            r.progress.lines_processed == 0,
            r.progress.bytes_processed == 0,
            r.progress.status@ == Seq::<char>::empty(),
            r.progress.output is None,
            !r.done,
            r.throughput_history@ == Seq::<u64>::empty(),
            r.bytes_history@ == Seq::<u64>::empty(),
            r.prev_lines == 0,
            r.prev_bytes == 0,
            r.total_bytes == total_bytes,
            r.active_tab == Tab::Dashboard,
            texts(r.logs@) == seq!["[SYSTEM] Dashboard initialised."@],
            r.selected == Some(0usize),
            r.output is None,
            r.mem_used_mb == 0,
            r.mem_total_mb == 0,
            r.error_count == 0,
    {
        let mut logs: VecDeque<String> = VecDeque::new();
        logs.push_back("[SYSTEM] Dashboard initialised.".to_owned());
        assert(texts(logs@) =~= seq!["[SYSTEM] Dashboard initialised."@]);
        App {
            progress: ProgressUpdate::default(),
            done: false,
            throughput_history: VecDeque::new(),
            bytes_history: VecDeque::new(),
            prev_lines: 0,
            prev_bytes: 0,
            total_bytes,
            active_tab: Tab::Dashboard,
            logs,
            selected: Some(0),
            output: None,
            mem_used_mb: 0,
            mem_total_mb: 0,
            error_count: 0,
        }
    }

    /// Takes a tick in, with the memory of the machine in bytes.
    pub fn on_tick(&mut self, memory_total: u64, memory_used: u64)
        requires
            old(self).wf(),
        ensures
            final(self).wf(),
            final(self).mem_total_mb == memory_total / 1_048_576,
            final(self).mem_used_mb == memory_used / 1_048_576,
            final(self).throughput_history@ == pushed(
                old(self).throughput_history@,
                above(old(self).progress.lines_processed, old(self).prev_lines),
                HISTORY as nat,
            ),
            final(self).bytes_history@ == pushed(
                old(self).bytes_history@,
                above(old(self).progress.bytes_processed, old(self).prev_bytes),
                HISTORY as nat,
            ),
            final(self).prev_lines == old(self).progress.lines_processed,
            final(self).prev_bytes == old(self).progress.bytes_processed,
            final(self).progress == old(self).progress,
            final(self).done == old(self).done,
            final(self).total_bytes == old(self).total_bytes,
            final(self).active_tab == old(self).active_tab,
            final(self).logs == old(self).logs,
            final(self).selected == old(self).selected,
            final(self).output == old(self).output,
            final(self).error_count == old(self).error_count,
    {
        self.mem_total_mb = memory_total / 1_048_576;
        self.mem_used_mb = memory_used / 1_048_576;
        let lines: u64 = self.progress.lines_processed.saturating_sub(self.prev_lines);
        self.prev_lines = self.progress.lines_processed;
        push_capped(&mut self.throughput_history, lines);
        let bytes: u64 = self.progress.bytes_processed.saturating_sub(self.prev_bytes);
        self.prev_bytes = self.progress.bytes_processed;
        push_capped(&mut self.bytes_history, bytes);
    }

    /// How many of the last ticks rates are averaged over, and the lines and the bytes in them.
    pub fn recent(&self) -> (r: (usize, u128, u128))
        ensures
            r.0 == last_items(self.throughput_history@, RECENT_TICKS as nat).len(),
            r.1 == total(last_items(self.throughput_history@, RECENT_TICKS as nat)),
            r.2 == total(last_items(self.bytes_history@, RECENT_TICKS as nat)),
    {
        let count: usize = self.throughput_history.len();
        let ticks: usize = if count < RECENT_TICKS {
            count
        } else {
            RECENT_TICKS
        };
        (ticks, recent_sum(&self.throughput_history), recent_sum(&self.bytes_history))
    }

    /// Writes a log line, without the first where the log is full.
    fn push_log(&mut self, line: String)
        requires
            old(self).wf(),
        ensures
            final(self).wf(),
            texts(final(self).logs@) == pushed(texts(old(self).logs@), line@, LOG_LINES as nat),
            final(self).progress == old(self).progress,
            final(self).done == old(self).done,
            final(self).throughput_history == old(self).throughput_history,
            final(self).bytes_history == old(self).bytes_history,
            final(self).prev_lines == old(self).prev_lines,
            final(self).prev_bytes == old(self).prev_bytes,
            final(self).total_bytes == old(self).total_bytes,
            final(self).active_tab == old(self).active_tab,
            final(self).selected == old(self).selected,
            final(self).output == old(self).output,
            final(self).mem_used_mb == old(self).mem_used_mb,
            final(self).mem_total_mb == old(self).mem_total_mb,
            final(self).error_count == old(self).error_count,
    {
        let ghost before = self.logs@;
        if self.logs.len() >= LOG_LINES {
            let _ = self.logs.pop_front();
            assert(self.logs@ =~= before.drop_first());
        }
        self.logs.push_back(line);
        assert(texts(self.logs@) =~= pushed(texts(before), line@, LOG_LINES as nat));
    }

    /// Takes a report in, after the given time in seconds.
    pub fn on_progress(&mut self, update: ProgressUpdate, elapsed: &str)
        requires
            old(self).wf(),
            old(self).error_count < u64::MAX,
        ensures
            final(self).wf(),
            final(self).progress == update,
            final(self).error_count == old(self).error_count + if status_fails(update.status@) {
                1int
            } else {
                0int
            },
            final(self).done == (old(self).done || update.status@ == "Finished"@),
            update.status@ == "Finished"@ && update.output is Some ==> final(self).output is Some
                && final(self).output->0@ == update.output->0@,
            !(update.status@ == "Finished"@ && update.output is Some) ==> final(self).output
                == old(self).output,
            texts(final(self).logs@) == logs_after(texts(old(self).logs@), update, elapsed@),
            final(self).throughput_history == old(self).throughput_history,
            final(self).bytes_history == old(self).bytes_history,
            final(self).prev_lines == old(self).prev_lines,
            final(self).prev_bytes == old(self).prev_bytes,
            final(self).total_bytes == old(self).total_bytes,
            final(self).active_tab == old(self).active_tab,
            final(self).selected == old(self).selected,
            final(self).mem_used_mb == old(self).mem_used_mb,
            final(self).mem_total_mb == old(self).mem_total_mb,
    {
        if contains(update.status.as_str(), "error") || contains(update.status.as_str(), "ERR") {
            self.error_count = self.error_count + 1;
        }
        let lines = fmt_number(update.lines_processed);
        let bytes = fmt_bytes(update.bytes_processed);
        if update.lines_processed > 0 && update.lines_processed % LOG_EVERY == 0 {
            self.push_log(
                "[".to_owned().concat(elapsed).concat("s] ").concat(lines.as_str()).concat(
                    " lines · ",
                ).concat(bytes.as_str()),
            );
        }
        if same_text(update.status.as_str(), "Finished") {
            self.done = true;
            match &update.output {
                Some(output) => {
                    self.output = Some(output.clone());
                },
                None => {},
            }
            self.push_log(
                "[".to_owned().concat(elapsed).concat("s] ✓ DONE — ").concat(
                    lines.as_str(),
                ).concat(" lines  ").concat(bytes.as_str()),
            );
        }
        self.progress = update;
    }

    /// Selects the next log line.
    pub fn scroll_down(&mut self)
        requires
            old(self).wf(),
        ensures
            final(self).wf(),
            *final(self) == (App {
                selected: lower_line(old(self).selected, 1, old(self).logs@.len()),
                ..*old(self)
            }),
    {
        self.move_down(1);
    }

    /// Selects the log line before.
    pub fn scroll_up(&mut self)
        requires
            old(self).wf(),
        ensures
            final(self).wf(),
            *final(self) == (App { selected: upper_line(old(self).selected, 1), ..*old(self) }),
    {
        self.move_up(1);
    }

    /// Selects a log line some steps below.
    fn move_down(&mut self, steps: usize)
        requires
            old(self).wf(),
            steps <= PAGE,
        ensures
            final(self).wf(),
            *final(self) == (App {
                selected: lower_line(old(self).selected, steps as nat, old(self).logs@.len()),
                ..*old(self)
            }),
    {
        let last: usize = self.logs.len() - 1;
        match self.selected {
            Some(i) => {
                self.selected = if i + steps < last {
                    Some(i + steps)
                } else {
                    Some(last)
                };
            },
            None => {},
        }
    }

    /// Selects a log line some steps above.
    fn move_up(&mut self, steps: usize)
        requires
            old(self).wf(),
        ensures
            final(self).wf(),
            *final(self) == (App {
                selected: upper_line(old(self).selected, steps as nat),
                ..*old(self)
            }),
    {
        match self.selected {
            Some(i) => {
                self.selected = Some(i.saturating_sub(steps));
            },
            None => {},
        }
    }

    /// Takes a key in; says whether it ends the dashboard.
    pub fn on_key(&mut self, key: Key) -> (r: bool)
        requires
            old(self).wf(),
        ensures
            final(self).wf(),
            r == key_quits(key, old(self).done),
            tab_place(final(self).active_tab) == tab_after(key, old(self).active_tab),
            final(self).selected == line_after(key, old(self).selected, old(self).logs@.len()),
            *final(self) == (App {
                active_tab: final(self).active_tab,
                selected: final(self).selected,
                ..*old(self)
            }),
    {
        match key {
            Key::Char(c, control) => {
                if c == 'q' || (c == 'c' && control) {
                    return true;
                }
                if c == '1' {
                    self.active_tab = Tab::Dashboard;
                } else if c == '2' {
                    self.active_tab = Tab::Logs;
                } else if c == '3' {
                    self.active_tab = Tab::Help;
                }
            },
            Key::Esc => return true,
            Key::Enter => return self.done,
            Key::Tab | Key::Right => {
                self.active_tab = self.active_tab.next();
            },
            Key::BackTab | Key::Left => {
                self.active_tab = self.active_tab.prev();
            },
            Key::Down => self.scroll_down(),
            Key::Up => self.scroll_up(),
            Key::PageDown => self.move_down(PAGE),
            Key::PageUp => self.move_up(PAGE),
            Key::Other => {},
        }
        false
    }

    /// How much of the input is read, in percent.
    pub open spec fn gauge(&self) -> nat {
        if self.done {
            100
        } else {
            match self.total_bytes {
                Some(total) => if total > 0 {
                    percent_of(self.progress.bytes_processed as nat, total as nat)
                } else {
                    0
                },
                None => 0,
            }
        }
    }

    /// How much of the input is read, in percent.
    pub fn gauge_pct(&self) -> (r: u16)
        ensures
            r == self.gauge() <= 100,
    {
        if self.done {
            return 100;
        }
        match self.total_bytes {
            Some(total) => if total > 0 {
                let percent: u128 = self.progress.bytes_processed as u128 * 100 / total as u128;
                if percent > 100 {
                    100
                } else {
                    percent as u16
                }
            } else {
                0
            },
            None => 0,
        }
    }

    /// The words beside the gauge.
    pub fn gauge_label(&self) -> (r: String)
        ensures
            r@ == if self.done {
                "COMPLETE  "@ + bytes_text(self.progress.bytes_processed as nat)
            } else if self.total_bytes is Some {
                decimal(self.gauge()) + "%"@
            } else {
                bytes_text(self.progress.bytes_processed as nat) + " processed"@
            },
    {
        if self.done {
            "COMPLETE  ".to_owned().concat(fmt_bytes(self.progress.bytes_processed).as_str())
        } else if self.total_bytes.is_some() {
            decimal_of(self.gauge_pct() as u64).concat("%")
        } else {
            fmt_bytes(self.progress.bytes_processed).concat(" processed")
        }
    }

    /// How much of the machine's memory is in use, in percent.
    pub fn memory_pct(&self) -> (r: u128)
        ensures
            self.mem_total_mb == 0 ==> r == 0,
            self.mem_total_mb > 0 ==> r == self.mem_used_mb * 100 / self.mem_total_mb as int,
    {
        if self.mem_total_mb > 0 {
            self.mem_used_mb as u128 * 100 / self.mem_total_mb as u128
        } else {
            0
        }
    }

    /// How many bytes are left to read, where the size of the input is known.
    pub fn bytes_left(&self) -> (r: Option<u64>)
        ensures
            self.total_bytes is None ==> r is None,
            self.total_bytes matches Some(total) ==> r == Some(
                above(total, self.progress.bytes_processed),
            ),
    {
        match self.total_bytes {
            Some(total) => Some(total.saturating_sub(self.progress.bytes_processed)),
            None => None,
        }
    }

    /// The last log lines, the newest first.
    pub fn recent_logs(&self, count: usize) -> (r: Vec<String>)
        ensures
            texts(r@) == last_items(texts(self.logs@), count as nat).reverse(),
    {
        let ghost all = texts(self.logs@);
        let length: usize = self.logs.len();
        let wanted: usize = if count < length {
            count
        } else {
            length
        };
        let mut out: Vec<String> = Vec::new();
        let mut i: usize = 0;
        while i < wanted
            invariant
                i <= wanted <= length,
                length == self.logs@.len(),
                all == texts(self.logs@),
                out.len() == i,
                forall|k: int| 0 <= k < i ==> (#[trigger] out@[k])@ == all[length - 1 - k],
            decreases wanted - i,
        {
            out.push(self.logs[length - 1 - i].clone());
            i += 1;
        }
        assert(texts(out@) =~= last_items(all, count as nat).reverse());
        out
    }
}

/// The report that a dashboard without a command shows.
pub fn monitor_update() -> (r: ProgressUpdate)
    ensures
        r.status@ == "System Monitor"@,
        r.lines_processed == 0,
        r.bytes_processed == 0,
        r.current_format is None,
        r.output is None,
{
    ProgressUpdate {
        lines_processed: 0,
        bytes_processed: 0,
        current_format: None,
        status: "System Monitor".to_owned(),
        output: None,
    }
}

/// Whatever comes, histories and log stay within their bounds: one more item in a sequence of at
/// most `cap` leaves at most `cap`, the newest at the end.
pub proof fn law_pushed_is_bounded<T>(items: Seq<T>, item: T, cap: nat)
    requires
        0 < cap,
        items.len() <= cap,
    ensures
        pushed(items, item, cap).len() <= cap,
        pushed(items, item, cap).last() == item,
        items.len() < cap ==> pushed(items, item, cap).drop_last() == items,
        items.len() == cap ==> pushed(items, item, cap).drop_last() == items.drop_first(),
{
    if items.len() < cap {
        assert(items.push(item).drop_last() =~= items);
    } else {
        assert(items.drop_first().push(item).drop_last() =~= items.drop_first());
    }
}

/// The gauge of a dashboard that is done shows a hundred.
pub proof fn law_done_gauge(app: App)
    requires
        app.done,
    ensures
        app.gauge() == 100,
{
}

/// What the dashboard keeps and shows: the last 120 ticks and the last thousand log lines; a log
/// line for every ten thousand lines, rates over ten ticks, and pages of ten lines.
pub proof fn law_dashboard_bounds(app: App)
    requires
        app.wf(),
    ensures
        app.throughput_history@.len() <= 120,
        app.bytes_history@.len() <= 120,
        1 <= app.logs@.len() <= 1000,
        app.selected is Some && app.selected->0 < app.logs@.len(),
        HISTORY == 120 && LOG_LINES == 1000 && LOG_EVERY == 10_000 && RECENT_TICKS == 10 && PAGE
            == 10,
{
}

/// Rates are over the last items: as many as asked for, or all, those at the end; their total grows
/// by each. A difference is never below zero.
pub proof fn law_recent_items_are_the_last(items: Seq<u64>, item: u64, n: nat, a: u64, b: u64)
    ensures
        items.len() <= n ==> last_items(items, n) == items,
        items.len() > n ==> last_items(items, n).len() == n && items == items.take(
            items.len() - n,
        ) + last_items(items, n),
        total(Seq::empty()) == 0,
        total(items.push(item)) == total(items) + item,
        a >= b ==> above(a, b) == a - b,
        a < b ==> above(a, b) == 0,
{
    assert(items.push(item).drop_last() =~= items);
    if items.len() > n {
        assert(items =~= items.take(items.len() - n) + last_items(items, n));
    }
}

/// The gauge shows the whole percent that are read, a hundred at most, and nothing where the size
/// is not known.
pub proof fn law_gauge_shows_whole_percent(app: App, p: nat)
    requires
        !app.done,
    ensures
        app.total_bytes is None ==> app.gauge() == 0,
        app.total_bytes == Some(0u64) ==> app.gauge() == 0,
        app.total_bytes matches Some(total) ==> {
            &&& total > 0 && app.progress.bytes_processed >= total ==> app.gauge() == 100
            &&& p < 100 && p * total <= 100 * app.progress.bytes_processed < (p + 1) * total
                ==> app.gauge() == p
        },
{
    if app.total_bytes is Some {
        let total = app.total_bytes->0 as int;
        let read = app.progress.bytes_processed as int;
        if total > 0 {
            if read >= total {
                assert(read * 100 / total >= 100) by (nonlinear_arith)
                    requires
                        read >= total > 0,
                ;
            }
            if p * total <= 100 * read < (p + 1) * total {
                let whole = p as int;
                assert(read * 100 / total == whole) by (nonlinear_arith)
                    requires
                        total > 0,
                        whole * total <= 100 * read < (whole + 1) * total,
                ;
            }
        } else {
            assert((p + 1) * total == 0) by (nonlinear_arith)
                requires
                    total == 0,
            ;
        }
    }
}

/// The kind of a log line is told by the first of these that it holds anywhere: a sign that
/// something is done, of an error, of the system.
pub proof fn law_log_kinds(line: Seq<char>)
    ensures
        kind_of_log(line) == LogKind::Done <==> occurs("✓"@, line) || occurs("DONE"@, line),
        kind_of_log(line) == LogKind::Error <==> !occurs("✓"@, line) && !occurs("DONE"@, line) && (
        occurs("ERR"@, line) || occurs("error"@, line)),
        kind_of_log(line) == LogKind::System <==> !occurs("✓"@, line) && !occurs("DONE"@, line)
            && !occurs("ERR"@, line) && !occurs("error"@, line) && occurs("SYSTEM"@, line),
        status_fails(line) <==> occurs("error"@, line) || occurs("ERR"@, line),
{
}

/// The log grows by one line at every ten thousand lines, and by one at the end, each with the time
/// and what was processed; else it stays.
pub proof fn law_log_grows_at_every_ten_thousand_lines(
    logs: Seq<Seq<char>>,
    update: ProgressUpdate,
    elapsed: Seq<char>,
)
    requires
        logs.len() < 999,
    ensures
        ({
            let lines = update.lines_processed;
            let what = grouped(decimal(lines as nat));
            let size = bytes_text(update.bytes_processed as nat);
            let counted = lines > 0 && lines % 10_000 == 0;
            let ended = update.status@ == "Finished"@;
            let progress = "["@ + elapsed + "s] "@ + what + " lines · "@ + size;
            let done = "["@ + elapsed + "s] ✓ DONE — "@ + what + " lines  "@ + size;
            let after = logs_after(logs, update, elapsed);
            &&& !counted && !ended ==> after == logs
            &&& counted && !ended ==> after == logs.push(progress)
            &&& !counted && ended ==> after == logs.push(done)
            &&& counted && ended ==> after == logs.push(progress).push(done)
        }),
{
}

/// Keys: `q`, escape and control-c quit, and enter does once all is done. Digits lead to their tab,
/// tab and arrows to the next or the one before. Up and down select the neighbouring log line, a
/// page key the one ten lines off, the first or the last at most. No other key changes anything.
pub proof fn law_keys(key: Key, done: bool, tab: Tab, selected: usize, count: nat)
    requires
        selected < count <= 1000,
    ensures
        key_quits(key, done) <==> key == Key::Esc || (key == Key::Enter && done) || (key matches
            Key::Char(c, control) && (c == 'q' || (c == 'c' && control))),
        key == Key::Tab || key == Key::Right ==> tab_after(key, tab) == (tab_place(tab) + 1) % 3,
        key == Key::BackTab || key == Key::Left ==> tab_after(key, tab) == (tab_place(tab) + 2) % 3,
        key matches Key::Char('1', _) ==> tab_after(key, tab) == tab_place(Tab::Dashboard),
        key matches Key::Char('2', _) ==> tab_after(key, tab) == tab_place(Tab::Logs),
        key matches Key::Char('3', _) ==> tab_after(key, tab) == tab_place(Tab::Help),
        key == Key::Down ==> line_after(key, Some(selected), count) == Some(
            (if selected + 1 < count {
                selected + 1
            } else {
                selected as int
            }) as usize,
        ),
        key == Key::Up ==> line_after(key, Some(selected), count) == Some(
            (if selected > 0 {
                selected - 1
            } else {
                0
            }) as usize,
        ),
        key == Key::PageDown ==> line_after(key, Some(selected), count) == Some(
            (if selected + 10 < count {
                selected + 10
            } else {
                count - 1
            }) as usize,
        ),
        key == Key::PageUp ==> line_after(key, Some(selected), count) == Some(
            (if selected > 10 {
                selected - 10
            } else {
                0
            }) as usize,
        ),
        key == Key::Other || key == Key::Esc || key == Key::Enter ==> tab_after(key, tab)
            == tab_place(tab) && line_after(key, Some(selected), count) == Some(selected),
        key matches Key::Char(c, _) ==> line_after(key, Some(selected), count) == Some(selected)
            && (c != '1' && c != '2' && c != '3' ==> tab_after(key, tab) == tab_place(tab)),
        tab_place(Tab::Dashboard) == 0 && tab_place(Tab::Logs) == 1 && tab_place(Tab::Help) == 2,
{
}

/// The log is full at a thousand lines: with each further line the oldest goes.
pub proof fn law_full_log_drops_the_oldest(
    logs: Seq<Seq<char>>,
    update: ProgressUpdate,
    elapsed: Seq<char>,
)
    requires
        logs.len() == 1000,
        update.status@ != "Finished"@,
        update.lines_processed > 0,
        update.lines_processed % 10_000 == 0,
    ensures
        ({
            let after = logs_after(logs, update, elapsed);
            &&& after.len() == 1000
            &&& after.drop_last() == logs.drop_first()
            &&& after.last() == "["@ + elapsed + "s] "@ + grouped(
                decimal(update.lines_processed as nat),
            ) + " lines · "@ + bytes_text(update.bytes_processed as nat)
        }),
{
    let after = logs_after(logs, update, elapsed);
    assert(after.drop_last() =~= logs.drop_first());
}

} // verus!
