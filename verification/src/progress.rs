//! What a running command tells of itself.

use vstd::prelude::*;

use crate::format::Format;

verus! {

/// A report of a running command.
#[derive(Debug, Clone, PartialEq, Eq)]
pub struct ProgressUpdate {
    pub lines_processed: u64,
    pub bytes_processed: u64,
    pub current_format: Option<Format>,
    pub status: String,
    /// A result to hand over with the last report.
    pub output: Option<String>,
}

impl Default for ProgressUpdate {
    fn default() -> (r: Self)
        ensures
            r.lines_processed == 0,
            r.bytes_processed == 0,
            r.current_format is None,
            r.status@ == Seq::<char>::empty(),
            r.output is None,
    {
        ProgressUpdate {
            lines_processed: 0,
            bytes_processed: 0,
            current_format: None,
            status: String::new(),
            output: None,
        }
    }
}

/// After how many lines a command reports.
pub const REPORT_EVERY: u64 = 1000;

/// Counts lines and bytes.
#[derive(Debug, Clone, Copy, PartialEq, Eq, Structural)]
pub struct Meter {
    pub lines: u64,
    pub bytes: u64,
}

impl Meter {
    /// A meter at zero.
    pub fn new() -> (r: Meter)
        ensures
            r.lines == 0,
            r.bytes == 0,
    {
        Meter { lines: 0, bytes: 0 }
    }

    /// Counts a line of some bytes; says whether it is time to report.
    pub fn count(&mut self, bytes: u64) -> (r: bool)
        requires
            old(self).lines < u64::MAX,
            old(self).bytes + bytes <= u64::MAX,
        ensures
            final(self).lines == old(self).lines + 1,
            final(self).bytes == old(self).bytes + bytes,
            r == (final(self).lines % REPORT_EVERY == 0),
            r == (final(self).lines % 1000 == 0),
    {
        self.bytes = self.bytes + bytes;
        self.lines = self.lines + 1;
        self.lines % REPORT_EVERY == 0
    }

    /// A report with the given status.
    pub fn report(&self, format: Option<Format>, status: &str, output: Option<String>) -> (r:
        ProgressUpdate)
        ensures
            r.lines_processed == self.lines,
            r.bytes_processed == self.bytes,
            r.current_format == format,
            r.status@ == status@,
            r.output == output,
    {
        ProgressUpdate {
            lines_processed: self.lines,
            bytes_processed: self.bytes,
            current_format: format,
            status: status.to_owned(),
            output,
        }
    }
}

} // verus!
