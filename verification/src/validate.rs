//! Checking lines against a schema.

use vstd::prelude::*;

use crate::error::{Error, ErrorView};
use crate::format::Format;
use crate::record::{reading_conforms, Line, LineView, Reading};
use crate::select::{
    count_marks, law_selection_keeps_order, lemma_all_selected, lemma_selected_step, line_texts,
    line_views, places, selected,
};
use crate::text::texts;

verus! {

/// How many lines were checked, and with what outcome.
#[derive(Debug, Clone, Copy, PartialEq, Eq, Structural)]
pub struct ValidationSummary {
    pub valid_lines: u64,
    pub invalid_lines: u64,
}

impl Default for ValidationSummary {
    fn default() -> (r: Self)
        ensures
            r.valid_lines == 0,
            r.invalid_lines == 0,
    {
        ValidationSummary { valid_lines: 0, invalid_lines: 0 }
    }
}

/// For each line whether it conforms to the schema.
pub open spec fn conforming(lines: Seq<LineView>, format: Format) -> Seq<bool> {
    Seq::new(lines.len(), |i: int| reading_conforms(lines[i].reading, format))
}

/// For each line whether it does not conform to the schema.
pub open spec fn failing(lines: Seq<LineView>, format: Format) -> Seq<bool> {
    Seq::new(lines.len(), |i: int| !reading_conforms(lines[i].reading, format))
}

impl ValidationSummary {
    /// Checks one line and counts it.
    pub fn observe(&mut self, reading: &Reading, format: Format) -> (r: bool)
        requires
            old(self).valid_lines < u64::MAX,
            old(self).invalid_lines < u64::MAX,
        ensures
            r == reading_conforms(reading@, format),
            final(self).valid_lines == old(self).valid_lines + if r {
                1int
            } else {
                0int
            },
            final(self).invalid_lines == old(self).invalid_lines + if r {
                0int
            } else {
                1int
            },
    {
        let valid = reading.conforms(format);
        if valid {
            self.valid_lines = self.valid_lines + 1;
        } else {
            self.invalid_lines = self.invalid_lines + 1;
        }
        valid
    }

    /// Checks one line and counts it; in strict mode an invalid one is an error, which tells the
    /// number of the line.
    pub fn check_line(&mut self, line: &Line, format: Format, strict: bool) -> (r: Result<
        bool,
        Error,
    >)
        requires
            old(self).valid_lines + old(self).invalid_lines < u64::MAX,
        ensures
            final(self).valid_lines + final(self).invalid_lines == old(self).valid_lines
                + old(self).invalid_lines + 1,
            if reading_conforms(line@.reading, format) {
                &&& r matches Ok(valid) && valid
                &&& final(self).valid_lines == old(self).valid_lines + 1
            } else {
                &&& final(self).valid_lines == old(self).valid_lines
                &&& !strict ==> (r matches Ok(valid) && !valid)
                &&& strict ==> r is Err && r->Err_0@ == (ErrorView::InvalidLine {
                    line: (old(self).valid_lines + old(self).invalid_lines + 1) as nat,
                    content: line@.text,
                })
            },
    {
        let valid = self.observe(&line.reading, format);
        if valid || !strict {
            Ok(valid)
        } else {
            let number: u64 = self.valid_lines + self.invalid_lines;
            Err(Error::InvalidLine { line: number, content: line.text.clone() })
        }
    }
}

/// Checks all lines against a schema, appends the valid ones to `output` and the others to
/// `invalid`. In strict mode the first invalid line ends the run.
pub fn validate_reporting(
    lines: &Vec<Line>,
    output: &mut Vec<String>,
    invalid: &mut Vec<String>,
    format: Format,
    strict: bool,
) -> (r: Result<ValidationSummary, Error>)
    ensures
        match r {
            Ok(summary) => {
                let marks = conforming(line_views(lines@), format);
                &&& strict ==> forall|i: int| 0 <= i < marks.len() ==> #[trigger] marks[i]
                &&& summary.valid_lines == count_marks(marks)
                &&& summary.valid_lines + summary.invalid_lines == lines.len()
                &&& texts(final(output)@) == texts(old(output)@) + selected(
                    line_texts(line_views(lines@)),
                    marks,
                )
                &&& texts(final(invalid)@) == texts(old(invalid)@) + selected(
                    line_texts(line_views(lines@)),
                    failing(line_views(lines@), format),
                )
            },
            Err(e) => {
                let marks = conforming(line_views(lines@), format);
                &&& strict
                &&& final(invalid)@ == old(invalid)@
                &&& exists|n: int|
                    {
                        &&& 0 <= n < lines.len()
                        &&& !#[trigger] marks[n]
                        &&& forall|i: int| 0 <= i < n ==> #[trigger] marks[i]
                        &&& e@ == ErrorView::InvalidLine {
                            line: (n + 1) as nat,
                            content: lines@[n].text@,
                        }
                        &&& texts(final(output)@) == texts(old(output)@) + line_texts(
                            line_views(lines@),
                        ).take(n)
                    }
            },
        },
{
    let ghost views = line_views(lines@);
    let ghost all = line_texts(views);
    let ghost marks = conforming(views, format);
    let ghost fails = failing(views, format);
    let ghost before = texts(output@);
    let ghost known = texts(invalid@);
    let mut summary = ValidationSummary::default();
    let mut i: usize = 0;
    assert(texts(output@) =~= before + selected(all.take(0), marks.take(0)));
    assert(texts(invalid@) =~= known + selected(all.take(0), fails.take(0)));
    while i < lines.len()
        invariant
            i <= lines.len(),
            views == line_views(lines@),
            all == line_texts(views),
            marks == conforming(views, format),
            summary.valid_lines + summary.invalid_lines == i,
            summary.valid_lines == count_marks(marks.take(i as int)),
            texts(output@) == before + selected(all.take(i as int), marks.take(i as int)),
            before == texts(old(output)@),
            fails == failing(views, format),
            texts(invalid@) == known + selected(all.take(i as int), fails.take(i as int)),
            known == texts(old(invalid)@),
            strict ==> invalid@ == old(invalid)@,
            strict ==> forall|j: int| 0 <= j < i ==> #[trigger] marks[j],
        decreases lines.len() - i,
    {
        let line = &lines[i];
        proof {
            lemma_selected_step(all, marks, i as int);
            lemma_selected_step(all, fails, i as int);
            assert(marks[i as int] == reading_conforms(line.reading@, format));
        }
        match summary.check_line(line, format, strict) {
            Ok(valid) => {
                if valid {
                    let ghost earlier = output@;
                    output.push(line.text.clone());
                    assert(texts(output@) =~= texts(earlier).push(all[i as int]));
                    assert(texts(output@) =~= before + selected(all.take(i + 1), marks.take(i + 1)));
                } else {
                    let ghost earlier = invalid@;
                    invalid.push(line.text.clone());
                    assert(texts(invalid@) =~= texts(earlier).push(all[i as int]));
                    assert(texts(invalid@) =~= known + selected(all.take(i + 1), fails.take(i + 1)));
                }
            },
            Err(e) => {
                proof {
                    lemma_all_selected(all.take(i as int), marks.take(i as int));
                    assert(!marks[i as int]);
                }
                return Err(e);
            },
        }
        i += 1;
    }
    assert(all.take(i as int) =~= all);
    assert(marks.take(i as int) =~= marks);
    assert(fails.take(i as int) =~= fails);
    Ok(summary)
}

/// Checks all lines against a schema and appends the valid ones to `output`. In strict mode the
/// first invalid line ends the run.
pub fn validate(lines: &Vec<Line>, output: &mut Vec<String>, format: Format, strict: bool) -> (r:
    Result<ValidationSummary, Error>)
    ensures
        match r {
            Ok(summary) => {
                let marks = conforming(line_views(lines@), format);
                &&& strict ==> forall|i: int| 0 <= i < marks.len() ==> #[trigger] marks[i]
                &&& summary.valid_lines == count_marks(marks)
                &&& summary.valid_lines + summary.invalid_lines == lines.len()
                &&& texts(final(output)@) == texts(old(output)@) + selected(
                    line_texts(line_views(lines@)),
                    marks,
                )
            },
            Err(e) => {
                let marks = conforming(line_views(lines@), format);
                &&& strict
                &&& exists|n: int|
                    {
                        &&& 0 <= n < lines.len()
                        &&& !#[trigger] marks[n]
                        &&& forall|i: int| 0 <= i < n ==> #[trigger] marks[i]
                        &&& e@ == ErrorView::InvalidLine {
                            line: (n + 1) as nat,
                            content: lines@[n].text@,
                        }
                        &&& texts(final(output)@) == texts(old(output)@) + line_texts(
                            line_views(lines@),
                        ).take(n)
                    }
            },
        },
{
    let mut invalid: Vec<String> = Vec::new();
    validate_reporting(lines, output, &mut invalid, format, strict)
}

/// The lines that validation writes are valid: validating them again keeps all of them.
pub proof fn law_validated_lines_are_valid(lines: Seq<LineView>, format: Format)
    ensures
        ({
            let rest = selected(lines, conforming(lines, format));
            &&& count_marks(conforming(rest, format)) == rest.len()
            &&& selected(rest, conforming(rest, format)) == rest
        }),
{
    let marks = conforming(lines, format);
    let rest = selected(lines, marks);
    law_selection_keeps_order(lines, marks);
    let again = conforming(rest, format);
    assert forall|i: int| 0 <= i < rest.len() implies #[trigger] again[i] by {
        assert(rest[i] == lines[places(marks)[i]]);
        assert(marks[places(marks)[i]]);
    }
    lemma_all_selected(rest, again);
}

/// No line conforms to a format that holds no lines.
pub proof fn law_tables_hold_no_lines(lines: Seq<LineView>, format: Format)
    requires
        format == Format::Parquet || format == Format::Arrow,
    ensures
        count_marks(conforming(lines, format)) == 0,
    decreases lines.len(),
{
    if lines.len() > 0 {
        law_tables_hold_no_lines(lines.drop_last(), format);
        assert(conforming(lines, format).drop_last() =~= conforming(lines.drop_last(), format));
    }
}

/// A line is either conforming or failing, as it is read and by nothing else.
pub proof fn law_lines_conform_or_fail(lines: Seq<LineView>, format: Format, i: int)
    requires
        0 <= i < lines.len(),
    ensures
        conforming(lines, format).len() == lines.len(),
        failing(lines, format).len() == lines.len(),
        conforming(lines, format)[i] == reading_conforms(lines[i].reading, format),
        failing(lines, format)[i] == !reading_conforms(lines[i].reading, format),
{
}

} // verus!
