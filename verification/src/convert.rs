//! Converting datasets: line by line, into tables, and from tables.

use vstd::prelude::*;

use crate::arrow_table::{table_view, Batch, TableView};
use crate::error::{Error, ErrorView};
use crate::exchange::{
    condensed, exchange, lacks_speakers, law_alpaca_round_trip, law_chatml_sharegpt_round_trip,
    law_renaming_keeps_text, law_sharegpt_chatml_round_trip, request, with_chatml_roles,
    with_sharegpt_speakers,
};
use crate::format::Format;
use crate::json::{doc_text, json_of_text, json_view, text_of_json, Doc, JsonView};
use crate::parquet::{line_value, row_lines, Batcher, BATCH_SIZE};
use crate::record::{reading_text, AlpacaView, Line, LineView, Reading, ReadingView, Turn};
use crate::select::{
    first_mark, lemma_first_mark, lemma_first_mark_is, line_texts, line_views, run_end,
};
use crate::table::{
    has_columns, is_record, law_table_keeps_values, law_table_round_trip, record_batch_to_json,
    rows_of, shape, table_fits, table_of, table_row,
};
use crate::text::texts;
use crate::write::{alpaca_doc, turns_doc};

verus! {

/// What becomes of a line: the document to write, nothing for a pair of formats that is not
/// converted line by line, or the complaint of reading it.
pub open spec fn converted(reading: ReadingView, from: Format, to: Format) -> Result<
    Option<Doc>,
    ErrorView,
> {
    match (from, to) {
        (Format::Alpaca, Format::ShareGPT) => match reading.alpaca {
            Ok(a) => Ok(Some(turns_doc(exchange(a, "human"@, "gpt"@), Format::ShareGPT))),
            Err(words) => Err(ErrorView::Json(words)),
        },
        (Format::Alpaca, Format::ChatML) => match reading.alpaca {
            Ok(a) => Ok(Some(turns_doc(exchange(a, "user"@, "assistant"@), Format::ChatML))),
            Err(words) => Err(ErrorView::Json(words)),
        },
        (Format::ShareGPT, Format::Alpaca) => match reading.sharegpt {
            Ok(turns) => Ok(Some(alpaca_doc(condensed(turns, "human"@, "gpt"@)))),
            Err(words) => Err(ErrorView::Json(words)),
        },
        (Format::ShareGPT, Format::ChatML) => match reading.sharegpt {
            Ok(turns) => Ok(Some(turns_doc(with_chatml_roles(turns), Format::ChatML))),
            Err(words) => Err(ErrorView::Json(words)),
        },
        (Format::ChatML, Format::Alpaca) => match reading.chatml {
            Ok(turns) => Ok(Some(alpaca_doc(condensed(turns, "user"@, "assistant"@)))),
            Err(words) => Err(ErrorView::Json(words)),
        },
        (Format::ChatML, Format::ShareGPT) => match reading.chatml {
            Ok(turns) => Ok(Some(turns_doc(with_sharegpt_speakers(turns), Format::ShareGPT))),
            Err(words) => Err(ErrorView::Json(words)),
        },
        _ => Ok(None),
    }
}

/// Converts a line, or passes it over.
pub fn convert_line(reading: &Reading, from: Format, to: Format, skip_errors: bool) -> (r: Result<
    Option<String>,
    Error,
>)
    ensures
        match converted(reading@, from, to) {
            Ok(Some(doc)) => r matches Ok(Some(line)) && line@ == doc_text(doc),
            Ok(None) => r matches Ok(None),
            Err(e) => if skip_errors {
                r matches Ok(None)
            } else {
                r is Err && r->Err_0@ == e
            },
        },
{
    match read_converted(reading, from, to) {
        Ok(line) => Ok(line),
        Err(e) => if skip_errors {
            Ok(None)
        } else {
            Err(e)
        },
    }
}

/// Converts a line.
fn read_converted(reading: &Reading, from: Format, to: Format) -> (r: Result<
    Option<String>,
    Error,
>)
    ensures
        match converted(reading@, from, to) {
            Ok(Some(doc)) => r matches Ok(Some(line)) && line@ == doc_text(doc),
            Ok(None) => r matches Ok(None),
            Err(e) => r is Err && r->Err_0@ == e,
        },
{
    match (from, to) {
        (Format::Alpaca, Format::ShareGPT) => match &reading.alpaca {
            Ok(a) => Ok(Some(a.to_sharegpt().to_line())),
            Err(words) => Err(Error::Json(words.clone())),
        },
        (Format::Alpaca, Format::ChatML) => match &reading.alpaca {
            Ok(a) => Ok(Some(a.to_chatml().to_line())),
            Err(words) => Err(Error::Json(words.clone())),
        },
        (Format::ShareGPT, Format::Alpaca) => match &reading.sharegpt {
            Ok(s) => Ok(Some(s.to_alpaca().to_line())),
            Err(words) => Err(Error::Json(words.clone())),
        },
        (Format::ShareGPT, Format::ChatML) => match &reading.sharegpt {
            Ok(s) => Ok(Some(s.to_chatml().to_line())),
            Err(words) => Err(Error::Json(words.clone())),
        },
        (Format::ChatML, Format::Alpaca) => match &reading.chatml {
            Ok(c) => Ok(Some(c.to_alpaca().to_line())),
            Err(words) => Err(Error::Json(words.clone())),
        },
        (Format::ChatML, Format::ShareGPT) => match &reading.chatml {
            Ok(c) => Ok(Some(c.to_sharegpt().to_line())),
            Err(words) => Err(Error::Json(words.clone())),
        },
        _ => Ok(None),
    }
}

/// The lines that come out, in order.
pub open spec fn produced(lines: Seq<LineView>, from: Format, to: Format) -> Seq<Seq<char>>
    decreases lines.len(),
{
    if lines.len() == 0 {
        Seq::empty()
    } else {
        let rest = produced(lines.drop_last(), from, to);
        match converted(lines.last().reading, from, to) {
            Ok(Some(doc)) => rest.push(doc_text(doc)),
            _ => rest,
        }
    }
}

/// For each line whether it cannot be read as a record of the source format.
pub open spec fn unreadable(lines: Seq<LineView>, from: Format, to: Format) -> Seq<bool> {
    Seq::new(lines.len(), |i: int| converted(lines[i].reading, from, to) is Err)
}

/// The JSON values of the lines that hold one, in order.
pub open spec fn parsed(lines: Seq<LineView>) -> Seq<JsonView>
    decreases lines.len(),
{
    if lines.len() == 0 {
        Seq::empty()
    } else {
        match json_of_text(lines.last().text) {
            Ok(value) => parsed(lines.drop_last()).push(value),
            Err(_) => parsed(lines.drop_last()),
        }
    }
}

/// For each line whether it holds no JSON value.
pub open spec fn unparsable(lines: Seq<LineView>) -> Seq<bool> {
    Seq::new(lines.len(), |i: int| json_of_text(lines[i].text) is Err)
}

/// The values of one batch.
pub open spec fn chunk(values: Seq<JsonView>, k: int) -> Seq<JsonView> {
    let size = BATCH_SIZE as int;
    values.subrange(
        k * size,
        if k * size + size <= values.len() {
            k * size + size
        } else {
            values.len() as int
        },
    )
}

/// How many batches are made of values: the full ones, and at the end one of the rest.
pub open spec fn chunk_count(values: nat, ended: bool) -> nat {
    let size = BATCH_SIZE as nat;
    if ended && values % size != 0 {
        values / size + 1
    } else {
        values / size
    }
}

/// The values that a run over lines puts into a table.
pub open spec fn table_values(lines: Seq<LineView>, skip_errors: bool) -> Seq<JsonView> {
    parsed(lines.take(run_end(unparsable(lines), skip_errors)))
}

/// How many batches a run over lines makes.
pub open spec fn table_count(lines: Seq<LineView>, skip_errors: bool) -> nat {
    chunk_count(
        table_values(lines, skip_errors).len(),
        run_end(unparsable(lines), skip_errors) == lines.len(),
    )
}

/// Whether each batch can hold its values.
pub open spec fn tables_fit(lines: Seq<LineView>, from: Format, skip_errors: bool) -> bool {
    forall|k: int|
        0 <= k < table_count(lines, skip_errors) ==> table_fits(
            #[trigger] chunk(table_values(lines, skip_errors), k),
            from,
        )
}

/// The tables of batches.
pub open spec fn table_views(batches: Seq<Batch>) -> Seq<TableView> {
    batches.map_values(|b: Batch| table_view(b))
}

/// The tables of the first batches.
pub open spec fn tables_of(values: Seq<JsonView>, count: nat, format: Format) -> Seq<TableView> {
    Seq::new(count, |k: int| table_of(chunk(values, k), format))
}

/// What a run over lines writes that are converted one by one: the lines up to the run's end. It
/// ends well behind the last line, and else with the complaint of reading the line it ends at.
pub open spec fn lines_converted(
    lines: Seq<LineView>,
    from: Format,
    to: Format,
    skip_errors: bool,
    before: Seq<Seq<char>>,
    after: Seq<Seq<char>>,
    r: Result<(), Error>,
) -> bool {
    let end = run_end(unreadable(lines, from, to), skip_errors);
    &&& 0 <= end <= lines.len()
    &&& after == before + produced(lines.take(end), from, to)
    &&& r is Ok <==> end == lines.len()
    &&& r matches Err(e) ==> converted(lines[end].reading, from, to) == Err::<
        Option<Doc>,
        ErrorView,
    >(e@)
}

/// What a run over lines writes that are put into a table: the batches of the values up to the
/// run's end. It ends well behind the last line, and else with the complaint of parsing the line
/// it ends at. A format without a table schema is refused.
pub open spec fn tables_written(
    lines: Seq<LineView>,
    format: Format,
    skip_errors: bool,
    before: Seq<TableView>,
    after: Seq<TableView>,
    r: Result<(), Error>,
) -> bool {
    let end = run_end(unparsable(lines), skip_errors);
    if shape(format) is None {
        &&& r is Err
        &&& r->Err_0@ == ErrorView::NoSchema(format)
        &&& after == before
    } else {
        &&& 0 <= end <= lines.len()
        &&& after == before + tables_of(
            table_values(lines, skip_errors),
            table_count(lines, skip_errors),
            format,
        )
        &&& r is Ok <==> end == lines.len()
        &&& r matches Err(e) ==> json_of_text(lines[end].text) is Err && e@ == ErrorView::Json(
            json_of_text(lines[end].text)->Err_0,
        )
    }
}

/// Converts lines one by one.
fn convert_lines(
    lines: &Vec<Line>,
    output: &mut Vec<String>,
    from: Format,
    to: Format,
    skip_errors: bool,
) -> (r: Result<(), Error>)
    ensures
        lines_converted(
            line_views(lines@),
            from,
            to,
            skip_errors,
            texts(old(output)@),
            texts(final(output)@),
            r,
        ),
{
    let ghost views = line_views(lines@);
    let ghost failures = unreadable(views, from, to);
    let ghost before = texts(output@);
    let mut i: usize = 0;
    assert(texts(output@) =~= before + produced(views.take(0), from, to));
    while i < lines.len()
        invariant
            i <= lines.len(),
            views == line_views(lines@),
            failures == unreadable(views, from, to),
            before == texts(old(output)@),
            texts(output@) == before + produced(views.take(i as int), from, to),
            !skip_errors ==> forall|j: int| 0 <= j < i ==> !#[trigger] failures[j],
        decreases lines.len() - i,
    {
        proof {
            assert(views.take(i + 1).drop_last() =~= views.take(i as int));
            assert(views[i as int] == lines@[i as int]@);
        }
        let ghost earlier = output@;
        match convert_line(&lines[i].reading, from, to, skip_errors) {
            Ok(Some(line)) => {
                output.push(line);
                assert(texts(output@) =~= texts(earlier).push(line@));
                assert(texts(output@) =~= before + produced(views.take(i + 1), from, to));
            },
            Ok(None) => {},
            Err(e) => {
                proof {
                    assert(failures[i as int]);
                    lemma_first_mark_is(failures, i as int);
                }
                return Err(e);
            },
        }
        i += 1;
    }
    proof {
        if !skip_errors {
            lemma_first_mark_is(failures, failures.len() as int);
        }
        assert(views.take(i as int) =~= views);
    }
    Ok(())
}

/// The values of the first lines come first among those of more lines.
proof fn lemma_parsed_grows(lines: Seq<LineView>, i: int, j: int)
    requires
        0 <= i <= j <= lines.len(),
    ensures
        parsed(lines.take(i)).len() <= parsed(lines.take(j)).len(),
        parsed(lines.take(i)) == parsed(lines.take(j)).take(parsed(lines.take(i)).len() as int),
    decreases j - i,
{
    if i < j {
        lemma_parsed_grows(lines, i, j - 1);
        assert(lines.take(j).drop_last() =~= lines.take(j - 1));
        let n = parsed(lines.take(i)).len() as int;
        assert(parsed(lines.take(j)).take(n) =~= parsed(lines.take(j - 1)).take(n));
    } else {
        assert(parsed(lines.take(i)) =~= parsed(lines.take(j)).take(
            parsed(lines.take(i)).len() as int,
        ));
    }
}

/// Puts the JSON values of lines into batches of rows.
pub fn write_parquet(
    lines: &Vec<Line>,
    batches: &mut Vec<Batch>,
    format: Format,
    skip_errors: bool,
) -> (r: Result<(), Error>)
    requires
        shape(format) is Some ==> tables_fit(line_views(lines@), format, skip_errors),
    ensures
        tables_written(
            line_views(lines@),
            format,
            skip_errors,
            table_views(old(batches)@),
            table_views(final(batches)@),
            r,
        ),
{
    let mut batcher = match Batcher::new(format) {
        Ok(batcher) => batcher,
        Err(e) => return Err(e),
    };
    let ghost views = line_views(lines@);
    let ghost failures = unparsable(views);
    let ghost end = run_end(failures, skip_errors);
    let ghost all = table_values(views, skip_errors);
    let ghost before = table_views(batches@);
    let ghost mut full: int = 0;
    proof {
        lemma_first_mark(failures);
        assert(parsed(views.take(0)) =~= Seq::empty());
        assert(tables_of(all, 0, format) =~= Seq::empty());
        assert(before + tables_of(all, 0, format) =~= before);
        assert(parsed(views.take(0)).skip(0) =~= Seq::empty());
    }
    let mut i: usize = 0;
    while i < lines.len()
        invariant
            i <= lines.len(),
            views == line_views(lines@),
            failures == unparsable(views),
            end == run_end(failures, skip_errors),
            all == table_values(views, skip_errors),
            all == parsed(views.take(end)),
            before == table_views(old(batches)@),
            tables_fit(views, format, skip_errors),
            shape(format) is Some,
            i <= end <= lines.len(),
            !skip_errors ==> end == first_mark(failures),
            !skip_errors ==> forall|j: int| 0 <= j < i ==> !#[trigger] failures[j],
            batcher.wf(),
            batcher.rows_format() == format,
            0 <= full,
            full * BATCH_SIZE <= parsed(views.take(i as int)).len() < (full + 1) * BATCH_SIZE,
            batcher.pending() == parsed(views.take(i as int)).skip(full * BATCH_SIZE),
            table_views(batches@) == before + tables_of(all, full as nat, format),
        decreases lines.len() - i,
    {
        proof {
            assert(views.take(i + 1).drop_last() =~= views.take(i as int));
            lemma_first_mark(failures);
        }
        let ghost values = parsed(views.take(i as int));
        match line_value(lines[i].text.as_str(), skip_errors) {
            Ok(Some(value)) => {
                let ghost view = json_view(value);
                let ghost more = values.push(view);
                assert(parsed(views.take(i + 1)) == more);
                assert(!failures[i as int]);
                assert(more.skip(full * BATCH_SIZE) =~= values.skip(full * BATCH_SIZE).push(view));
                if batcher.push(value) {
                    proof {
                        lemma_parsed_grows(views, i + 1, end);
                        assert(more.len() == (full + 1) * BATCH_SIZE);
                        assert(all.len() >= (full + 1) * BATCH_SIZE);
                        assert(chunk(all, full) =~= more.skip(full * BATCH_SIZE));
                        assert(full < all.len() / BATCH_SIZE as nat);
                        assert(full < table_count(views, skip_errors));
                    }
                    let ghost earlier = batches@;
                    match batcher.take_batch() {
                        Ok(batch) => {
                            batches.push(batch);
                            assert(table_views(batches@) =~= table_views(earlier).push(
                                table_of(chunk(all, full), format),
                            ));
                        },
                        Err(words) => return Err(Error::Json(words)),
                    }
                    proof {
                        assert(tables_of(all, (full + 1) as nat, format) =~= tables_of(
                            all,
                            full as nat,
                            format,
                        ).push(table_of(chunk(all, full), format)));
                        assert(table_views(batches@) =~= before + tables_of(
                            all,
                            (full + 1) as nat,
                            format,
                        ));
                        full = full + 1;
                        assert(more.skip(full * BATCH_SIZE) =~= Seq::empty());
                    }
                }
            },
            Ok(None) => {
                assert(parsed(views.take(i + 1)) == values);
            },
            Err(e) => {
                proof {
                    assert(failures[i as int]);
                    lemma_first_mark_is(failures, i as int);
                    assert(table_count(views, skip_errors) == full);
                }
                return Err(e);
            },
        }
        i += 1;
    }
    proof {
        if !skip_errors {
            lemma_first_mark_is(failures, failures.len() as int);
        }
        assert(all.len() / BATCH_SIZE as nat == full);
    }
    if !batcher.is_empty() {
        proof {
            assert(batcher.pending() =~= chunk(all, full));
            assert(table_count(views, skip_errors) == full + 1);
        }
        let ghost earlier = batches@;
        match batcher.take_batch() {
            Ok(batch) => {
                batches.push(batch);
                assert(table_views(batches@) =~= table_views(earlier).push(
                    table_of(chunk(all, full), format),
                ));
            },
            Err(words) => return Err(Error::Json(words)),
        }
        proof {
            assert(tables_of(all, (full + 1) as nat, format) =~= tables_of(
                all,
                full as nat,
                format,
            ).push(table_of(chunk(all, full), format)));
            assert(table_views(batches@) =~= before + tables_of(all, (full + 1) as nat, format));
        }
    } else {
        proof {
            assert(table_count(views, skip_errors) == full);
        }
    }
    Ok(())
}

/// Whether each batch can hold its values.
pub fn batches_fit(lines: &Vec<Line>, format: Format, skip_errors: bool) -> (r: bool)
    requires
        shape(format) is Some,
    ensures
        r == tables_fit(line_views(lines@), format, skip_errors),
{
    let mut batcher = match Batcher::new(format) {
        Ok(batcher) => batcher,
        Err(_) => return false,
    };
    let ghost views = line_views(lines@);
    let ghost failures = unparsable(views);
    let ghost end = run_end(failures, skip_errors);
    let ghost all = table_values(views, skip_errors);
    let ghost mut full: int = 0;
    proof {
        lemma_first_mark(failures);
        assert(parsed(views.take(0)) =~= Seq::empty());
        assert(parsed(views.take(0)).skip(0) =~= Seq::empty());
    }
    let mut i: usize = 0;
    while i < lines.len()
        invariant
            i <= lines.len(),
            views == line_views(lines@),
            failures == unparsable(views),
            end == run_end(failures, skip_errors),
            all == table_values(views, skip_errors),
            all == parsed(views.take(end)),
            i <= end <= lines.len(),
            !skip_errors ==> end == first_mark(failures),
            !skip_errors ==> forall|j: int| 0 <= j < i ==> !#[trigger] failures[j],
            batcher.wf(),
            batcher.rows_format() == format,
            0 <= full,
            full * BATCH_SIZE <= parsed(views.take(i as int)).len() < (full + 1) * BATCH_SIZE,
            batcher.pending() == parsed(views.take(i as int)).skip(full * BATCH_SIZE),
            forall|k: int| 0 <= k < full ==> table_fits(#[trigger] chunk(all, k), format),
        decreases lines.len() - i,
    {
        proof {
            assert(views.take(i + 1).drop_last() =~= views.take(i as int));
            lemma_first_mark(failures);
        }
        let ghost values = parsed(views.take(i as int));
        match line_value(lines[i].text.as_str(), skip_errors) {
            Ok(Some(value)) => {
                let ghost view = json_view(value);
                let ghost more = values.push(view);
                assert(parsed(views.take(i + 1)) == more);
                assert(!failures[i as int]);
                assert(more.skip(full * BATCH_SIZE) =~= values.skip(full * BATCH_SIZE).push(view));
                if batcher.push(value) {
                    proof {
                        lemma_parsed_grows(views, i + 1, end);
                        assert(chunk(all, full) =~= more.skip(full * BATCH_SIZE));
                        assert(full < table_count(views, skip_errors));
                    }
                    if !batcher.fits() {
                        return false;
                    }
                    batcher.clear();
                    proof {
                        full = full + 1;
                        assert(more.skip(full * BATCH_SIZE) =~= Seq::empty());
                    }
                }
            },
            Ok(None) => {
                assert(parsed(views.take(i + 1)) == values);
            },
            Err(_) => {
                proof {
                    assert(failures[i as int]);
                    lemma_first_mark_is(failures, i as int);
                    assert(table_count(views, skip_errors) == full);
                }
                return true;
            },
        }
        i += 1;
    }
    proof {
        if !skip_errors {
            lemma_first_mark_is(failures, failures.len() as int);
        }
        assert(all.len() / BATCH_SIZE as nat == full);
    }
    if batcher.is_empty() {
        assert(table_count(views, skip_errors) == full);
        return true;
    }
    proof {
        assert(batcher.pending() =~= chunk(all, full));
        assert(table_count(views, skip_errors) == full + 1);
    }
    batcher.fits()
}

/// What lines are converted into.
#[derive(Debug, Clone, Copy, PartialEq, Eq, Structural)]
pub enum Route {
    Lines,
    Table,
}

/// Decides what lines of one format are converted into for another. There is no conversion of a
/// format into itself.
pub fn route(from: Format, to: Format) -> (r: Result<Route, Error>)
    ensures
        from == to ==> r is Err && r->Err_0@ == ErrorView::SameFormat(from),
        from != to && to == Format::Parquet ==> (r matches Ok(Route::Table)),
        from != to && to != Format::Parquet ==> (r matches Ok(Route::Lines)),
{
    if from == to {
        Err(Error::SameFormat(from))
    } else if to == Format::Parquet {
        Ok(Route::Table)
    } else {
        Ok(Route::Lines)
    }
}

/// Converts lines of one format into another: into lines, or into the batches of a table. A
/// malformed line ends the run, unless such lines are skipped.
pub fn convert(
    lines: &Vec<Line>,
    output: &mut Vec<String>,
    batches: &mut Vec<Batch>,
    from: Format,
    to: Format,
    skip_errors: bool,
) -> (r: Result<(), Error>)
    requires
        from != to && to == Format::Parquet && shape(from) is Some ==> tables_fit(
            line_views(lines@),
            from,
            skip_errors,
        ),
    ensures
        from == to ==> r is Err && r->Err_0@ == ErrorView::SameFormat(from),
        to == Format::Parquet && from != to ==> tables_written(
            line_views(lines@),
            from,
            skip_errors,
            table_views(old(batches)@),
            table_views(final(batches)@),
            r,
        ),
        from == to || to != Format::Parquet ==> final(batches)@ == old(batches)@,
        from != to && to != Format::Parquet ==> lines_converted(
            line_views(lines@),
            from,
            to,
            skip_errors,
            texts(old(output)@),
            texts(final(output)@),
            r,
        ),
        from == to || to == Format::Parquet ==> final(output)@ == old(output)@,
{
    match route(from, to) {
        Ok(Route::Table) => write_parquet(lines, batches, from, skip_errors),
        Ok(Route::Lines) => convert_lines(lines, output, from, to, skip_errors),
        Err(e) => Err(e),
    }
}

/// Converts lines as `convert` does, where each batch can hold its values; else it does nothing.
pub fn try_convert(
    lines: &Vec<Line>,
    output: &mut Vec<String>,
    batches: &mut Vec<Batch>,
    from: Format,
    to: Format,
    skip_errors: bool,
) -> (r: Option<Result<(), Error>>)
    ensures
        r is None <==> from != to && to == Format::Parquet && shape(from) is Some && !tables_fit(
            line_views(lines@),
            from,
            skip_errors,
        ),
        r is None ==> final(batches)@ == old(batches)@ && final(output)@ == old(output)@,
        r is Some && from == to ==> r->0 is Err && r->0->Err_0@ == ErrorView::SameFormat(from),
        r is Some && to == Format::Parquet && from != to ==> tables_written(
            line_views(lines@),
            from,
            skip_errors,
            table_views(old(batches)@),
            table_views(final(batches)@),
            r->0,
        ),
        from == to || to != Format::Parquet ==> final(batches)@ == old(batches)@,
        from != to && to != Format::Parquet ==> lines_converted(
            line_views(lines@),
            from,
            to,
            skip_errors,
            texts(old(output)@),
            texts(final(output)@),
            r->0,
        ),
        from == to || to == Format::Parquet ==> final(output)@ == old(output)@,
{
    if from != to && to == Format::Parquet && from != Format::Arrow && !batches_fit(
        lines,
        from,
        skip_errors,
    ) {
        return None;
    }
    Some(convert(lines, output, batches, from, to, skip_errors))
}

/// The rows of tables, one table after the other.
pub open spec fn rows_of_tables(tables: Seq<TableView>, to: Format) -> Seq<JsonView>
    decreases tables.len(),
{
    if tables.len() == 0 {
        Seq::empty()
    } else {
        let rest = rows_of_tables(tables.drop_last(), to);
        match rows_of(tables.last(), to) {
            Ok(rows) => rest + rows,
            Err(_) => rest,
        }
    }
}

/// The lines of the rows of tables, one table after the other.
pub open spec fn lines_of_tables(tables: Seq<TableView>, to: Format) -> Seq<Seq<char>> {
    rows_of_tables(tables, to).map_values(|v: JsonView| text_of_json(v))
}

/// For each table whether its rows are no records of the format.
pub open spec fn misshapen(tables: Seq<TableView>, to: Format) -> Seq<bool> {
    Seq::new(tables.len(), |i: int| rows_of(tables[i], to) is Err)
}

/// Converts the batches of a table into lines. A batch whose columns are not the format's ends
/// the run.
pub fn convert_from_parquet(batches: &Vec<Batch>, output: &mut Vec<String>, to: Format) -> (r:
    Result<(), Error>)
    requires
        forall|i: int|
            0 <= i < batches.len() ==> has_columns(table_view(#[trigger] batches@[i]), to),
    ensures
        ({
            let tables = table_views(batches@);
            let end = first_mark(misshapen(tables, to));
            &&& 0 <= end <= tables.len()
            &&& texts(final(output)@) == texts(old(output)@) + lines_of_tables(tables.take(end), to)
            &&& r is Ok <==> end == tables.len()
            &&& r matches Err(e) ==> rows_of(tables[end], to) == Err::<Seq<JsonView>, ErrorView>(e@)
        }),
{
    let ghost tables = table_views(batches@);
    let ghost marks = misshapen(tables, to);
    let ghost before = texts(output@);
    let mut i: usize = 0;
    assert(texts(output@) =~= before + lines_of_tables(tables.take(0), to));
    while i < batches.len()
        invariant
            i <= batches.len(),
            forall|j: int|
                0 <= j < batches.len() ==> has_columns(table_view(#[trigger] batches@[j]), to),
            tables == table_views(batches@),
            marks == misshapen(tables, to),
            before == texts(old(output)@),
            texts(output@) == before + lines_of_tables(tables.take(i as int), to),
            forall|j: int| 0 <= j < i ==> !#[trigger] marks[j],
        decreases batches.len() - i,
    {
        assert(tables.take(i + 1).drop_last() =~= tables.take(i as int));
        match record_batch_to_json(&batches[i], to) {
            Ok(rows) => {
                assert(!marks[i as int]);
                let mut lines = row_lines(&rows);
                let ghost earlier = output@;
                let ghost added = lines@;
                output.append(&mut lines);
                assert(texts(output@) =~= texts(earlier) + texts(added));
                assert(texts(output@) =~= before + lines_of_tables(tables.take(i + 1), to));
            },
            Err(e) => {
                proof {
                    assert(marks[i as int]);
                    lemma_first_mark_is(marks, i as int);
                }
                return Err(e);
            },
        }
        i += 1;
    }
    proof {
        lemma_first_mark_is(marks, marks.len() as int);
        assert(tables.take(i as int) =~= tables);
    }
    Ok(())
}

/// Whether lines of one format are converted into lines of the other.
pub open spec fn line_pair(from: Format, to: Format) -> bool {
    &&& from != to
    &&& from == Format::Alpaca || from == Format::ShareGPT || from == Format::ChatML
    &&& to == Format::Alpaca || to == Format::ShareGPT || to == Format::ChatML
}

/// Where all lines can be read, a conversion between line formats writes one line for each, in
/// order.
pub proof fn law_conversion_keeps_lines(lines: Seq<LineView>, from: Format, to: Format)
    requires
        line_pair(from, to),
        forall|i: int| 0 <= i < lines.len() ==> !#[trigger] unreadable(lines, from, to)[i],
    ensures
        produced(lines, from, to).len() == lines.len(),
        forall|i: int|
            0 <= i < lines.len() ==> #[trigger] produced(lines, from, to)[i] == doc_text(
                converted(lines[i].reading, from, to)->Ok_0->0,
            ),
    decreases lines.len(),
{
    if lines.len() > 0 {
        let rest = lines.drop_last();
        assert forall|i: int| 0 <= i < rest.len() implies !#[trigger] unreadable(
            rest,
            from,
            to,
        )[i] by {
            assert(!unreadable(lines, from, to)[i]);
        }
        law_conversion_keeps_lines(rest, from, to);
        assert(!unreadable(lines, from, to)[lines.len() - 1]);
        assert forall|i: int| 0 <= i < lines.len() implies #[trigger] produced(lines, from, to)[i]
            == doc_text(converted(lines[i].reading, from, to)->Ok_0->0) by {
            if i < rest.len() {
                assert(produced(rest, from, to)[i] == doc_text(
                    converted(rest[i].reading, from, to)->Ok_0->0,
                ));
            }
        }
    }
}

/// Formats that are no line formats are not converted line by line: nothing comes out.
pub proof fn law_other_pairs_write_nothing(lines: Seq<LineView>, from: Format, to: Format)
    requires
        from != to,
        !line_pair(from, to),
    ensures
        produced(lines, from, to) == Seq::<Seq<char>>::empty(),
    decreases lines.len(),
{
    if lines.len() > 0 {
        law_other_pairs_write_nothing(lines.drop_last(), from, to);
    }
}

/// Whether reading a line gives the record back that the line was written for, if it was written
/// for one.
pub open spec fn reads_back(line: LineView) -> bool {
    &&& forall|a: AlpacaView| #[trigger]
        doc_text(alpaca_doc(a)) == line.text ==> line.reading.alpaca == Ok::<
            AlpacaView,
            Seq<char>,
        >(a)
    &&& forall|turns: Seq<Turn>| #[trigger]
        doc_text(turns_doc(turns, Format::ShareGPT)) == line.text ==> line.reading.sharegpt == Ok::<
            Seq<Turn>,
            Seq<char>,
        >(turns)
    &&& forall|turns: Seq<Turn>| #[trigger]
        doc_text(turns_doc(turns, Format::ChatML)) == line.text ==> line.reading.chatml == Ok::<
            Seq<Turn>,
            Seq<char>,
        >(turns)
}

/// Whether lines are those that a conversion wrote, each read back as what it was written for.
pub open spec fn read_back_from(
    written: Seq<LineView>,
    lines: Seq<LineView>,
    from: Format,
    to: Format,
) -> bool {
    &&& line_texts(written) == produced(lines, from, to)
    &&& forall|i: int| 0 <= i < written.len() ==> reads_back(#[trigger] written[i])
}

/// The turns of a line that is read as a chat format.
pub open spec fn chat_turns(reading: ReadingView, format: Format) -> Result<Seq<Turn>, Seq<char>> {
    if format == Format::ShareGPT {
        reading.sharegpt
    } else {
        reading.chatml
    }
}

/// Whether a conversation of a chat format lacks the speakers that the other chat format has in
/// place of its own.
pub open spec fn keeps_speakers(turns: Seq<Turn>, format: Format) -> bool {
    if format == Format::ShareGPT {
        lacks_speakers(turns, "user"@, "assistant"@)
    } else {
        lacks_speakers(turns, "human"@, "gpt"@)
    }
}

/// The line that a conversion wrote for a readable line, and the end of a run over readable lines.
proof fn lemma_written(
    written: Seq<LineView>,
    lines: Seq<LineView>,
    from: Format,
    to: Format,
)
    requires
        line_pair(from, to),
        read_back_from(written, lines, from, to),
        forall|i: int| 0 <= i < lines.len() ==> !#[trigger] unreadable(lines, from, to)[i],
    ensures
        written.len() == lines.len(),
        forall|i: int|
            0 <= i < lines.len() ==> (#[trigger] written[i]).text == doc_text(
                converted(lines[i].reading, from, to)->Ok_0->0,
            ),
        forall|skip_errors: bool| #[trigger]
            run_end(unreadable(lines, from, to), skip_errors) == lines.len(),
{
    law_conversion_keeps_lines(lines, from, to);
    assert(line_texts(written).len() == written.len());
    assert forall|i: int| 0 <= i < lines.len() implies (#[trigger] written[i]).text == doc_text(
        converted(lines[i].reading, from, to)->Ok_0->0,
    ) by {
        assert(line_texts(written)[i] == written[i].text);
        assert(produced(lines, from, to)[i] == doc_text(
            converted(lines[i].reading, from, to)->Ok_0->0,
        ));
    }
    lemma_first_mark_is(unreadable(lines, from, to), lines.len() as int);
}

/// Conversations that are converted from one chat format into the other and back come back as they
/// were, one line for each, in order, where none has the other format's speakers already; the
/// canonical texts stay all the way. Both runs end well.
pub proof fn law_chat_conversion_returns(
    lines: Seq<LineView>,
    there: Seq<LineView>,
    back: Seq<LineView>,
    from: Format,
    to: Format,
)
    requires
        (from == Format::ShareGPT && to == Format::ChatML) || (from == Format::ChatML && to
            == Format::ShareGPT),
        forall|i: int|
            0 <= i < lines.len() ==> chat_turns((#[trigger] lines[i]).reading, from) is Ok
                && keeps_speakers(chat_turns(lines[i].reading, from)->Ok_0, from),
        read_back_from(there, lines, from, to),
        read_back_from(back, there, to, from),
    ensures
        forall|skip_errors: bool| #[trigger]
            run_end(unreadable(lines, from, to), skip_errors) == lines.len(),
        forall|skip_errors: bool| #[trigger]
            run_end(unreadable(there, to, from), skip_errors) == there.len(),
        there.len() == lines.len(),
        back.len() == lines.len(),
        forall|i: int|
            #![trigger back[i]]
            0 <= i < lines.len() ==> {
                &&& chat_turns(back[i].reading, from) == chat_turns(lines[i].reading, from)
                &&& reading_text(there[i].reading, to) == reading_text(lines[i].reading, from)
                &&& reading_text(back[i].reading, from) == reading_text(lines[i].reading, from)
            },
{
    assert forall|i: int| 0 <= i < lines.len() implies !#[trigger] unreadable(
        lines,
        from,
        to,
    )[i] by {
        assert(chat_turns(lines[i].reading, from) is Ok);
    }
    lemma_written(there, lines, from, to);
    assert forall|i: int| 0 <= i < lines.len() implies {
        let turns = chat_turns(lines[i].reading, from)->Ok_0;
        &&& chat_turns((#[trigger] there[i]).reading, to) == Ok::<Seq<Turn>, Seq<char>>(
            if from == Format::ShareGPT {
                with_chatml_roles(turns)
            } else {
                with_sharegpt_speakers(turns)
            },
        )
        &&& reading_text(there[i].reading, to) == reading_text(lines[i].reading, from)
    } by {
        assert(chat_turns(lines[i].reading, from) is Ok);
        let turns = chat_turns(lines[i].reading, from)->Ok_0;
        assert(reads_back(there[i]));
        law_renaming_keeps_text(turns);
    }
    assert forall|i: int| 0 <= i < there.len() implies !#[trigger] unreadable(
        there,
        to,
        from,
    )[i] by {
        assert(chat_turns(there[i].reading, to) is Ok);
    }
    lemma_written(back, there, to, from);
    assert forall|i: int| #![trigger back[i]] 0 <= i < lines.len() implies {
        &&& chat_turns(back[i].reading, from) == chat_turns(lines[i].reading, from)
        &&& reading_text(back[i].reading, from) == reading_text(lines[i].reading, from)
    } by {
        assert(chat_turns(lines[i].reading, from) is Ok);
        let turns = chat_turns(lines[i].reading, from)->Ok_0;
        assert(chat_turns(there[i].reading, to) is Ok);
        assert(reads_back(back[i]));
        if from == Format::ShareGPT {
            law_sharegpt_chatml_round_trip(turns);
        } else {
            law_chatml_sharegpt_round_trip(turns);
        }
    }
}

/// Instruction records that are converted into a chat format and back come back one line for each,
/// in order, with the input, where there is one, on the lines after the instruction; without input
/// they come back as they were. Both runs end well.
pub proof fn law_alpaca_conversion_returns(
    lines: Seq<LineView>,
    there: Seq<LineView>,
    back: Seq<LineView>,
    chat: Format,
)
    requires
        chat == Format::ShareGPT || chat == Format::ChatML,
        forall|i: int| 0 <= i < lines.len() ==> (#[trigger] lines[i]).reading.alpaca is Ok,
        read_back_from(there, lines, Format::Alpaca, chat),
        read_back_from(back, there, chat, Format::Alpaca),
    ensures
        forall|skip_errors: bool| #[trigger]
            run_end(unreadable(lines, Format::Alpaca, chat), skip_errors) == lines.len(),
        forall|skip_errors: bool| #[trigger]
            run_end(unreadable(there, chat, Format::Alpaca), skip_errors) == there.len(),
        there.len() == lines.len(),
        back.len() == lines.len(),
        forall|i: int|
            #![trigger back[i]]
            0 <= i < lines.len() ==> {
                let a = lines[i].reading.alpaca->Ok_0;
                &&& back[i].reading.alpaca == Ok::<AlpacaView, Seq<char>>(
                    AlpacaView { instruction: request(a), input: Seq::empty(), output: a.output },
                )
                &&& a.input.len() == 0 ==> back[i].reading.alpaca == lines[i].reading.alpaca
            },
{
    assert forall|i: int| 0 <= i < lines.len() implies !#[trigger] unreadable(
        lines,
        Format::Alpaca,
        chat,
    )[i] by {
        assert(lines[i].reading.alpaca is Ok);
    }
    lemma_written(there, lines, Format::Alpaca, chat);
    assert forall|i: int| 0 <= i < lines.len() implies {
        let a = lines[i].reading.alpaca->Ok_0;
        chat_turns((#[trigger] there[i]).reading, chat) == Ok::<Seq<Turn>, Seq<char>>(
            if chat == Format::ShareGPT {
                exchange(a, "human"@, "gpt"@)
            } else {
                exchange(a, "user"@, "assistant"@)
            },
        )
    } by {
        assert(lines[i].reading.alpaca is Ok);
        assert(reads_back(there[i]));
    }
    assert forall|i: int| 0 <= i < there.len() implies !#[trigger] unreadable(
        there,
        chat,
        Format::Alpaca,
    )[i] by {
        assert(chat_turns(there[i].reading, chat) is Ok);
    }
    lemma_written(back, there, chat, Format::Alpaca);
    assert forall|i: int| #![trigger back[i]] 0 <= i < lines.len() implies {
        let a = lines[i].reading.alpaca->Ok_0;
        &&& back[i].reading.alpaca == Ok::<AlpacaView, Seq<char>>(
            AlpacaView { instruction: request(a), input: Seq::empty(), output: a.output },
        )
        &&& a.input.len() == 0 ==> back[i].reading.alpaca == lines[i].reading.alpaca
    } by {
        assert(lines[i].reading.alpaca is Ok);
        assert(chat_turns(there[i].reading, chat) is Ok);
        assert(reads_back(back[i]));
        law_alpaca_round_trip(lines[i].reading.alpaca->Ok_0);
    }
}

/// How far the first batches reach.
spec fn reached(values: nat, batches: nat) -> int {
    if batches * BATCH_SIZE <= values {
        batches * BATCH_SIZE as int
    } else {
        values as int
    }
}

/// The rows of the first batches of values.
proof fn lemma_rows_of_batches(values: Seq<JsonView>, count: nat, format: Format)
    requires
        shape(format) is Some,
        count <= chunk_count(values.len(), true),
    ensures
        rows_of_tables(tables_of(values, count, format), format) == values.take(
            reached(values.len(), count),
        ).map_values(|v: JsonView| table_row(v, format)),
    decreases count,
{
    let kept = |v: JsonView| table_row(v, format);
    let tables = tables_of(values, count, format);
    if count == 0 {
        assert(values.take(0).map_values(kept) =~= Seq::empty());
    } else {
        let fewer = (count - 1) as nat;
        lemma_rows_of_batches(values, fewer, format);
        assert(tables.drop_last() =~= tables_of(values, fewer, format));
        let last = chunk(values, fewer as int);
        law_table_round_trip(last, format);
        assert(tables.last() == table_of(last, format));
        assert(values.take(reached(values.len(), count)) =~= values.take(
            reached(values.len(), fewer),
        ) + last);
        assert(values.take(reached(values.len(), count)).map_values(kept) =~= values.take(
            reached(values.len(), fewer),
        ).map_values(kept) + last.map_values(kept));
    }
}

/// Values that are put into the batches of a table and read back from it come back in order, one
/// row for each, over all cuts between batches, with what the table keeps of it; records come back
/// as they were. The lines are those of the rows, and no batch is refused.
pub proof fn law_parquet_round_trip(values: Seq<JsonView>, format: Format)
    requires
        shape(format) is Some,
    ensures
        ({
            let tables = tables_of(values, chunk_count(values.len(), true), format);
            let rows = values.map_values(|v: JsonView| table_row(v, format));
            &&& rows_of_tables(tables, format) == rows
            &&& lines_of_tables(tables, format) == rows.map_values(|v: JsonView| text_of_json(v))
            &&& first_mark(misshapen(tables, format)) == tables.len()
            &&& (forall|i: int| 0 <= i < values.len() ==> is_record(#[trigger] values[i], format))
                ==> rows_of_tables(tables, format) == values && lines_of_tables(tables, format)
                == values.map_values(|v: JsonView| text_of_json(v))
        }),
{
    let count = chunk_count(values.len(), true);
    let rows = values.map_values(|v: JsonView| table_row(v, format));
    lemma_rows_of_batches(values, count, format);
    assert(values.take(reached(values.len(), count)) =~= values);
    let tables = tables_of(values, count, format);
    let marks = misshapen(tables, format);
    assert forall|i: int| 0 <= i < marks.len() implies !#[trigger] marks[i] by {
        law_table_round_trip(chunk(values, i), format);
    }
    lemma_first_mark_is(marks, marks.len() as int);
    if forall|i: int| 0 <= i < values.len() ==> is_record(#[trigger] values[i], format) {
        assert forall|i: int| 0 <= i < values.len() implies #[trigger] rows[i] == values[i] by {
            law_table_keeps_values(values[i], format);
        }
        assert(rows =~= values);
    }
}

/// What a readable line becomes: an instruction record the exchange of its request and output, a
/// conversation its first words, or the same conversation under the other format's speakers.
pub proof fn law_records_become_their_counterparts(reading: ReadingView)
    ensures
        reading.alpaca matches Ok(a) ==> {
            &&& converted(reading, Format::Alpaca, Format::ShareGPT) == Ok::<
                Option<Doc>,
                ErrorView,
            >(Some(turns_doc(exchange(a, "human"@, "gpt"@), Format::ShareGPT)))
            &&& converted(reading, Format::Alpaca, Format::ChatML) == Ok::<Option<Doc>, ErrorView>(
                Some(turns_doc(exchange(a, "user"@, "assistant"@), Format::ChatML)),
            )
        },
        reading.sharegpt matches Ok(turns) ==> {
            &&& converted(reading, Format::ShareGPT, Format::Alpaca) == Ok::<
                Option<Doc>,
                ErrorView,
            >(Some(alpaca_doc(condensed(turns, "human"@, "gpt"@))))
            &&& converted(reading, Format::ShareGPT, Format::ChatML) == Ok::<
                Option<Doc>,
                ErrorView,
            >(Some(turns_doc(with_chatml_roles(turns), Format::ChatML)))
        },
        reading.chatml matches Ok(turns) ==> {
            &&& converted(reading, Format::ChatML, Format::Alpaca) == Ok::<Option<Doc>, ErrorView>(
                Some(alpaca_doc(condensed(turns, "user"@, "assistant"@))),
            )
            &&& converted(reading, Format::ChatML, Format::ShareGPT) == Ok::<
                Option<Doc>,
                ErrorView,
            >(Some(turns_doc(with_sharegpt_speakers(turns), Format::ShareGPT)))
        },
{
}

/// A line that cannot be read as a record of the source format is told in the words of its reading,
/// whatever it is to become.
pub proof fn law_unreadable_lines_are_told(reading: ReadingView, from: Format, to: Format)
    requires
        line_pair(from, to),
    ensures
        from == Format::Alpaca ==> (converted(reading, from, to) is Err <==> reading.alpaca is Err),
        from == Format::ShareGPT ==> (converted(reading, from, to) is Err
            <==> reading.sharegpt is Err),
        from == Format::ChatML ==> (converted(reading, from, to) is Err <==> reading.chatml is Err),
        from == Format::Alpaca && reading.alpaca is Err ==> converted(reading, from, to) == Err::<
            Option<Doc>,
            ErrorView,
        >(ErrorView::Json(reading.alpaca->Err_0)),
        from == Format::ShareGPT && reading.sharegpt is Err ==> converted(reading, from, to)
            == Err::<Option<Doc>, ErrorView>(ErrorView::Json(reading.sharegpt->Err_0)),
        from == Format::ChatML && reading.chatml is Err ==> converted(reading, from, to) == Err::<
            Option<Doc>,
            ErrorView,
        >(ErrorView::Json(reading.chatml->Err_0)),
{
}

/// What comes out of a conversion grows by one line for each line that becomes something, and by
/// nothing for another.
pub proof fn law_conversion_grows_line_by_line(
    lines: Seq<LineView>,
    line: LineView,
    from: Format,
    to: Format,
)
    ensures
        produced(Seq::empty(), from, to).len() == 0,
        unreadable(lines, from, to).len() == lines.len(),
        match converted(line.reading, from, to) {
            Ok(Some(doc)) => produced(lines.push(line), from, to) == produced(lines, from, to).push(
                doc_text(doc),
            ),
            _ => produced(lines.push(line), from, to) == produced(lines, from, to),
        },
        forall|i: int|
            0 <= i < lines.len() ==> #[trigger] unreadable(lines, from, to)[i] == (converted(
                lines[i].reading,
                from,
                to,
            ) is Err),
{
    assert(lines.push(line).drop_last() =~= lines);
}

/// The values that go into a table are those of all lines that hold one, in order.
pub proof fn law_table_values_grow_line_by_line(
    lines: Seq<LineView>,
    line: LineView,
    skip_errors: bool,
)
    ensures
        parsed(Seq::empty()).len() == 0,
        match json_of_text(line.text) {
            Ok(value) => parsed(lines.push(line)) == parsed(lines).push(value),
            Err(_) => parsed(lines.push(line)) == parsed(lines),
        },
        table_values(lines, true) == parsed(lines),
        (forall|i: int| 0 <= i < lines.len() ==> json_of_text((#[trigger] lines[i]).text) is Ok)
            ==> table_values(lines, skip_errors) == parsed(lines) && table_count(lines, skip_errors)
            == chunk_count(parsed(lines).len(), true),
{
    assert(lines.push(line).drop_last() =~= lines);
    assert(lines.take(lines.len() as int) =~= lines);
    if forall|i: int| 0 <= i < lines.len() ==> json_of_text((#[trigger] lines[i]).text) is Ok {
        let failures = unparsable(lines);
        assert forall|i: int| 0 <= i < failures.len() implies !#[trigger] failures[i] by {
            assert(json_of_text(lines[i].text) is Ok);
        }
        lemma_first_mark_is(failures, failures.len() as int);
    }
}

/// Values are cut into batches of a thousand, one behind the other; the last has the rest. At the
/// end each value is in a batch.
pub proof fn law_batches_have_a_thousand_values(values: Seq<JsonView>, format: Format, k: int)
    requires
        0 <= k < chunk_count(values.len(), true),
    ensures
        ({
            let count = chunk_count(values.len(), true);
            let tables = tables_of(values, count, format);
            &&& tables.len() == count
            &&& 1000 * (count - 1) < values.len() <= 1000 * count
            &&& k + 1 < count ==> tables[k] == table_of(
                values.subrange(1000 * k, 1000 * k + 1000),
                format,
            )
            &&& k + 1 == count ==> tables[k] == table_of(
                values.subrange(1000 * k, values.len() as int),
                format,
            )
        }),
        chunk_count(0, true) == 0,
        chunk_count(values.len(), false) == values.len() / 1000,
{
}

/// A run over lines that are converted one by one: where it ends well, all that comes of the lines
/// is written behind what was there; a line that cannot be read ends it, unless such lines are
/// passed over, and then what came of the lines before it is written.
pub proof fn law_runs_write_what_was_converted(
    lines: Seq<LineView>,
    from: Format,
    to: Format,
    skip_errors: bool,
    before: Seq<Seq<char>>,
    after: Seq<Seq<char>>,
    r: Result<(), Error>,
    end: int,
)
    requires
        lines_converted(lines, from, to, skip_errors, before, after, r),
        0 <= end <= lines.len(),
        forall|i: int|
            0 <= i < end ==> converted((#[trigger] lines[i]).reading, from, to) is Ok,
        end < lines.len() ==> converted(lines[end].reading, from, to) is Err,
    ensures
        skip_errors || end == lines.len() ==> r is Ok && after == before + produced(
            lines,
            from,
            to,
        ),
        !skip_errors && end < lines.len() ==> r is Err && after == before + produced(
            lines.take(end),
            from,
            to,
        ) && converted(lines[end].reading, from, to) == Err::<Option<Doc>, ErrorView>(r->Err_0@),
{
    let failures = unreadable(lines, from, to);
    assert forall|i: int| 0 <= i < end implies !#[trigger] failures[i] by {
        assert(converted(lines[i].reading, from, to) is Ok);
    }
    lemma_first_mark_is(failures, end);
    assert(lines.take(lines.len() as int) =~= lines);
}

/// A run over lines that go into a table: where it ends well, the batches of all values are written
/// behind those that were there; a line that holds no value ends it, unless such lines are passed
/// over, and then the full batches of the values before it are written.
pub proof fn law_runs_write_all_batches(
    lines: Seq<LineView>,
    format: Format,
    skip_errors: bool,
    before: Seq<TableView>,
    after: Seq<TableView>,
    r: Result<(), Error>,
    end: int,
)
    requires
        tables_written(lines, format, skip_errors, before, after, r),
        shape(format) is Some,
        0 <= end <= lines.len(),
        forall|i: int| 0 <= i < end ==> json_of_text((#[trigger] lines[i]).text) is Ok,
        end < lines.len() ==> json_of_text(lines[end].text) is Err,
    ensures
        skip_errors || end == lines.len() ==> r is Ok && after == before + tables_of(
            parsed(lines),
            chunk_count(parsed(lines).len(), true),
            format,
        ),
        !skip_errors && end < lines.len() ==> r is Err && after == before + tables_of(
            parsed(lines.take(end)),
            chunk_count(parsed(lines.take(end)).len(), false),
            format,
        ) && r->Err_0@ == ErrorView::Json(json_of_text(lines[end].text)->Err_0),
{
    let failures = unparsable(lines);
    assert forall|i: int| 0 <= i < end implies !#[trigger] failures[i] by {
        assert(json_of_text(lines[i].text) is Ok);
    }
    lemma_first_mark_is(failures, end);
    assert(lines.take(lines.len() as int) =~= lines);
}

/// A format without a table schema is refused, and nothing is written.
pub proof fn law_formats_without_schema_are_refused(
    lines: Seq<LineView>,
    format: Format,
    skip_errors: bool,
    before: Seq<TableView>,
    after: Seq<TableView>,
    r: Result<(), Error>,
)
    requires
        tables_written(lines, format, skip_errors, before, after, r),
        format == Format::Parquet || format == Format::Arrow,
    ensures
        r is Err,
        r->Err_0@ == ErrorView::NoSchema(format),
        after == before,
{
}

/// The rows of tables are those of each in turn, and their lines the texts of the rows; a table is
/// misshapen where it has no rows of the format.
pub proof fn law_rows_come_table_by_table(tables: Seq<TableView>, table: TableView, to: Format)
    ensures
        rows_of_tables(Seq::empty(), to).len() == 0,
        match rows_of(table, to) {
            Ok(rows) => rows_of_tables(tables.push(table), to) == rows_of_tables(tables, to) + rows,
            Err(_) => rows_of_tables(tables.push(table), to) == rows_of_tables(tables, to),
        },
        lines_of_tables(tables, to).len() == rows_of_tables(tables, to).len(),
        forall|i: int|
            0 <= i < rows_of_tables(tables, to).len() ==> #[trigger] lines_of_tables(tables, to)[i]
                == text_of_json(rows_of_tables(tables, to)[i]),
        misshapen(tables, to).len() == tables.len(),
        forall|i: int|
            0 <= i < tables.len() ==> #[trigger] misshapen(tables, to)[i] == (rows_of(tables[i], to)
                is Err),
{
    assert(tables.push(table).drop_last() =~= tables);
}

/// Batches are viewed one by one, in order.
pub proof fn law_batches_are_viewed_in_order(batches: Seq<Batch>)
    ensures
        table_views(batches).len() == batches.len(),
        forall|i: int|
            0 <= i < batches.len() ==> #[trigger] table_views(batches)[i] == table_view(batches[i]),
{
}

/// The batches of lines fit where each thousand of their values, and the rest, fits a table.
pub proof fn law_what_fits_the_batches(lines: Seq<LineView>, from: Format, skip_errors: bool)
    requires
        forall|i: int| 0 <= i < lines.len() ==> json_of_text((#[trigger] lines[i]).text) is Ok,
        forall|k: int, to: int|
            #![trigger parsed(lines).subrange(1000 * k, to)]
            0 <= k && 1000 * k < to <= parsed(lines).len() && to - 1000 * k <= 1000 ==> table_fits(
                parsed(lines).subrange(1000 * k, to),
                from,
            ),
    ensures
        tables_fit(lines, from, skip_errors),
{
    let values = parsed(lines);
    if lines.len() > 0 {
        law_table_values_grow_line_by_line(lines, lines[0], skip_errors);
    } else {
        assert(lines.take(0) =~= lines);
        lemma_first_mark(unparsable(lines));
    }
    assert(table_values(lines, skip_errors) =~= values);
    assert forall|k: int| 0 <= k < table_count(lines, skip_errors) implies table_fits(
        #[trigger] chunk(table_values(lines, skip_errors), k),
        from,
    ) by {
        let to = if k * 1000 + 1000 <= values.len() {
            k * 1000 + 1000
        } else {
            values.len() as int
        };
        assert(chunk(values, k) =~= values.subrange(1000 * k, to));
    }
}

} // verus!
