//! Tables on disk: batches of rows, and their rows as lines.

use std::sync::Arc;

use vstd::prelude::*;

use crate::arrow_table::{schema_view, table_view, Batch};
use crate::error::{Error, ErrorView};
use crate::format::Format;
use crate::json::{
    json_of_text, json_view, parse_value, plain_within, reads_as, text_of_json, value_text,
    JsonView,
};
use crate::table::{
    batch_fits, get_arrow_schema, has_columns, json_to_record_batch, json_views,
    record_batch_to_json, rows_of, shape, table_fits, table_of,
};
use crate::text::texts;

verus! {

/// How many rows a batch has; the last one of a table may have less.
pub const BATCH_SIZE: usize = 1000;

/// Collects JSON values into batches of rows.
pub struct Batcher {
    format: Format,
    schema: Arc<arrow::datatypes::Schema>,
    values: Vec<serde_json::Value>,
}

impl Batcher {
    /// The format of the rows.
    pub closed spec fn rows_format(&self) -> Format {
        self.format
    }

    /// The values that are in no batch yet.
    pub closed spec fn pending(&self) -> Seq<JsonView> {
        json_views(self.values@)
    }

    /// The schema is the format's, and no more values wait than a batch has rows.
    pub closed spec fn wf(&self) -> bool {
        &&& shape(self.format) == Some(schema_view(*self.schema))
        &&& self.values@.len() <= BATCH_SIZE
    }

    /// A batcher without values.
    pub fn new(format: Format) -> (r: Result<Batcher, Error>)
        ensures
            r is Ok <==> shape(format) is Some,
            match r {
                Ok(batcher) => {
                    &&& batcher.wf()
                    &&& batcher.rows_format() == format
                    &&& batcher.pending() == Seq::<JsonView>::empty()
                },
                Err(e) => e@ == ErrorView::NoSchema(format),
            },
    {
        match get_arrow_schema(format) {
            Ok(schema) => {
                let batcher = Batcher { format, schema, values: Vec::new() };
                assert(batcher.pending() =~= Seq::<JsonView>::empty());
                Ok(batcher)
            },
            Err(e) => Err(e),
        }
    }

    /// The schema of the batches.
    pub fn schema(&self) -> (r: &Arc<arrow::datatypes::Schema>)
        requires
            self.wf(),
        ensures
            shape(self.rows_format()) == Some(schema_view(**r)),
    {
        &self.schema
    }

    /// Adds a value; says whether it fills a batch.
    pub fn push(&mut self, value: serde_json::Value) -> (r: bool)
        requires
            old(self).wf(),
            old(self).pending().len() < BATCH_SIZE,
        ensures
            final(self).wf(),
            final(self).rows_format() == old(self).rows_format(),
            final(self).pending() == old(self).pending().push(json_view(value)),
            r == (final(self).pending().len() == BATCH_SIZE),
    {
        let ghost before = self.pending();
        self.values.push(value);
        assert(self.pending() =~= before.push(json_view(value)));
        self.values.len() >= BATCH_SIZE
    }

    /// Whether no value waits.
    pub fn is_empty(&self) -> (r: bool)
        ensures
            r == (self.pending().len() == 0),
    {
        self.values.len() == 0
    }

    /// Whether a batch can hold the values that wait.
    pub fn fits(&self) -> (r: bool)
        requires
            self.wf(),
        ensures
            r == table_fits(self.pending(), self.rows_format()),
    {
        batch_fits(&self.values, self.format)
    }

    /// Drops the values that wait.
    pub fn clear(&mut self)
        requires
            old(self).wf(),
        ensures
            final(self).wf(),
            final(self).rows_format() == old(self).rows_format(),
            final(self).pending() == Seq::<JsonView>::empty(),
    {
        self.values = Vec::new();
        assert(self.pending() =~= Seq::<JsonView>::empty());
    }

    /// Makes a batch of the values that wait.
    pub fn take_batch(&mut self) -> (r: Result<Batch, String>)
        requires
            old(self).wf(),
            table_fits(old(self).pending(), old(self).rows_format()),
        ensures
            r is Ok,
            table_view(r->Ok_0) == table_of(old(self).pending(), old(self).rows_format()),
            final(self).wf(),
            final(self).rows_format() == old(self).rows_format(),
            final(self).pending() == Seq::<JsonView>::empty(),
    {
        let batch = json_to_record_batch(&self.values, self.format, &self.schema);
        self.clear();
        batch
    }
}

/// The value of a line; nothing of a line that is passed over.
pub fn line_value(line: &str, skip_errors: bool) -> (r: Result<Option<serde_json::Value>, Error>)
    ensures
        match json_of_text(line@) {
            Ok(view) => r matches Ok(Some(value)) && json_view(value) == view,
            Err(words) => if skip_errors {
                r matches Ok(None)
            } else {
                r is Err && r->Err_0@ == ErrorView::Json(words)
            },
        },
{
    match parse_value(line) {
        Ok(value) => Ok(Some(value)),
        Err(words) => if skip_errors {
            Ok(None)
        } else {
            Err(Error::Json(words))
        },
    }
}

/// The line of a row. It is read back as the row, where this is made of texts, lists and fields.
pub fn row_line(value: &serde_json::Value) -> (r: String)
    ensures
        r@ == text_of_json(json_view(*value)),
        plain_within(json_view(*value), 8) ==> reads_as(r@, json_view(*value)),
{
    match value_text(value) {
        Ok(line) => line,
        Err(words) => words,
    }
}

/// The lines of rows.
pub fn row_lines(values: &Vec<serde_json::Value>) -> (r: Vec<String>)
    ensures
        texts(r@) == json_views(values@).map_values(|v: JsonView| text_of_json(v)),
        forall|i: int|
            0 <= i < values.len() && plain_within(json_view(#[trigger] values@[i]), 8) ==> reads_as(
                r@[i]@,
                json_view(values@[i]),
            ),
{
    let mut out: Vec<String> = Vec::new();
    let mut i: usize = 0;
    while i < values.len()
        invariant
            i <= values.len(),
            out.len() == i,
            forall|k: int|
                0 <= k < i ==> (#[trigger] out@[k])@ == text_of_json(json_view(values@[k])),
            forall|k: int|
                0 <= k < i && plain_within(json_view(#[trigger] values@[k]), 8) ==> reads_as(
                    out@[k]@,
                    json_view(values@[k]),
                ),
        decreases values.len() - i,
    {
        out.push(row_line(&values[i]));
        i += 1;
    }
    assert(texts(out@) =~= json_views(values@).map_values(|v: JsonView| text_of_json(v)));
    out
}

/// The bytes of lines, each with its line feed.
pub open spec fn line_stream(lines: Seq<Seq<char>>) -> Seq<u8>
    decreases lines.len(),
{
    if lines.len() == 0 {
        Seq::empty()
    } else {
        vstd::utf8::encode_utf8(lines[0]).push(10u8) + line_stream(lines.drop_first())
    }
}

/// The rows of tables, as lines that are read as a stream of bytes.
#[derive(Debug)]
pub struct ParquetLineReader {
    format: Format,
    lines: Vec<String>,
    next: usize,
    current: Vec<u8>,
    pos: usize,
}

impl ParquetLineReader {
    /// The format of the rows.
    pub closed spec fn rows_format(&self) -> Format {
        self.format
    }

    /// What is not read of the current line.
    pub closed spec fn ahead(&self) -> Seq<u8> {
        self.current@.skip(self.pos as int)
    }

    /// What is not read of all lines.
    pub closed spec fn pending(&self) -> Seq<u8> {
        self.ahead() + line_stream(texts(self.lines@).skip(self.next as int))
    }

    /// The places that were read up to exist.
    pub closed spec fn wf(&self) -> bool {
        &&& self.pos <= self.current@.len()
        &&& self.next <= self.lines@.len()
    }

    /// A reader of rows of a format, without lines yet.
    pub fn new(format: Format) -> (r: ParquetLineReader)
        ensures
            r.wf(),
            r.rows_format() == format,
            r.pending() == Seq::<u8>::empty(),
    {
        let r = ParquetLineReader {
            format,
            lines: Vec::new(),
            next: 0,
            current: Vec::new(),
            pos: 0,
        };
        assert(texts(r.lines@).skip(0) =~= Seq::empty());
        assert(r.pending() =~= Seq::empty());
        r
    }

    /// Whether all lines are read.
    pub fn drained(&self) -> (r: bool)
        requires
            self.wf(),
        ensures
            r == (self.pending().len() == 0),
    {
        proof {
            let rest = texts(self.lines@).skip(self.next as int);
            if self.pos == self.current.len() && self.next == self.lines.len() {
                assert(rest =~= Seq::empty());
                assert(line_stream(rest) =~= Seq::empty());
                assert(self.ahead() =~= Seq::empty());
                assert(self.pending().len() == 0);
            } else if self.pos < self.current.len() {
                assert(self.pending()[0] == self.current@[self.pos as int]);
            } else {
                assert(line_stream(rest).len() > 0);
                assert(self.pending().len() > 0);
            }
        }
        self.pos == self.current.len() && self.next == self.lines.len()
    }

    /// Adds lines, where all are read.
    pub fn feed(&mut self, lines: Vec<String>)
        requires
            old(self).wf(),
            old(self).pending().len() == 0,
        ensures
            final(self).wf(),
            final(self).rows_format() == old(self).rows_format(),
            final(self).pending() == line_stream(texts(lines@)),
    {
        self.lines = lines;
        self.next = 0;
        self.current = Vec::new();
        self.pos = 0;
        proof {
            assert(texts(self.lines@).skip(0) =~= texts(lines@));
            assert(self.pending() =~= line_stream(texts(lines@)));
        }
    }

    /// Adds the rows of a batch, where all lines are read. A batch whose columns are not the
    /// format's is refused.
    pub fn feed_batch(&mut self, batch: &Batch) -> (r: Result<(), Error>)
        requires
            old(self).wf(),
            old(self).pending().len() == 0,
            has_columns(table_view(*batch), old(self).rows_format()),
        ensures
            final(self).wf(),
            final(self).rows_format() == old(self).rows_format(),
            match rows_of(table_view(*batch), old(self).rows_format()) {
                Ok(rows) => r is Ok && final(self).pending() == line_stream(
                    rows.map_values(|v: JsonView| text_of_json(v)),
                ),
                Err(e) => r is Err && r->Err_0@ == e && *final(self) == *old(self),
            },
    {
        match record_batch_to_json(batch, self.format) {
            Ok(rows) => {
                self.feed(row_lines(&rows));
                Ok(())
            },
            Err(e) => Err(e),
        }
    }

    /// Goes on to the next line, where the current one is read.
    pub fn advance(&mut self)
        requires
            old(self).wf(),
        ensures
            final(self).wf(),
            final(self).rows_format() == old(self).rows_format(),
            final(self).pending() == old(self).pending(),
            final(self).ahead().len() == 0 ==> final(self).pending().len() == 0,
    {
        if self.pos == self.current.len() && self.next < self.lines.len() {
            let ghost rest = texts(self.lines@).skip(self.next as int);
            let ghost line = texts(self.lines@)[self.next as int];
            let bytes = self.lines[self.next].as_str().as_bytes();
            let mut current: Vec<u8> = Vec::new();
            let mut i: usize = 0;
            while i < bytes.len()
                invariant
                    i <= bytes.len(),
                    current@ == bytes@.take(i as int),
                decreases bytes.len() - i,
            {
                current.push(bytes[i]);
                assert(current@ =~= bytes@.take(i + 1));
                i += 1;
            }
            assert(bytes@.take(i as int) =~= bytes@);
            current.push(10u8);
            proof {
                assert(rest.drop_first() =~= texts(self.lines@).skip(self.next + 1));
                assert(rest[0] == line);
                assert(self.ahead() =~= Seq::empty());
                assert(self.pending() =~= line_stream(rest));
            }
            self.current = current;
            self.pos = 0;
            self.next = self.next + 1;
            proof {
                assert(self.ahead() =~= vstd::utf8::encode_utf8(line).push(10u8));
                assert(self.pending() =~= line_stream(rest));
            }
        } else {
            proof {
                if self.ahead().len() == 0 {
                    assert(texts(self.lines@).skip(self.next as int) =~= Seq::empty());
                    assert(self.pending() =~= Seq::empty());
                }
            }
        }
    }

    /// What is not read of the current line.
    pub fn chunk(&self) -> (r: &[u8])
        requires
            self.wf(),
        ensures
            r@ == self.ahead(),
    {
        let all = self.current.as_slice();
        let r = vstd::slice::slice_subrange(all, self.pos, all.len());
        assert(r@ =~= self.ahead());
        r
    }

    /// Marks bytes of the current line as read.
    pub fn consume(&mut self, amount: usize)
        requires
            old(self).wf(),
            amount <= old(self).ahead().len(),
        ensures
            final(self).wf(),
            final(self).rows_format() == old(self).rows_format(),
            final(self).ahead() == old(self).ahead().skip(amount as int),
            final(self).pending() == old(self).pending().skip(amount as int),
    {
        let ghost before = *self;
        assert(self.pos + amount <= self.current.len());
        self.pos = self.pos + amount;
        assert(self.ahead() =~= before.ahead().skip(amount as int));
        assert(self.pending() =~= before.pending().skip(amount as int));
    }

    /// Reads bytes: as many as asked for, or all where there are fewer.
    pub fn read(&mut self, max: usize) -> (r: Vec<u8>)
        requires
            old(self).wf(),
        ensures
            final(self).wf(),
            final(self).rows_format() == old(self).rows_format(),
            r@ + final(self).pending() == old(self).pending(),
            r@.len() == if max < old(self).pending().len() {
                max as nat
            } else {
                old(self).pending().len()
            },
    {
        let mut out: Vec<u8> = Vec::new();
        assert(out@ + self.pending() =~= self.pending());
        while out.len() < max && !self.drained()
            invariant
                self.wf(),
                self.rows_format() == old(self).rows_format(),
                out.len() <= max,
                out@ + self.pending() == old(self).pending(),
            decreases max - out.len(),
        {
            let ghost stream = self.pending();
            self.advance();
            let byte: u8 = self.chunk()[0];
            assert(stream[0] == byte);
            self.consume(1);
            let ghost known = out@;
            out.push(byte);
            assert(out@ + self.pending() =~= known + stream);
        }
        out
    }
}

/// The bytes of some lines come before those of the rest.
pub proof fn law_stream_joins(first: Seq<Seq<char>>, rest: Seq<Seq<char>>)
    ensures
        line_stream(first + rest) == line_stream(first) + line_stream(rest),
    decreases first.len(),
{
    let all = first + rest;
    if first.len() == 0 {
        assert(all =~= rest);
        assert(line_stream(first) + line_stream(rest) =~= line_stream(rest));
    } else {
        law_stream_joins(first.drop_first(), rest);
        assert(all.drop_first() =~= first.drop_first() + rest);
        assert(line_stream(all) =~= line_stream(first) + line_stream(rest));
    }
}

/// The stream of lines grows by the bytes of each line in UTF-8 and one line feed.
pub proof fn law_stream_grows_line_by_line(lines: Seq<Seq<char>>, line: Seq<char>)
    ensures
        line_stream(Seq::empty()).len() == 0,
        line_stream(lines.push(line)) == line_stream(lines) + vstd::utf8::encode_utf8(line)
            + seq![10u8],
{
    let one = seq![line];
    law_stream_joins(lines, one);
    assert(lines + one =~= lines.push(line));
    assert(one.drop_first() =~= Seq::<Seq<char>>::empty());
    assert(line_stream(one.drop_first()) =~= Seq::<u8>::empty());
    assert(line_stream(one) =~= vstd::utf8::encode_utf8(line) + seq![10u8]);
    assert(line_stream(lines) + line_stream(one) =~= line_stream(lines) + vstd::utf8::encode_utf8(
        line,
    ) + seq![10u8]);
}

} // verus!
