//! Tables of records: JSON values to record batches and back.

use std::sync::Arc;

use vstd::prelude::*;
use vstd::string::StringExecFns;

use crate::arrow_table::{
    byte_total, column_name, column_texts, list_batch, list_fields, list_offsets, list_schema,
    list_table, num_columns, num_rows, offset_values, offsets_cut, schema_view, struct_columns,
    struct_texts, structs_at, structs_of, table_view, text_batch, text_columns, text_fields,
    text_schema, text_table, Batch, ColumnView, FieldView, ItemsView, StructsView, TableView,
};
use crate::detect::format_of_value;
use crate::error::{Error, ErrorView};
use crate::format::Format;
use crate::json::{
    array_value, collected, field, field_of, json_view, object_value, plain_within, simple_key,
    string_value, JsonView,
};
use crate::record::{AlpacaView, Turn};
use crate::text::texts;

verus! {

/// The names of an instruction record's columns.
pub open spec fn alpaca_columns() -> Seq<Seq<char>> {
    seq!["instruction"@, "input"@, "output"@]
}

/// The key of the list that a conversation format keeps its turns in.
pub open spec fn list_key(format: Format) -> Seq<char> {
    if format == Format::ShareGPT {
        "conversations"@
    } else {
        "messages"@
    }
}

/// The key of a turn's speaker.
pub open spec fn speaker_key(format: Format) -> Seq<char> {
    if format == Format::ShareGPT {
        "from"@
    } else {
        "role"@
    }
}

/// The key of what is said in a turn.
pub open spec fn words_key(format: Format) -> Seq<char> {
    if format == Format::ShareGPT {
        "value"@
    } else {
        "content"@
    }
}

/// The schema of a format's table.
pub open spec fn shape(format: Format) -> Option<Seq<FieldView>> {
    match format {
        Format::Alpaca => Some(
            seq![
                FieldView::Text("instruction"@),
                FieldView::Text("input"@),
                FieldView::Text("output"@),
            ],
        ),
        Format::ShareGPT | Format::ChatML => Some(
            seq![
                FieldView::Lists {
                    name: list_key(format),
                    item: "item"@,
                    fields: seq![
                        FieldView::Text(speaker_key(format)),
                        FieldView::Text(words_key(format)),
                    ],
                },
            ],
        ),
        Format::Parquet | Format::Arrow => None,
    }
}

/// The schema of a format's table.
pub fn get_arrow_schema(format: Format) -> (r: Result<Arc<arrow::datatypes::Schema>, Error>)
    ensures
        match r {
            Ok(schema) => shape(format) == Some(schema_view(*schema)),
            Err(e) => shape(format) is None && e@ == ErrorView::NoSchema(format),
        },
{
    match format {
        Format::Alpaca => {
            let mut names: Vec<&str> = Vec::new();
            names.push("instruction");
            names.push("input");
            names.push("output");
            assert(text_fields(names@) =~= shape(format)->0);
            Ok(text_schema(names))
        },
        Format::ShareGPT => {
            let mut names: Vec<&str> = Vec::new();
            names.push("from");
            names.push("value");
            assert(text_fields(names@) =~= shape(format)->0[0]->fields);
            assert(list_fields("conversations"@, "item"@, names@) =~= shape(format)->0);
            Ok(list_schema("conversations", "item", names))
        },
        Format::ChatML => {
            let mut names: Vec<&str> = Vec::new();
            names.push("role");
            names.push("content");
            assert(text_fields(names@) =~= shape(format)->0[0]->fields);
            assert(list_fields("messages"@, "item"@, names@) =~= shape(format)->0);
            Ok(list_schema("messages", "item", names))
        },
        Format::Parquet | Format::Arrow => Err(Error::NoSchema(format)),
    }
}

/// The text of a JSON string; nothing of another value.
pub open spec fn text_of(value: JsonView) -> Seq<char> {
    match value {
        JsonView::String(s) => s,
        _ => Seq::empty(),
    }
}

/// The items of a JSON array; none of another value.
pub open spec fn items_of(value: JsonView) -> Seq<JsonView> {
    match value {
        JsonView::Array(items) => items,
        _ => Seq::empty(),
    }
}

/// JSON values as mathematical values.
pub open spec fn json_views(values: Seq<serde_json::Value>) -> Seq<JsonView> {
    values.map_values(|v: serde_json::Value| json_view(v))
}

/// The texts of a field, one for each value.
pub open spec fn field_texts(values: Seq<JsonView>, key: Seq<char>) -> Seq<Seq<char>> {
    values.map_values(|v: JsonView| text_of(field_of(v, key)))
}

/// The items of the list of a conversation value.
pub open spec fn list_items(value: JsonView, format: Format) -> Seq<JsonView> {
    items_of(field_of(value, list_key(format)))
}

/// The items of the lists of all values, one after the other.
pub open spec fn all_items(values: Seq<JsonView>, format: Format) -> Seq<JsonView>
    decreases values.len(),
{
    if values.len() == 0 {
        Seq::empty()
    } else {
        all_items(values.drop_last(), format) + list_items(values.last(), format)
    }
}

/// Where the items of each value begin among the items of all, and where the last ones end.
pub open spec fn item_offsets(values: Seq<JsonView>, format: Format) -> Seq<int> {
    Seq::new(values.len() + 1, |i: int| all_items(values.take(i), format).len() as int)
}

/// The table of JSON values.
pub open spec fn table_of(values: Seq<JsonView>, format: Format) -> TableView {
    match format {
        Format::Alpaca => TableView {
            names: alpaca_columns(),
            columns: seq![
                ColumnView::Texts(field_texts(values, "instruction"@)),
                ColumnView::Texts(field_texts(values, "input"@)),
                ColumnView::Texts(field_texts(values, "output"@)),
            ],
            rows: values.len(),
        },
        _ => TableView {
            names: seq![list_key(format)],
            columns: seq![
                ColumnView::Lists {
                    offsets: item_offsets(values, format),
                    items: ItemsView::Structs(
                        StructsView {
                            fields: seq![
                                FieldView::Text(speaker_key(format)),
                                FieldView::Text(words_key(format)),
                            ],
                            columns: seq![
                                ColumnView::Texts(
                                    field_texts(all_items(values, format), speaker_key(format)),
                                ),
                                ColumnView::Texts(
                                    field_texts(all_items(values, format), words_key(format)),
                                ),
                            ],
                            len: all_items(values, format).len(),
                        },
                    ),
                },
            ],
            rows: values.len(),
        },
    }
}

/// Whether a record batch can hold the values: its offsets are of 32 bits.
pub open spec fn table_fits(values: Seq<JsonView>, format: Format) -> bool {
    match format {
        Format::Alpaca => {
            &&& byte_total(field_texts(values, "instruction"@)) <= i32::MAX
            &&& byte_total(field_texts(values, "input"@)) <= i32::MAX
            &&& byte_total(field_texts(values, "output"@)) <= i32::MAX
        },
        _ => {
            &&& all_items(values, format).len() <= i32::MAX
            &&& byte_total(field_texts(all_items(values, format), speaker_key(format))) <= i32::MAX
            &&& byte_total(field_texts(all_items(values, format), words_key(format))) <= i32::MAX
        },
    }
}

/// The text of a field of a value.
fn field_text(value: &serde_json::Value, key: &str) -> (r: String)
    ensures
        r@ == text_of(field_of(json_view(*value), key@)),
{
    match field(value, key).as_str() {
        Some(text) => text.to_owned(),
        None => String::new(),
    }
}

/// The texts of a field, one for each value.
fn field_column(values: &Vec<serde_json::Value>, key: &str) -> (r: Vec<String>)
    ensures
        texts(r@) == field_texts(json_views(values@), key@),
{
    let mut out: Vec<String> = Vec::new();
    let mut i: usize = 0;
    while i < values.len()
        invariant
            i <= values.len(),
            out.len() == i,
            forall|j: int|
                0 <= j < i ==> (#[trigger] out@[j])@ == field_texts(json_views(values@), key@)[j],
        decreases values.len() - i,
    {
        out.push(field_text(&values[i], key));
        i += 1;
    }
    assert(texts(out@) =~= field_texts(json_views(values@), key@));
    out
}

/// The keys of a conversation format: of the list, of a turn's speaker and of its words.
fn turn_keys(format: Format) -> (r: (&'static str, &'static str, &'static str))
    requires
        format == Format::ShareGPT || format == Format::ChatML,
    ensures
        r.0@ == list_key(format),
        r.1@ == speaker_key(format),
        r.2@ == words_key(format),
{
    if matches!(format, Format::ShareGPT) {
        ("conversations", "from", "value")
    } else {
        ("messages", "role", "content")
    }
}

/// The turns of all conversation values, in two columns, and where those of each value begin.
struct TurnColumns {
    speakers: Vec<String>,
    words: Vec<String>,
    offsets: Vec<usize>,
}

impl TurnColumns {
    /// Whether the columns hold the turns of the given values.
    spec fn hold(&self, values: Seq<JsonView>, format: Format) -> bool {
        let items = all_items(values, format);
        &&& texts(self.speakers@) == field_texts(items, speaker_key(format))
        &&& texts(self.words@) == field_texts(items, words_key(format))
        &&& self.offsets@.map_values(|o: usize| o as int) == item_offsets(values, format)
    }

    /// The columns of no values.
    fn new(Ghost(format): Ghost<Format>) -> (r: TurnColumns)
        ensures
            r.hold(Seq::empty(), format),
    {
        let mut offsets: Vec<usize> = Vec::new();
        offsets.push(0);
        let r = TurnColumns { speakers: Vec::new(), words: Vec::new(), offsets };
        proof {
            let none = Seq::<JsonView>::empty();
            assert(texts(r.speakers@) =~= field_texts(all_items(none, format), speaker_key(format)));
            assert(texts(r.words@) =~= field_texts(all_items(none, format), words_key(format)));
            assert(none.take(0) =~= none);
            assert(r.offsets@.map_values(|o: usize| o as int) =~= item_offsets(none, format));
        }
        r
    }

    /// Adds the turns of a value.
    fn add(
        &mut self,
        value: &serde_json::Value,
        format: Format,
        Ghost(before): Ghost<Seq<JsonView>>,
    )
        requires
            old(self).hold(before, format),
            format == Format::ShareGPT || format == Format::ChatML,
        ensures
            final(self).hold(before.push(json_view(*value)), format),
    {
        let (key, speaker, said) = turn_keys(format);
        let ghost view = json_view(*value);
        let ghost after = before.push(view);
        let ghost items = all_items(before, format);
        let ghost more = list_items(view, format);
        proof {
            assert(after.drop_last() =~= before);
            assert(all_items(after, format) == items + more);
        }
        match field(value, key).as_array() {
            Some(turns) => {
                let mut i: usize = 0;
                assert(items + more.take(0) =~= items);
                while i < turns.len()
                    invariant
                        i <= turns.len(),
                        more == json_views(turns@),
                        speaker@ == speaker_key(format),
                        said@ == words_key(format),
                        texts(self.speakers@) == field_texts(
                            items + more.take(i as int),
                            speaker_key(format),
                        ),
                        texts(self.words@) == field_texts(
                            items + more.take(i as int),
                            words_key(format),
                        ),
                        self.offsets == old(self).offsets,
                    decreases turns.len() - i,
                {
                    let ghost wider = items + more.take(i + 1);
                    let ghost speakers = self.speakers@;
                    let ghost words = self.words@;
                    assert(wider =~= (items + more.take(i as int)).push(more[i as int]));
                    self.speakers.push(field_text(&turns[i], speaker));
                    self.words.push(field_text(&turns[i], said));
                    assert(texts(self.speakers@) =~= texts(speakers).push(
                        text_of(field_of(more[i as int], speaker_key(format))),
                    ));
                    assert(texts(self.speakers@) =~= field_texts(wider, speaker_key(format)));
                    assert(texts(self.words@) =~= texts(words).push(
                        text_of(field_of(more[i as int], words_key(format))),
                    ));
                    assert(texts(self.words@) =~= field_texts(wider, words_key(format)));
                    i += 1;
                }
                assert(more.take(i as int) =~= more);
            },
            None => {
                assert(items + more =~= items);
            },
        }
        let ghost offsets = self.offsets@;
        assert(texts(self.speakers@).len() == all_items(after, format).len());
        self.offsets.push(self.speakers.len());
        proof {
            let new = self.offsets@.map_values(|o: usize| o as int);
            let wanted = item_offsets(after, format);
            let known = item_offsets(before, format);
            assert(offsets.map_values(|o: usize| o as int).len() == known.len());
            assert forall|i: int| 0 <= i < wanted.len() implies new[i] == wanted[i] by {
                if i < known.len() {
                    assert(after.take(i) =~= before.take(i));
                    assert(offsets.map_values(|o: usize| o as int)[i] == known[i]);
                } else {
                    assert(after.take(i) =~= after);
                }
            }
            assert(new =~= wanted);
        }
    }

    /// The columns of the given values.
    fn of(values: &Vec<serde_json::Value>, format: Format) -> (r: TurnColumns)
        requires
            format == Format::ShareGPT || format == Format::ChatML,
        ensures
            r.hold(json_views(values@), format),
    {
        let ghost views = json_views(values@);
        let mut columns = TurnColumns::new(Ghost(format));
        let mut i: usize = 0;
        assert(views.take(0) =~= Seq::empty());
        while i < values.len()
            invariant
                i <= values.len(),
                views == json_views(values@),
                format == Format::ShareGPT || format == Format::ChatML,
                columns.hold(views.take(i as int), format),
            decreases values.len() - i,
        {
            assert(views.take(i + 1) =~= views.take(i as int).push(views[i as int]));
            columns.add(&values[i], format, Ghost(views.take(i as int)));
            i += 1;
        }
        assert(views.take(i as int) =~= views);
        columns
    }
}

/// The first of some texts have no more bytes than all of them.
proof fn lemma_byte_total_grows(items: Seq<Seq<char>>, n: int)
    requires
        0 <= n <= items.len(),
    ensures
        byte_total(items.take(n)) <= byte_total(items),
    decreases items.len() - n,
{
    if n < items.len() {
        lemma_byte_total_grows(items, n + 1);
        assert(items.take(n + 1).drop_last() =~= items.take(n));
    } else {
        assert(items.take(n) =~= items);
    }
}

/// Whether 32 bit offsets can reach the bytes of texts.
fn bytes_fit(items: &Vec<String>) -> (r: bool)
    ensures
        r == (byte_total(texts(items@)) <= i32::MAX),
{
    let ghost all = texts(items@);
    let mut total: usize = 0;
    let mut i: usize = 0;
    while i < items.len()
        invariant
            i <= items.len(),
            all == texts(items@),
            total == byte_total(all.take(i as int)),
            total <= i32::MAX,
        decreases items.len() - i,
    {
        let more: usize = items[i].as_str().as_bytes().len();
        proof {
            assert(all.take(i + 1).drop_last() =~= all.take(i as int));
            lemma_byte_total_grows(all, i + 1);
        }
        if more > 0x7fff_ffff - total {
            return false;
        }
        total = total + more;
        i += 1;
    }
    assert(all.take(i as int) =~= all);
    true
}

/// Whether a record batch can hold the values.
pub fn batch_fits(values: &Vec<serde_json::Value>, format: Format) -> (r: bool)
    requires
        shape(format) is Some,
    ensures
        r == table_fits(json_views(values@), format),
{
    match format {
        Format::Alpaca => bytes_fit(&field_column(values, "instruction")) && bytes_fit(
            &field_column(values, "input"),
        ) && bytes_fit(&field_column(values, "output")),
        _ => {
            let columns = TurnColumns::of(values, format);
            proof {
                let items = all_items(json_views(values@), format);
                assert(field_texts(items, words_key(format)).len() == items.len());
            }
            columns.words.len() <= 0x7fff_ffff && bytes_fit(&columns.speakers) && bytes_fit(
                &columns.words,
            )
        },
    }
}

/// The items of the first values come before those of all.
proof fn lemma_offsets_grow(values: Seq<JsonView>, format: Format, i: int, j: int)
    requires
        0 <= i <= j <= values.len(),
    ensures
        all_items(values.take(i), format).len() <= all_items(values.take(j), format).len(),
    decreases j - i,
{
    if i < j {
        lemma_offsets_grow(values, format, i, j - 1);
        assert(values.take(j).drop_last() =~= values.take(j - 1));
    }
}

/// The offsets of the items of values cut these.
proof fn lemma_item_offsets_cut(values: Seq<JsonView>, format: Format)
    ensures
        offsets_cut(item_offsets(values, format), all_items(values, format).len()),
{
    let offsets = item_offsets(values, format);
    assert forall|i: int, j: int| 0 <= i <= j < offsets.len() implies #[trigger] offsets[i]
        <= #[trigger] offsets[j] by {
        lemma_offsets_grow(values, format, i, j);
    }
    assert(values.take(values.len() as int) =~= values);
    assert(offsets[offsets.len() - 1] == all_items(values, format).len());
}

/// The offsets as 32 bit numbers.
fn small_offsets(offsets: &Vec<usize>) -> (r: Vec<i32>)
    requires
        forall|i: int| 0 <= i < offsets.len() ==> #[trigger] offsets[i] <= i32::MAX,
    ensures
        offset_values(r@) == offsets@.map_values(|o: usize| o as int),
{
    let mut out: Vec<i32> = Vec::new();
    let mut i: usize = 0;
    while i < offsets.len()
        invariant
            i <= offsets.len(),
            out.len() == i,
            forall|j: int| 0 <= j < offsets.len() ==> #[trigger] offsets[j] <= i32::MAX,
            forall|j: int| 0 <= j < i ==> #[trigger] out@[j] == offsets@[j],
        decreases offsets.len() - i,
    {
        out.push(offsets[i] as i32);
        i += 1;
    }
    assert(offset_values(out@) =~= offsets@.map_values(|o: usize| o as int));
    out
}

/// Turns JSON values into a record batch: a row for each value. What is missing, or no string, is
/// an empty text; what is no list has no turns.
pub fn json_to_record_batch(
    values: &Vec<serde_json::Value>,
    format: Format,
    schema: &Arc<arrow::datatypes::Schema>,
) -> (r: Result<Batch, String>)
    requires
        shape(format) == Some(schema_view(**schema)),
        table_fits(json_views(values@), format),
    ensures
        r is Ok && table_view(r->Ok_0) == table_of(json_views(values@), format),
{
    let ghost views = json_views(values@);
    match format {
        Format::Alpaca => {
            let mut columns: Vec<Vec<String>> = Vec::new();
            columns.push(field_column(values, "instruction"));
            columns.push(field_column(values, "input"));
            columns.push(field_column(values, "output"));
            proof {
                let fields = shape(format)->0;
                assert(texts(columns@[0]@).len() == views.len());
                assert(texts(columns@[1]@).len() == views.len());
                assert(texts(columns@[2]@).len() == views.len());
                assert(text_columns(columns@) =~= table_of(views, format).columns);
                assert(text_table(fields, columns@).names =~= alpaca_columns());
            }
            text_batch(schema, columns)
        },
        _ => {
            let turns = TurnColumns::of(values, format);
            let (_, speaker, said) = turn_keys(format);
            let ghost items = all_items(views, format);
            proof {
                lemma_item_offsets_cut(views, format);
                let offsets = turns.offsets@.map_values(|o: usize| o as int);
                assert forall|i: int| 0 <= i < turns.offsets.len() implies #[trigger] turns.offsets[i]
                    <= i32::MAX by {
                    assert(offsets[i] == item_offsets(views, format)[i]);
                }
                assert(texts(turns.speakers@).len() == items.len());
                assert(texts(turns.words@).len() == items.len());
            }
            let offsets = small_offsets(&turns.offsets);
            let mut names: Vec<&str> = Vec::new();
            names.push(speaker);
            names.push(said);
            let mut columns: Vec<Vec<String>> = Vec::new();
            columns.push(turns.speakers);
            columns.push(turns.words);
            proof {
                let fields = shape(format)->0;
                assert(text_fields(names@) =~= fields[0]->fields);
                let structs = structs_of(names@, columns@);
                let table = list_table(fields, structs, offset_values(offsets@));
                let wanted = table_of(views, format);
                assert(text_columns(columns@) =~= wanted.columns[0]->items->Structs_0.columns);
                assert(structs == wanted.columns[0]->items->Structs_0);
                assert(table.columns =~= wanted.columns);
                assert(table.names =~= wanted.names);
            }
            list_batch(schema, "item", names, columns, offsets)
        },
    }
}

/// The JSON value of an instruction record.
pub open spec fn alpaca_value(a: AlpacaView) -> JsonView {
    JsonView::Object(
        map![
            "instruction"@ => JsonView::String(a.instruction),
            "input"@ => JsonView::String(a.input),
            "output"@ => JsonView::String(a.output),
        ],
    )
}

/// The JSON value of a turn.
pub open spec fn turn_value(turn: Turn, format: Format) -> JsonView {
    JsonView::Object(
        map![
            speaker_key(format) => JsonView::String(turn.speaker),
            words_key(format) => JsonView::String(turn.words),
        ],
    )
}

/// The JSON value of a conversation.
pub open spec fn turns_value(turns: Seq<Turn>, format: Format) -> JsonView {
    JsonView::Object(
        map![
            list_key(format) => JsonView::Array(
                turns.map_values(|turn: Turn| turn_value(turn, format)),
            ),
        ],
    )
}

/// The turns that stand in two columns from one place up to another.
pub open spec fn turns_between(
    speakers: Seq<Seq<char>>,
    words: Seq<Seq<char>>,
    from: int,
    to: int,
) -> Seq<Turn> {
    Seq::new(
        (to - from) as nat,
        |k: int| Turn { speaker: speakers[from + k], words: words[from + k] },
    )
}

/// Whether the columns that are looked at exist.
pub open spec fn has_columns(table: TableView, format: Format) -> bool {
    match format {
        Format::Alpaca => {
            &&& table.columns.len() > 0
            &&& table.columns[0] is Texts ==> table.columns.len() > 1
            &&& table.columns[0] is Texts && table.columns[1] is Texts ==> table.columns.len() > 2
        },
        Format::ShareGPT | Format::ChatML => {
            &&& table.columns.len() > 0
            &&& structs_at(table, 0) is Some ==> structs_at(table, 0)->0.columns.len() > 0
            &&& structs_at(table, 0) is Some && structs_at(table, 0)->0.columns[0] is Texts
                ==> structs_at(table, 0)->0.columns.len() > 1
        },
        Format::Parquet | Format::Arrow => true,
    }
}

/// What is told of a first column that holds no lists.
pub open spec fn no_lists(name: Seq<char>, format: Format) -> Seq<char> {
    if format == Format::ShareGPT {
        "ShareGPT Parquet: Column 0 ("@ + name + ") is not a ListArray"@
    } else {
        "ChatML Parquet: Column 0 ('messages') is not a ListArray"@
    }
}

/// The format's name at the head of a message about a column.
pub open spec fn table_name(format: Format) -> Seq<char> {
    if format == Format::ShareGPT {
        "ShareGPT Parquet: "@
    } else {
        "ChatML Parquet: "@
    }
}

/// The rows of a table, as JSON values.
pub open spec fn rows_of(table: TableView, format: Format) -> Result<Seq<JsonView>, ErrorView> {
    match format {
        Format::Alpaca => if table.columns[0] !is Texts {
            Err(
                ErrorView::WrongColumn(
                    "Alpaca Parquet: Column 0 ('instruction') is not a StringArray"@,
                ),
            )
        } else if table.columns[1] !is Texts {
            Err(
                ErrorView::WrongColumn(
                    "Alpaca Parquet: Column 1 ('input') is not a StringArray"@,
                ),
            )
        } else if table.columns[2] !is Texts {
            Err(
                ErrorView::WrongColumn(
                    "Alpaca Parquet: Column 2 ('output') is not a StringArray"@,
                ),
            )
        } else {
            Ok(
                Seq::new(
                    table.rows,
                    |i: int|
                        alpaca_value(
                            AlpacaView {
                                instruction: table.columns[0]->Texts_0[i],
                                input: table.columns[1]->Texts_0[i],
                                output: table.columns[2]->Texts_0[i],
                            },
                        ),
                ),
            )
        },
        Format::ShareGPT | Format::ChatML => match table.columns[0] {
            ColumnView::Lists { offsets, items: ItemsView::Structs(items) } => if items.columns[0]
                !is Texts {
                Err(
                    ErrorView::WrongColumn(
                        table_name(format) + "'"@ + speaker_key(format)
                            + "' is not a StringArray"@,
                    ),
                )
            } else if items.columns[1] !is Texts {
                Err(
                    ErrorView::WrongColumn(
                        table_name(format) + "'"@ + words_key(format) + "' is not a StringArray"@,
                    ),
                )
            } else {
                Ok(
                    Seq::new(
                        table.rows,
                        |i: int|
                            turns_value(
                                turns_between(
                                    items.columns[0]->Texts_0,
                                    items.columns[1]->Texts_0,
                                    offsets[i],
                                    offsets[i + 1],
                                ),
                                format,
                            ),
                    ),
                )
            },
            ColumnView::Lists { .. } => Err(
                ErrorView::WrongColumn(table_name(format) + "List elements are not structs"@),
            ),
            _ => Err(ErrorView::WrongColumn(no_lists(table.names[0], format))),
        },
        Format::Parquet | Format::Arrow => Err(ErrorView::NoRows(format)),
    }
}

/// JSON values or an error, as a mathematical value.
pub open spec fn rows_result(r: Result<Vec<serde_json::Value>, Error>) -> Result<
    Seq<JsonView>,
    ErrorView,
> {
    match r {
        Ok(values) => Ok(json_views(values@)),
        Err(e) => Err(e@),
    }
}

/// Whether the columns exist that `record_batch_to_json` looks at.
pub fn batch_has_columns(batch: &Batch, format: Format) -> (r: bool)
    ensures
        r == has_columns(table_view(*batch), format),
{
    match format {
        Format::Alpaca => {
            let count: usize = num_columns(batch);
            count > 0 && (count > 2 || match column_texts(batch, 0) {
                Some(_) => count > 1 && column_texts(batch, 1).is_none(),
                None => true,
            })
        },
        Format::ShareGPT | Format::ChatML => num_columns(batch) > 0 && match struct_columns(
            batch,
            0,
        ) {
            Some(count) => count > 0 && (count > 1 || struct_texts(batch, 0, 0).is_none()),
            None => true,
        },
        Format::Parquet | Format::Arrow => true,
    }
}

/// The keys are pairwise different.
proof fn lemma_keys_differ(format: Format)
    ensures
        "instruction"@ != "input"@,
        "instruction"@ != "output"@,
        "input"@ != "output"@,
        speaker_key(format) != words_key(format),
{
    reveal_strlit("instruction");
    reveal_strlit("input");
    reveal_strlit("output");
    reveal_strlit("from");
    reveal_strlit("value");
    reveal_strlit("role");
    reveal_strlit("content");
    assert("instruction"@.len() == 11 && "input"@.len() == 5 && "output"@.len() == 6
        && "from"@.len() == 4 && "value"@.len() == 5 && "role"@.len() == 4 && "content"@.len()
        == 7);
}

/// Makes the JSON value of an instruction record.
fn make_alpaca(instruction: &String, input: &String, output: &String) -> (r: serde_json::Value)
    ensures
        json_view(r) == alpaca_value(
            AlpacaView { instruction: instruction@, input: input@, output: output@ },
        ),
{
    let mut entries: Vec<(String, serde_json::Value)> = Vec::new();
    entries.push(("instruction".to_owned(), string_value(instruction.clone())));
    entries.push(("input".to_owned(), string_value(input.clone())));
    entries.push(("output".to_owned(), string_value(output.clone())));
    proof {
        reveal_with_fuel(collected, 4);
        let e = entries@;
        assert(e.drop_last().drop_last().drop_last() =~= Seq::empty());
        let wanted = alpaca_value(
            AlpacaView { instruction: instruction@, input: input@, output: output@ },
        )->Object_0;
        assert(collected(e) =~= wanted);
    }
    object_value(entries)
}

/// Makes the JSON value of a turn.
fn make_turn(speaker: &String, words: &String, format: Format) -> (r: serde_json::Value)
    requires
        format == Format::ShareGPT || format == Format::ChatML,
    ensures
        json_view(r) == turn_value(Turn { speaker: speaker@, words: words@ }, format),
{
    let (_, first, second) = turn_keys(format);
    let mut entries: Vec<(String, serde_json::Value)> = Vec::new();
    entries.push((first.to_owned(), string_value(speaker.clone())));
    entries.push((second.to_owned(), string_value(words.clone())));
    proof {
        reveal_with_fuel(collected, 3);
        let e = entries@;
        assert(e.drop_last().drop_last() =~= Seq::empty());
        let wanted = turn_value(Turn { speaker: speaker@, words: words@ }, format)->Object_0;
        assert(collected(e) =~= wanted);
    }
    object_value(entries)
}

/// Makes the JSON value of the turns that stand in two columns from one place up to another.
fn make_turns(
    speakers: &Vec<String>,
    words: &Vec<String>,
    from: usize,
    to: usize,
    format: Format,
) -> (r: serde_json::Value)
    requires
        format == Format::ShareGPT || format == Format::ChatML,
        from <= to <= speakers.len(),
        speakers.len() == words.len(),
    ensures
        json_view(r) == turns_value(
            turns_between(texts(speakers@), texts(words@), from as int, to as int),
            format,
        ),
{
    let ghost turns = turns_between(texts(speakers@), texts(words@), from as int, to as int);
    let mut items: Vec<serde_json::Value> = Vec::new();
    let mut i: usize = from;
    while i < to
        invariant
            from <= i <= to <= speakers.len() == words.len(),
            format == Format::ShareGPT || format == Format::ChatML,
            items.len() == i - from,
            turns == turns_between(texts(speakers@), texts(words@), from as int, to as int),
            forall|k: int|
                0 <= k < i - from ==> json_view(#[trigger] items@[k]) == turn_value(
                    turns[k],
                    format,
                ),
        decreases to - i,
    {
        items.push(make_turn(&speakers[i], &words[i], format));
        i += 1;
    }
    let (key, _, _) = turn_keys(format);
    let mut entries: Vec<(String, serde_json::Value)> = Vec::new();
    assert(json_views(items@) =~= turns.map_values(|turn: Turn| turn_value(turn, format)));
    entries.push((key.to_owned(), array_value(items)));
    proof {
        reveal_with_fuel(collected, 2);
        assert(entries@.drop_last() =~= Seq::empty());
        assert(collected(entries@) =~= turns_value(turns, format)->Object_0);
    }
    object_value(entries)
}

/// The rows of a table of instruction records.
fn alpaca_rows(batch: &Batch) -> (r: Result<Vec<serde_json::Value>, Error>)
    requires
        has_columns(table_view(*batch), Format::Alpaca),
    ensures
        rows_result(r) == rows_of(table_view(*batch), Format::Alpaca),
{
    let ghost table = table_view(*batch);
    let instructions = match column_texts(batch, 0) {
        Some(column) => column,
        None => {
            return Err(
                Error::WrongColumn(
                    "Alpaca Parquet: Column 0 ('instruction') is not a StringArray".to_owned(),
                ),
            );
        },
    };
    let inputs = match column_texts(batch, 1) {
        Some(column) => column,
        None => {
            return Err(
                Error::WrongColumn(
                    "Alpaca Parquet: Column 1 ('input') is not a StringArray".to_owned(),
                ),
            );
        },
    };
    let outputs = match column_texts(batch, 2) {
        Some(column) => column,
        None => {
            return Err(
                Error::WrongColumn(
                    "Alpaca Parquet: Column 2 ('output') is not a StringArray".to_owned(),
                ),
            );
        },
    };
    let rows: usize = num_rows(batch);
    let ghost wanted = rows_of(table, Format::Alpaca)->Ok_0;
    let mut out: Vec<serde_json::Value> = Vec::new();
    let mut i: usize = 0;
    while i < rows
        invariant
            i <= rows == wanted.len(),
            rows == instructions.len() == inputs.len() == outputs.len(),
            table.columns[0] == ColumnView::Texts(texts(instructions@)),
            table.columns[1] == ColumnView::Texts(texts(inputs@)),
            table.columns[2] == ColumnView::Texts(texts(outputs@)),
            wanted == rows_of(table, Format::Alpaca)->Ok_0,
            out.len() == i,
            forall|k: int| 0 <= k < i ==> json_view(#[trigger] out@[k]) == wanted[k],
        decreases rows - i,
    {
        out.push(make_alpaca(&instructions[i], &inputs[i], &outputs[i]));
        i += 1;
    }
    assert(json_views(out@) =~= wanted);
    Ok(out)
}

/// The rows of a table of conversations.
fn turn_rows(batch: &Batch, format: Format) -> (r: Result<Vec<serde_json::Value>, Error>)
    requires
        format == Format::ShareGPT || format == Format::ChatML,
        has_columns(table_view(*batch), format),
    ensures
        rows_result(r) == rows_of(table_view(*batch), format),
{
    let ghost table = table_view(*batch);
    let (_, speaker, said) = turn_keys(format);
    let head = if matches!(format, Format::ShareGPT) {
        "ShareGPT Parquet: "
    } else {
        "ChatML Parquet: "
    };
    let count: usize = num_columns(batch);
    let offsets = match list_offsets(batch, 0) {
        Some(offsets) => offsets,
        None => {
            let message = if matches!(format, Format::ShareGPT) {
                "ShareGPT Parquet: Column 0 (".to_owned().concat(
                    column_name(batch, 0).as_str(),
                ).concat(") is not a ListArray")
            } else {
                "ChatML Parquet: Column 0 ('messages') is not a ListArray".to_owned()
            };
            return Err(Error::WrongColumn(message));
        },
    };
    match struct_columns(batch, 0) {
        Some(_) => {},
        None => {
            return Err(
                Error::WrongColumn(head.to_owned().concat("List elements are not structs")),
            );
        },
    }
    let speakers = match struct_texts(batch, 0, 0) {
        Some(column) => column,
        None => {
            return Err(
                Error::WrongColumn(
                    head.to_owned().concat("'").concat(speaker).concat("' is not a StringArray"),
                ),
            );
        },
    };
    let words = match struct_texts(batch, 0, 1) {
        Some(column) => column,
        None => {
            return Err(
                Error::WrongColumn(
                    head.to_owned().concat("'").concat(said).concat("' is not a StringArray"),
                ),
            );
        },
    };
    let rows: usize = num_rows(batch);
    let ghost wanted = rows_of(table, format)->Ok_0;
    let mut out: Vec<serde_json::Value> = Vec::new();
    let mut i: usize = 0;
    while i < rows
        invariant
            i <= rows == wanted.len(),
            format == Format::ShareGPT || format == Format::ChatML,
            offsets.len() == rows + 1,
            speakers.len() == words.len(),
            offsets_cut(offset_values(offsets@), speakers@.len()),
            table.columns[0] is Lists,
            table.columns[0]->offsets == offset_values(offsets@),
            structs_at(table, 0) is Some,
            structs_at(table, 0)->0.columns[0] == ColumnView::Texts(texts(speakers@)),
            structs_at(table, 0)->0.columns[1] == ColumnView::Texts(texts(words@)),
            wanted == rows_of(table, format)->Ok_0,
            out.len() == i,
            forall|k: int| 0 <= k < i ==> json_view(#[trigger] out@[k]) == wanted[k],
        decreases rows - i,
    {
        proof {
            let cuts = offset_values(offsets@);
            assert(cuts[i as int] <= cuts[i + 1]);
            assert(0 <= cuts[i as int] && cuts[i + 1] <= speakers.len());
        }
        out.push(
            make_turns(
                &speakers,
                &words,
                offsets[i] as usize,
                offsets[i + 1] as usize,
                format,
            ),
        );
        i += 1;
    }
    assert(json_views(out@) =~= wanted);
    Ok(out)
}

/// Turns a record batch into JSON values, one for each row.
pub fn record_batch_to_json(batch: &Batch, format: Format) -> (r: Result<
    Vec<serde_json::Value>,
    Error,
>)
    requires
        has_columns(table_view(*batch), format),
    ensures
        rows_result(r) == rows_of(table_view(*batch), format),
{
    match format {
        Format::Alpaca => alpaca_rows(batch),
        Format::ShareGPT | Format::ChatML => turn_rows(batch, format),
        Format::Parquet | Format::Arrow => Err(Error::NoRows(format)),
    }
}

/// The turn that an item of a list holds.
pub open spec fn turn_of(item: JsonView, format: Format) -> Turn {
    Turn {
        speaker: text_of(field_of(item, speaker_key(format))),
        words: text_of(field_of(item, words_key(format))),
    }
}

/// What a table keeps of a JSON value.
pub open spec fn table_row(value: JsonView, format: Format) -> JsonView {
    match format {
        Format::Alpaca => alpaca_value(
            AlpacaView {
                instruction: text_of(field_of(value, "instruction"@)),
                input: text_of(field_of(value, "input"@)),
                output: text_of(field_of(value, "output"@)),
            },
        ),
        _ => turns_value(
            list_items(value, format).map_values(|item: JsonView| turn_of(item, format)),
            format,
        ),
    }
}

/// Among the items of all values, those of one value stand between its two offsets.
proof fn lemma_items_between(values: Seq<JsonView>, format: Format, i: int)
    requires
        0 <= i < values.len(),
    ensures
        all_items(values.take(i), format).len() + list_items(values[i], format).len()
            == all_items(values.take(i + 1), format).len() <= all_items(values, format).len(),
        forall|k: int|
            0 <= k < list_items(values[i], format).len() ==> all_items(values, format)[all_items(
                values.take(i),
                format,
            ).len() + k] == #[trigger] list_items(values[i], format)[k],
    decreases values.len(),
{
    let shorter = values.drop_last();
    assert(values.take(i + 1).drop_last() =~= values.take(i));
    if i < values.len() - 1 {
        lemma_items_between(shorter, format, i);
        assert(shorter.take(i) =~= values.take(i));
        assert(shorter.take(i + 1) =~= values.take(i + 1));
    } else {
        assert(values.take(i + 1) =~= values);
        assert(values.take(i) =~= shorter);
    }
}

/// Whether a value is an object with just the given keys, and a text for each.
pub open spec fn holds_texts(value: JsonView, keys: Set<Seq<char>>) -> bool {
    value matches JsonView::Object(fields) && fields.dom() == keys && forall|k: Seq<char>|
        keys.contains(k) ==> (#[trigger] fields[k]) is String
}

/// Whether a value is a record of a format: it has just the format's keys, and all texts are
/// strings.
pub open spec fn is_record(value: JsonView, format: Format) -> bool {
    match format {
        Format::Alpaca => holds_texts(value, set!["instruction"@, "input"@, "output"@]),
        Format::ShareGPT | Format::ChatML => {
            &&& value matches JsonView::Object(fields) && fields.dom() == set![list_key(format)]
            &&& field_of(value, list_key(format)) is Array
            &&& forall|i: int|
                0 <= i < list_items(value, format).len() ==> holds_texts(
                    #[trigger] list_items(value, format)[i],
                    set![speaker_key(format), words_key(format)],
                )
        },
        Format::Parquet | Format::Arrow => false,
    }
}

/// A table keeps a record as it is, whatever its texts.
pub proof fn law_table_keeps_values(value: JsonView, format: Format)
    requires
        is_record(value, format),
    ensures
        table_row(value, format) == value,
{
    lemma_keys_differ(format);
    let fields = value->Object_0;
    if format == Format::Alpaca {
        assert(fields["instruction"@] is String && fields["input"@] is String && fields["output"@]
            is String);
        assert(table_row(value, format)->Object_0 =~= fields);
    } else {
        let items = list_items(value, format);
        let turns = items.map_values(|item: JsonView| turn_of(item, format));
        assert forall|i: int| 0 <= i < items.len() implies turn_value(
            #[trigger] turns[i],
            format,
        ) == items[i] by {
            let entries = items[i]->Object_0;
            assert(holds_texts(items[i], set![speaker_key(format), words_key(format)]));
            assert(entries[speaker_key(format)] is String && entries[words_key(format)] is String);
            assert(turn_value(turns[i], format)->Object_0 =~= entries);
        }
        assert(turns.map_values(|turn: Turn| turn_value(turn, format)) =~= items);
        assert(fields.dom().contains(list_key(format)));
        assert(table_row(value, format)->Object_0 =~= fields);
    }
}

/// Values that are written to a table are read back from it, in order, each as far as the table
/// keeps it; records are read back as they were.
pub proof fn law_table_round_trip(values: Seq<JsonView>, format: Format)
    requires
        shape(format) is Some,
    ensures
        has_columns(table_of(values, format), format),
        rows_of(table_of(values, format), format) == Ok::<Seq<JsonView>, ErrorView>(
            values.map_values(|v: JsonView| table_row(v, format)),
        ),
        (forall|i: int| 0 <= i < values.len() ==> is_record(#[trigger] values[i], format))
            ==> rows_of(table_of(values, format), format) == Ok::<Seq<JsonView>, ErrorView>(values),
{
    let table = table_of(values, format);
    let rows = rows_of(table, format)->Ok_0;
    let wanted = values.map_values(|v: JsonView| table_row(v, format));
    assert forall|i: int| 0 <= i < values.len() implies #[trigger] rows[i] == wanted[i] by {
        if format != Format::Alpaca {
            lemma_items_between(values, format, i);
            let offsets = item_offsets(values, format);
            let items = all_items(values, format);
            let found = turns_between(
                field_texts(items, speaker_key(format)),
                field_texts(items, words_key(format)),
                offsets[i],
                offsets[i + 1],
            );
            let own = list_items(values[i], format);
            assert forall|k: int| 0 <= k < own.len() implies #[trigger] found[k] == turn_of(
                own[k],
                format,
            ) by {
                assert(items[offsets[i] + k] == own[k]);
            }
            assert(found =~= own.map_values(|item: JsonView| turn_of(item, format)));
        }
    }
    assert(rows =~= wanted);
    if forall|i: int| 0 <= i < values.len() ==> is_record(#[trigger] values[i], format) {
        assert forall|i: int| 0 <= i < values.len() implies #[trigger] wanted[i] == values[i] by {
            law_table_keeps_values(values[i], format);
        }
        assert(wanted =~= values);
    }
}

/// The values of records are records, which a table keeps as they are.
pub proof fn law_table_keeps_records(a: AlpacaView, turns: Seq<Turn>, format: Format)
    requires
        format == Format::ShareGPT || format == Format::ChatML,
    ensures
        table_row(alpaca_value(a), Format::Alpaca) == alpaca_value(a),
        table_row(turns_value(turns, format), format) == turns_value(turns, format),
        is_record(alpaca_value(a), Format::Alpaca),
        is_record(turns_value(turns, format), format),
{
    lemma_keys_differ(format);
    let items = list_items(turns_value(turns, format), format);
    assert(items == turns.map_values(|turn: Turn| turn_value(turn, format)));
    assert forall|i: int| 0 <= i < turns.len() implies turn_of(#[trigger] items[i], format)
        == turns[i] by {
        let fields = turn_value(turns[i], format)->Object_0;
        assert(fields[speaker_key(format)] == JsonView::String(turns[i].speaker));
        assert(fields[words_key(format)] == JsonView::String(turns[i].words));
    }
    assert(items.map_values(|item: JsonView| turn_of(item, format)) =~= turns);
    let fields = alpaca_value(a)->Object_0;
    assert(fields["instruction"@] == JsonView::String(a.instruction));
    assert(fields["input"@] == JsonView::String(a.input));
    assert(fields["output"@] == JsonView::String(a.output));
    assert(fields.dom() =~= set!["instruction"@, "input"@, "output"@]);
    assert(turns_value(turns, format)->Object_0.dom() =~= set![list_key(format)]);
    assert forall|i: int| 0 <= i < items.len() implies holds_texts(
        #[trigger] items[i],
        set![speaker_key(format), words_key(format)],
    ) by {
        assert(items[i] == turn_value(turns[i], format));
        assert(items[i]->Object_0.dom() =~= set![speaker_key(format), words_key(format)]);
    }
}

/// The rows of tables are made of texts, lists and fields with simple keys, and are told as records
/// of their format.
pub proof fn law_rows_are_records(a: AlpacaView, turns: Seq<Turn>, format: Format, line: Seq<char>)
    requires
        format == Format::ShareGPT || format == Format::ChatML,
    ensures
        plain_within(alpaca_value(a), 8),
        plain_within(turns_value(turns, format), 8),
        format_of_value(alpaca_value(a), line) == Ok::<Format, ErrorView>(Format::Alpaca),
        format_of_value(turns_value(turns, format), line) == Ok::<Format, ErrorView>(format),
{
    reveal_strlit("instruction");
    reveal_strlit("input");
    reveal_strlit("output");
    reveal_strlit("from");
    reveal_strlit("value");
    reveal_strlit("role");
    reveal_strlit("content");
    reveal_strlit("conversations");
    reveal_strlit("messages");
    assert("instruction"@.len() == 11 && "input"@.len() == 5 && "output"@.len() == 6
        && "conversations"@.len() == 13 && "messages"@.len() == 8);
    reveal_with_fuel(plain_within, 5);
    let fields = alpaca_value(a)->Object_0;
    assert forall|k: Seq<char>| fields.dom().contains(k) implies simple_key(k) && plain_within(
        #[trigger] fields[k],
        7,
    ) by {
        assert(k == "instruction"@ || k == "input"@ || k == "output"@);
    }
    let items = turns.map_values(|turn: Turn| turn_value(turn, format));
    assert forall|i: int| 0 <= i < items.len() implies plain_within(#[trigger] items[i], 6) by {
        let entries = turn_value(turns[i], format)->Object_0;
        assert forall|k: Seq<char>| entries.dom().contains(k) implies simple_key(k) && plain_within(
            #[trigger] entries[k],
            5,
        ) by {
            assert(k == speaker_key(format) || k == words_key(format));
        }
    }
    let list = turns_value(turns, format)->Object_0;
    assert forall|k: Seq<char>| list.dom().contains(k) implies simple_key(k) && plain_within(
        #[trigger] list[k],
        7,
    ) by {
        assert(k == list_key(format));
        assert(list[k] == JsonView::Array(items));
    }
}

/// The keys of the chat formats.
pub proof fn law_keys_of_chat_formats()
    ensures
        list_key(Format::ShareGPT) == "conversations"@,
        speaker_key(Format::ShareGPT) == "from"@,
        words_key(Format::ShareGPT) == "value"@,
        list_key(Format::ChatML) == "messages"@,
        speaker_key(Format::ChatML) == "role"@,
        words_key(Format::ChatML) == "content"@,
{
}

/// The text that a table keeps of a field is that of the field where it is a string, and empty
/// where it is something else, or is not there.
pub proof fn law_fields_without_text_are_empty(
    value: JsonView,
    fields: Map<Seq<char>, JsonView>,
    key: Seq<char>,
)
    ensures
        value == JsonView::Object(fields) && fields.dom().contains(key) ==> match fields[key] {
            JsonView::String(s) => text_of(field_of(value, key)) == s,
            _ => text_of(field_of(value, key)).len() == 0,
        },
        value == JsonView::Object(fields) && !fields.dom().contains(key) ==> text_of(
            field_of(value, key),
        ).len() == 0,
        value !is Object ==> text_of(field_of(value, key)).len() == 0,
{
}

/// The table of instruction records has a row for each value, and three columns of texts, in order
/// those of instruction, input and output.
pub proof fn law_table_of_alpaca(values: Seq<JsonView>, i: int)
    requires
        0 <= i < values.len(),
    ensures
        ({
            let table = table_of(values, Format::Alpaca);
            &&& table.rows == values.len()
            &&& table.names == seq!["instruction"@, "input"@, "output"@]
            &&& table.columns.len() == 3
            &&& table.columns[0] matches ColumnView::Texts(column) && column.len() == values.len()
                && column[i] == text_of(field_of(values[i], "instruction"@))
            &&& table.columns[1] matches ColumnView::Texts(column) && column.len() == values.len()
                && column[i] == text_of(field_of(values[i], "input"@))
            &&& table.columns[2] matches ColumnView::Texts(column) && column.len() == values.len()
                && column[i] == text_of(field_of(values[i], "output"@))
        }),
{
}

/// The table of conversations has a row for each value, and one column of lists. The list of a row
/// has as many items as the value's list of turns, none where it has no list; an item's two texts
/// are speaker and words of the turn.
pub proof fn law_table_of_chats(values: Seq<JsonView>, format: Format, i: int, k: int)
    requires
        format == Format::ShareGPT || format == Format::ChatML,
        0 <= i < values.len(),
    ensures
        ({
            let table = table_of(values, format);
            let turns = match field_of(values[i], list_key(format)) {
                JsonView::Array(items) => items,
                _ => Seq::empty(),
            };
            &&& table.rows == values.len()
            &&& table.names == seq![list_key(format)]
            &&& table.columns.len() == 1
            &&& table.columns[0] is Lists && table.columns[0]->items is Structs
            &&& table.columns[0]->offsets.len() == values.len() + 1
            &&& table.columns[0]->offsets[0] == 0
            &&& table.columns[0]->offsets[i + 1] == table.columns[0]->offsets[i] + turns.len()
            &&& table.columns[0]->items->Structs_0.columns.len() == 2
            &&& table.columns[0]->items->Structs_0.columns[0] is Texts
            &&& table.columns[0]->items->Structs_0.columns[1] is Texts
            &&& 0 <= k < turns.len() ==> {
                let at = table.columns[0]->offsets[i] + k;
                &&& table.columns[0]->items->Structs_0.columns[0]->Texts_0[at] == text_of(
                    field_of(turns[k], speaker_key(format)),
                )
                &&& table.columns[0]->items->Structs_0.columns[1]->Texts_0[at] == text_of(
                    field_of(turns[k], words_key(format)),
                )
            }
        }),
{
    lemma_items_between(values, format, i);
    assert(values.take(0) =~= Seq::<JsonView>::empty());
    let turns = list_items(values[i], format);
    if 0 <= k < turns.len() {
        assert(all_items(values, format)[all_items(values.take(i), format).len() + k] == turns[k]);
    }
}

/// The rows of a table of texts are instruction records, one for each row, made of the first three
/// columns in order.
pub proof fn law_rows_of_text_columns(table: TableView, i: int)
    requires
        table.columns.len() >= 3,
        table.columns[0] is Texts,
        table.columns[1] is Texts,
        table.columns[2] is Texts,
        0 <= i < table.rows,
    ensures
        ({
            let rows = rows_of(table, Format::Alpaca)->Ok_0;
            let fields = rows[i]->Object_0;
            &&& rows_of(table, Format::Alpaca) is Ok
            &&& rows.len() == table.rows
            &&& rows[i] is Object
            &&& fields.dom() == set!["instruction"@, "input"@, "output"@]
            &&& fields["instruction"@] == JsonView::String(table.columns[0]->Texts_0[i])
            &&& fields["input"@] == JsonView::String(table.columns[1]->Texts_0[i])
            &&& fields["output"@] == JsonView::String(table.columns[2]->Texts_0[i])
        }),
{
    lemma_keys_differ(Format::ShareGPT);
    let fields = rows_of(table, Format::Alpaca)->Ok_0[i]->Object_0;
    assert(fields.dom() =~= set!["instruction"@, "input"@, "output"@]);
}

/// The rows of a table of lists are conversations, one for each row: its turns are the items from
/// the row's offset up to the next, with the texts of the first two columns.
pub proof fn law_rows_of_list_columns(table: TableView, format: Format, i: int, k: int)
    requires
        format == Format::ShareGPT || format == Format::ChatML,
        table.columns.len() >= 1,
        structs_at(table, 0) is Some,
        structs_at(table, 0)->0.columns.len() >= 2,
        structs_at(table, 0)->0.columns[0] is Texts,
        structs_at(table, 0)->0.columns[1] is Texts,
        0 <= i < table.rows,
        table.columns[0]->offsets[i] <= table.columns[0]->offsets[i + 1],
    ensures
        ({
            let rows = rows_of(table, format)->Ok_0;
            let offsets = table.columns[0]->offsets;
            let columns = structs_at(table, 0)->0.columns;
            let list = rows[i]->Object_0[list_key(format)];
            &&& rows_of(table, format) is Ok
            &&& rows.len() == table.rows
            &&& rows[i] is Object && rows[i]->Object_0.dom() == set![list_key(format)]
            &&& list is Array
            &&& list->Array_0.len() == offsets[i + 1] - offsets[i]
            &&& 0 <= k < offsets[i + 1] - offsets[i] ==> {
                let turn = list->Array_0[k];
                &&& turn is Object && turn->Object_0.dom() == set![
                    speaker_key(format),
                    words_key(format),
                ]
                &&& turn->Object_0[speaker_key(format)] == JsonView::String(
                    columns[0]->Texts_0[offsets[i] + k],
                )
                &&& turn->Object_0[words_key(format)] == JsonView::String(
                    columns[1]->Texts_0[offsets[i] + k],
                )
            }
        }),
{
    lemma_keys_differ(format);
    let rows = rows_of(table, format)->Ok_0;
    let offsets = table.columns[0]->offsets;
    let fields = rows[i]->Object_0;
    assert(fields.dom() =~= set![list_key(format)]);
    let list = fields[list_key(format)];
    if 0 <= k < offsets[i + 1] - offsets[i] {
        let turn = list->Array_0[k];
        assert(turn->Object_0.dom() =~= set![speaker_key(format), words_key(format)]);
    }
}

/// Rows are told whole, one by one and in order, and failures as they are.
pub proof fn law_rows_are_told_whole(values: Vec<serde_json::Value>, e: Error)
    ensures
        json_views(values@).len() == values@.len(),
        forall|i: int|
            0 <= i < values@.len() ==> #[trigger] json_views(values@)[i] == json_view(values@[i]),
        rows_result(Ok(values)) == Ok::<Seq<JsonView>, ErrorView>(json_views(values@)),
        rows_result(Err(e)) == Err::<Seq<JsonView>, ErrorView>(e@),
{
}

/// A table whose columns are not those of the format has no rows, and a format without a table
/// none at all.
pub proof fn law_wrong_columns_have_no_rows(table: TableView, format: Format)
    ensures
        format == Format::Alpaca ==> (rows_of(table, format) is Ok <==> table.columns[0] is Texts
            && table.columns[1] is Texts && table.columns[2] is Texts),
        format == Format::ShareGPT || format == Format::ChatML ==> (rows_of(table, format) is Ok
            <==> table.columns[0] is Lists && table.columns[0]->items is Structs
            && table.columns[0]->items->Structs_0.columns[0] is Texts
            && table.columns[0]->items->Structs_0.columns[1] is Texts),
        format == Format::Parquet || format == Format::Arrow ==> rows_of(table, format) == Err::<
            Seq<JsonView>,
            ErrorView,
        >(ErrorView::NoRows(format)),
        rows_of(table, format) matches Err(e) ==> e is WrongColumn || e is NoRows,
{
}

/// A batch holds values where the bytes of each column, and the number of all items, are within 31
/// bits; the bytes of a column are those of its texts together.
pub proof fn law_what_fits_a_batch(values: Seq<JsonView>, items: Seq<Seq<char>>, item: Seq<char>)
    ensures
        byte_total(Seq::empty()) == 0,
        byte_total(items.push(item)) == byte_total(items) + vstd::utf8::encode_utf8(item).len(),
        table_fits(values, Format::Alpaca) <==> byte_total(field_texts(values, "instruction"@))
            <= 0x7fff_ffff && byte_total(field_texts(values, "input"@)) <= 0x7fff_ffff
            && byte_total(field_texts(values, "output"@)) <= 0x7fff_ffff,
{
    assert(items.push(item).drop_last() =~= items);
}

/// A table has the columns that are looked at where it has three, and its lists two.
pub proof fn law_enough_columns(table: TableView, format: Format)
    requires
        table.columns.len() >= 3,
        structs_at(table, 0) matches Some(items) ==> items.columns.len() >= 2,
    ensures
        has_columns(table, format),
{
}

} // verus!
