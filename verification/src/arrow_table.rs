//! Record batches, as the `arrow` crate holds them.

use std::sync::Arc;

use arrow::array::{Array, ArrayRef, ListArray, RecordBatch, StringArray, StructArray};
use arrow::buffer::OffsetBuffer;
use arrow::datatypes::{DataType, Field, Fields, Schema};
use vstd::prelude::*;

use crate::text::texts;

verus! {

/// A field of a schema, as a mathematical value. Fields that may be null or have metadata, and
/// lists whose items may be null or have metadata, are among the others.
pub enum FieldView {
    /// Texts.
    Text(Seq<char>),
    /// Lists of structs; the name of the list's items, and the fields of the structs.
    Lists { name: Seq<char>, item: Seq<char>, fields: Seq<FieldView> },
    /// Anything else.
    Other,
}

/// A column, as a mathematical value.
pub enum ColumnView {
    /// A text for each row.
    Texts(Seq<Seq<char>>),
    /// A list for each row: the items from one offset to the next.
    Lists { offsets: Seq<int>, items: ItemsView },
    /// Anything else.
    Other,
}

/// The items of all lists of a column, as a mathematical value.
pub enum ItemsView {
    Structs(StructsView),
    Other,
}

/// An array of structs, as a mathematical value.
pub struct StructsView {
    pub fields: Seq<FieldView>,
    pub columns: Seq<ColumnView>,
    pub len: nat,
}

/// A record batch, as a mathematical value.
pub struct TableView {
    pub names: Seq<Seq<char>>,
    pub columns: Seq<ColumnView>,
    pub rows: nat,
}

/// `arrow::datatypes::Schema`, opaque.
#[verifier::external_type_specification]
#[verifier::external_body]
pub struct ExSchema(arrow::datatypes::Schema);

/// An `arrow` record batch, opaque.
#[verifier::external_body]
pub struct Batch {
    pub inner: RecordBatch,
}

/// The fields of a schema.
pub uninterp spec fn schema_view(schema: arrow::datatypes::Schema) -> Seq<FieldView>;

/// What a record batch holds.
pub uninterp spec fn table_view(batch: Batch) -> TableView;

/// The name of a field.
pub open spec fn field_name(field: FieldView) -> Seq<char> {
    match field {
        FieldView::Text(name) => name,
        FieldView::Lists { name, .. } => name,
        FieldView::Other => Seq::empty(),
    }
}

/// Text fields of the given names.
pub open spec fn text_fields(names: Seq<&str>) -> Seq<FieldView> {
    names.map_values(|name: &str| FieldView::Text(name@))
}

/// One field of lists.
pub open spec fn list_fields(
    name: Seq<char>,
    item: Seq<char>,
    fields: Seq<&str>,
) -> Seq<FieldView> {
    seq![FieldView::Lists { name, item, fields: text_fields(fields) }]
}

/// The bytes of texts in UTF-8.
pub open spec fn byte_total(items: Seq<Seq<char>>) -> nat
    decreases items.len(),
{
    if items.len() == 0 {
        0
    } else {
        byte_total(items.drop_last()) + vstd::utf8::encode_utf8(items.last()).len()
    }
}

/// Whether columns of texts have the given number of rows each, and bytes that 32 bit offsets can
/// reach.
pub open spec fn text_columns_fit(columns: Seq<Vec<String>>, rows: nat) -> bool {
    forall|i: int|
        0 <= i < columns.len() ==> (#[trigger] columns[i])@.len() == rows && byte_total(
            texts(columns[i]@),
        ) <= i32::MAX
}

/// Columns of texts, as mathematical values.
pub open spec fn text_columns(columns: Seq<Vec<String>>) -> Seq<ColumnView> {
    columns.map_values(|column: Vec<String>| ColumnView::Texts(texts(column@)))
}

/// Offsets, as mathematical values.
pub open spec fn offset_values(offsets: Seq<i32>) -> Seq<int> {
    offsets.map_values(|offset: i32| offset as int)
}

/// Whether offsets cut a sequence of `len` items: there is one, they do not decrease, and they
/// stay in the sequence.
pub open spec fn offsets_cut(offsets: Seq<int>, len: nat) -> bool {
    &&& offsets.len() > 0
    &&& forall|i: int| 0 <= i < offsets.len() ==> 0 <= #[trigger] offsets[i] <= len
    &&& forall|i: int, j: int|
        0 <= i <= j < offsets.len() ==> #[trigger] offsets[i] <= #[trigger] offsets[j]
}

/// The table of columns of texts.
pub open spec fn text_table(fields: Seq<FieldView>, columns: Seq<Vec<String>>) -> TableView {
    TableView {
        names: fields.map_values(|field: FieldView| field_name(field)),
        columns: text_columns(columns),
        rows: columns[0]@.len(),
    }
}

/// Structs with a text column for each name.
pub open spec fn structs_of(names: Seq<&str>, columns: Seq<Vec<String>>) -> StructsView {
    StructsView {
        fields: text_fields(names),
        columns: text_columns(columns),
        len: columns[0]@.len(),
    }
}

/// The structs that the lists of a column are made of.
pub open spec fn structs_at(table: TableView, at: int) -> Option<StructsView> {
    match table.columns[at] {
        ColumnView::Lists { offsets, items: ItemsView::Structs(items) } => Some(items),
        _ => None,
    }
}

/// The table of one column of lists.
pub open spec fn list_table(
    fields: Seq<FieldView>,
    items: StructsView,
    offsets: Seq<int>,
) -> TableView {
    TableView {
        names: fields.map_values(|field: FieldView| field_name(field)),
        columns: seq![ColumnView::Lists { offsets, items: ItemsView::Structs(items) }],
        rows: (offsets.len() - 1) as nat,
    }
}

/// Calls `Schema::new` and `Field::new`: a schema of non-null `Utf8` fields.
#[verifier::external_body]
pub(crate) fn text_schema(names: Vec<&str>) -> (r: Arc<arrow::datatypes::Schema>)
    ensures
        schema_view(*r) == text_fields(names@),
{
    let fields: Vec<Field> =
        names.into_iter().map(|name| Field::new(name, DataType::Utf8, false)).collect();
    Arc::new(Schema::new(fields))
}

/// Calls `Schema::new` and `Field::new`: a schema of one non-null field of lists, whose items are
/// non-null structs of non-null `Utf8` fields.
#[verifier::external_body]
pub(crate) fn list_schema(name: &str, item: &str, names: Vec<&str>) -> (r: Arc<
    arrow::datatypes::Schema,
>)
    ensures
        schema_view(*r) == list_fields(name@, item@, names@),
{
    let fields: Fields =
        names.into_iter().map(|name| Field::new(name, DataType::Utf8, false)).collect();
    let items = Field::new(item, DataType::Struct(fields), false);
    Arc::new(Schema::new(vec![Field::new(name, DataType::List(Arc::new(items)), false)]))
}

/// Calls `RecordBatch::try_new` with a `StringArray` for each column. It succeeds where the
/// schema has a text field for each column and the columns have the same number of rows.
/// `StringArray::from` panics where the bytes of a column exceed its 32 bit offsets.
#[verifier::external_body]
pub(crate) fn text_batch(schema: &Arc<arrow::datatypes::Schema>, columns: Vec<Vec<String>>) -> (r:
    Result<Batch, String>)
    requires
        columns@.len() > 0,
        schema_view(**schema).len() == columns@.len(),
        forall|i: int|
            0 <= i < columns@.len() ==> (#[trigger] schema_view(**schema)[i]) is Text,
        text_columns_fit(columns@, columns@[0]@.len()),
    ensures
        r is Ok && table_view(r->Ok_0) == text_table(schema_view(**schema), columns@),
{
    let arrays: Vec<ArrayRef> =
        columns.into_iter().map(|c| Arc::new(StringArray::from(c)) as ArrayRef).collect();
    let batch = RecordBatch::try_new(schema.clone(), arrays);
    batch.map(|inner| Batch { inner }).map_err(|e| e.to_string())
}

/// Calls `StructArray::try_new`, `ListArray::try_new` and `RecordBatch::try_new`: a batch of one
/// column of lists, whose items are structs with a text column for each name. It succeeds where
/// the schema has one field, of lists of just these structs. `StringArray::from` panics where the
/// bytes of a column exceed its 32 bit offsets, `OffsetBuffer::new` on offsets that decrease.
#[verifier::external_body]
pub(crate) fn list_batch(
    schema: &Arc<arrow::datatypes::Schema>,
    item: &str,
    names: Vec<&str>,
    columns: Vec<Vec<String>>,
    offsets: Vec<i32>,
) -> (r: Result<Batch, String>)
    requires
        columns@.len() > 0,
        names@.len() == columns@.len(),
        text_columns_fit(columns@, columns@[0]@.len()),
        offsets_cut(offset_values(offsets@), columns@[0]@.len()),
        schema_view(**schema).len() == 1,
        schema_view(**schema)[0] is Lists,
        schema_view(**schema)[0]->item == item@,
        schema_view(**schema)[0]->fields == text_fields(names@),
    ensures
        r is Ok && table_view(r->Ok_0) == list_table(
            schema_view(**schema),
            structs_of(names@, columns@),
            offset_values(offsets@),
        ),
{
    let fields: Fields = names.into_iter().map(|n| Field::new(n, DataType::Utf8, false)).collect();
    let arrays = columns.into_iter().map(|c| Arc::new(StringArray::from(c)) as ArrayRef).collect();
    let lists = StructArray::try_new(fields, arrays, None).and_then(|items| {
        let field = Field::new(item, items.data_type().clone(), false);
        let offsets = OffsetBuffer::new(offsets.into());
        ListArray::try_new(Arc::new(field), offsets, Arc::new(items), None)
    });
    lists
        .and_then(|lists| RecordBatch::try_new(schema.clone(), vec![Arc::new(lists)]))
        .map(|inner| Batch { inner })
        .map_err(|e| e.to_string())
}

/// Calls `RecordBatch::num_rows`.
#[verifier::external_body]
pub(crate) fn num_rows(batch: &Batch) -> (r: usize)
    ensures
        r == table_view(*batch).rows,
{
    batch.inner.num_rows()
}

/// Calls `RecordBatch::num_columns`; the schema has as many fields.
#[verifier::external_body]
pub(crate) fn num_columns(batch: &Batch) -> (r: usize)
    ensures
        r == table_view(*batch).columns.len(),
        r == table_view(*batch).names.len(),
{
    batch.inner.num_columns()
}

/// Calls `Schema::field` and `Field::name`: the name of a column. It panics where there is no such
/// column.
#[verifier::external_body]
pub(crate) fn column_name(batch: &Batch, at: usize) -> (r: String)
    requires
        at < table_view(*batch).names.len(),
    ensures
        r@ == table_view(*batch).names[at as int],
{
    batch.inner.schema().field(at).name().clone()
}

/// Calls `RecordBatch::column` and `StringArray::value`: the texts of a column of texts, one for
/// each row; nothing of another column. It panics where there is no such column.
#[verifier::external_body]
pub(crate) fn column_texts(batch: &Batch, at: usize) -> (r: Option<
    Vec<String>,
>)
    requires
        at < table_view(*batch).columns.len(),
    ensures
        match table_view(*batch).columns[at as int] {
            ColumnView::Texts(items) => r is Some && texts(r->0@) == items && r->0@.len()
                == table_view(*batch).rows,
            _ => r is None,
        },
{
    let column = batch.inner.column(at).as_any().downcast_ref::<StringArray>()?;
    Some((0..column.len()).map(|row| column.value(row).to_string()).collect())
}

/// Calls `RecordBatch::column` and `ListArray::value_offsets`: the offsets of a column of lists,
/// one more than there are rows; nothing of another column. It panics where there is no such
/// column.
#[verifier::external_body]
pub(crate) fn list_offsets(batch: &Batch, at: usize) -> (r: Option<Vec<i32>>)
    requires
        at < table_view(*batch).columns.len(),
    ensures
        match table_view(*batch).columns[at as int] {
            ColumnView::Lists { offsets, items } => r is Some && offset_values(r->0@) == offsets
                && r->0@.len() == table_view(*batch).rows + 1,
            _ => r is None,
        },
{
    let column = batch.inner.column(at).as_any().downcast_ref::<ListArray>()?;
    Some(column.value_offsets().to_vec())
}

/// Calls `ListArray::values` and `StructArray::num_columns`: the number of columns of the structs
/// that the lists of a column are made of, which its offsets stay in; nothing where the items are
/// no structs, or of another column. It panics where there is no such column.
#[verifier::external_body]
pub(crate) fn struct_columns(batch: &Batch, at: usize) -> (r: Option<usize>)
    requires
        at < table_view(*batch).columns.len(),
    ensures
        match table_view(*batch).columns[at as int] {
            ColumnView::Lists { offsets, items: ItemsView::Structs(items) } => r is Some && r->0
                == items.columns.len() && offsets_cut(offsets, items.len),
            _ => r is None,
        },
{
    let lists = batch.inner.column(at).as_any().downcast_ref::<ListArray>()?;
    let items = lists.values().as_any().downcast_ref::<StructArray>()?;
    Some(items.num_columns())
}

/// Calls `StructArray::column` and `StringArray::value`: the texts of a column of the structs that
/// the lists of a column are made of, one for each struct; nothing of another column. It panics
/// where there is no such column.
#[verifier::external_body]
pub(crate) fn struct_texts(batch: &Batch, at: usize, field: usize) -> (r:
    Option<Vec<String>>)
    requires
        at < table_view(*batch).columns.len(),
        structs_at(table_view(*batch), at as int) is Some,
        field < structs_at(table_view(*batch), at as int)->0.columns.len(),
    ensures
        match structs_at(table_view(*batch), at as int)->0.columns[field as int] {
            ColumnView::Texts(values) => r is Some && texts(r->0@) == values && r->0@.len()
                == structs_at(table_view(*batch), at as int)->0.len,
            _ => r is None,
        },
{
    let lists = batch.inner.column(at).as_any().downcast_ref::<ListArray>()?;
    let items = lists.values().as_any().downcast_ref::<StructArray>()?;
    let column = items.column(field).as_any().downcast_ref::<StringArray>()?;
    Some((0..column.len()).map(|row| column.value(row).to_string()).collect())
}

} // verus!
