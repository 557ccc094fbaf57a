//! JSON values and texts, as the `serde_json` crate reads and writes them.

use vstd::prelude::*;
use vstd::string::StringExecFns;

verus! {

/// A JSON value as a mathematical value. A number is kept as its text.
pub enum JsonView {
    Null,
    Bool(bool),
    Number(Seq<char>),
    String(Seq<char>),
    Array(Seq<JsonView>),
    Object(Map<Seq<char>, JsonView>),
}

/// `serde_json::Value`, opaque.
#[verifier::external_type_specification]
#[verifier::external_body]
pub struct ExValue(serde_json::Value);

/// `serde_json::Map`, opaque.
#[verifier::external_type_specification]
#[verifier::external_body]
#[verifier::reject_recursive_types(K)]
#[verifier::reject_recursive_types(V)]
pub struct ExMap<K, V>(serde_json::Map<K, V>);

/// What a JSON value holds.
pub uninterp spec fn json_view(value: serde_json::Value) -> JsonView;

/// What a JSON object holds.
pub uninterp spec fn entries_view(entries: serde_json::Map<String, serde_json::Value>) -> Map<
    Seq<char>,
    JsonView,
>;

/// What `serde_json` reads from a text: a value, or the words of its complaint.
pub uninterp spec fn json_of_text(text: Seq<char>) -> Result<JsonView, Seq<char>>;

/// The compact text that `serde_json` writes for a value.
pub uninterp spec fn text_of_json(value: JsonView) -> Seq<char>;

/// Whether a text is read as the given value.
pub open spec fn reads_as(text: Seq<char>, value: JsonView) -> bool {
    json_of_text(text) == Ok::<JsonView, Seq<char>>(value)
}

/// A key of lower-case letters.
pub open spec fn simple_key(key: Seq<char>) -> bool {
    forall|i: int| 0 <= i < key.len() ==> 'a' <= #[trigger] key[i] <= 'z'
}

/// Whether a value is made of strings, arrays and objects with simple keys alone, with less than
/// `depth` arrays and objects inside each other.
pub open spec fn plain_within(value: JsonView, depth: nat) -> bool
    decreases depth,
{
    match value {
        JsonView::String(_) => true,
        JsonView::Array(items) => depth > 0 && forall|i: int|
            0 <= i < items.len() ==> plain_within(#[trigger] items[i], (depth - 1) as nat),
        JsonView::Object(fields) => depth > 0 && forall|k: Seq<char>|
            fields.dom().contains(k) ==> simple_key(k) && plain_within(
                #[trigger] fields[k],
                (depth - 1) as nat,
            ),
        _ => false,
    }
}

/// A document that is written field by field: strings, lists and fields in order.
pub enum Doc {
    Text(Seq<char>),
    List(Seq<Doc>),
    Fields(Seq<(Seq<char>, Doc)>),
}

/// The two lower-case hexadecimal digits of a number below 32.
pub open spec fn control_digits(n: nat) -> Seq<char> {
    let low = n % 16;
    seq![
        if n < 16 {
            '0'
        } else {
            '1'
        },
        (if low < 10 {
            48 + low
        } else {
            87 + low
        }) as char,
    ]
}

/// A character as it stands inside a JSON string.
pub open spec fn escaped_char(c: char) -> Seq<char> {
    if c == '"' {
        seq!['\\', '"']
    } else if c == '\\' {
        seq!['\\', '\\']
    } else if c as u32 == 8 {
        seq!['\\', 'b']
    } else if c as u32 == 9 {
        seq!['\\', 't']
    } else if c as u32 == 10 {
        seq!['\\', 'n']
    } else if c as u32 == 12 {
        seq!['\\', 'f']
    } else if c as u32 == 13 {
        seq!['\\', 'r']
    } else if (c as u32) < 32 {
        seq!['\\', 'u', '0', '0'] + control_digits(c as nat)
    } else {
        seq![c]
    }
}

/// The characters of a text as they stand inside a JSON string.
pub open spec fn escaped(text: Seq<char>) -> Seq<char>
    decreases text.len(),
{
    if text.len() == 0 {
        Seq::empty()
    } else {
        escaped(text.drop_last()) + escaped_char(text.last())
    }
}

/// A text as a JSON string.
pub open spec fn quoted(text: Seq<char>) -> Seq<char> {
    seq!['"'] + escaped(text) + seq!['"']
}

/// The compact JSON text of a document.
pub open spec fn doc_text(doc: Doc) -> Seq<char>
    decreases doc,
{
    match doc {
        Doc::Text(s) => quoted(s),
        Doc::List(items) => seq!['['] + items_text(items) + seq![']'],
        Doc::Fields(fields) => seq!['{'] + fields_text(fields) + seq!['}'],
    }
}

/// The texts of the items of a list, with commas between them.
pub open spec fn items_text(items: Seq<Doc>) -> Seq<char>
    decreases items,
{
    if items.len() == 0 {
        Seq::empty()
    } else if items.len() == 1 {
        doc_text(items[0])
    } else {
        items_text(items.drop_last()) + seq![','] + doc_text(items.last())
    }
}

/// The texts of fields, with commas between them.
pub open spec fn fields_text(fields: Seq<(Seq<char>, Doc)>) -> Seq<char>
    decreases fields,
{
    if fields.len() == 0 {
        Seq::empty()
    } else if fields.len() == 1 {
        quoted(fields[0].0) + seq![':'] + doc_text(fields[0].1)
    } else {
        fields_text(fields.drop_last()) + seq![','] + quoted(fields.last().0) + seq![':']
            + doc_text(fields.last().1)
    }
}

/// Whether less than `depth` lists and field groups of a document stand inside each other.
pub open spec fn nested_within(doc: Doc, depth: nat) -> bool
    decreases depth,
{
    match doc {
        Doc::Text(_) => true,
        Doc::List(items) => depth > 0 && forall|i: int|
            0 <= i < items.len() ==> nested_within(#[trigger] items[i], (depth - 1) as nat),
        Doc::Fields(fields) => depth > 0 && forall|i: int|
            0 <= i < fields.len() ==> nested_within((#[trigger] fields[i]).1, (depth - 1) as nat),
    }
}

/// Whether a JSON value is what a document says, `depth` levels down.
pub open spec fn says(value: JsonView, doc: Doc, depth: nat) -> bool
    decreases depth,
{
    match doc {
        Doc::Text(s) => value == JsonView::String(s),
        Doc::List(items) => {
            &&& depth > 0
            &&& value matches JsonView::Array(values) && values.len() == items.len() && forall|
                i: int,
            |
                0 <= i < items.len() ==> says(#[trigger] values[i], items[i], (depth - 1) as nat)
        },
        Doc::Fields(fields) => {
            &&& depth > 0
            &&& value matches JsonView::Object(entries) && {
                &&& forall|k: Seq<char>| #[trigger]
                    entries.dom().contains(k) <==> exists|i: int|
                        0 <= i < fields.len() && (#[trigger] fields[i]).0 == k
                &&& forall|i: int|
                    0 <= i < fields.len() ==> says(
                        entries[(#[trigger] fields[i]).0],
                        fields[i].1,
                        (depth - 1) as nat,
                    )
            }
        },
    }
}

/// Whether the keys of each field group of a document are simple and different, `depth` levels
/// down.
pub open spec fn keys_differ(doc: Doc, depth: nat) -> bool
    decreases depth,
{
    match doc {
        Doc::Text(_) => true,
        Doc::List(items) => depth > 0 ==> forall|i: int|
            0 <= i < items.len() ==> keys_differ(#[trigger] items[i], (depth - 1) as nat),
        Doc::Fields(fields) => depth > 0 ==> {
            &&& forall|i: int, j: int|
                0 <= i < j < fields.len() ==> (#[trigger] fields[i]).0 != (#[trigger] fields[j]).0
            &&& forall|i: int|
                0 <= i < fields.len() ==> simple_key((#[trigger] fields[i]).0) && keys_differ(
                    fields[i].1,
                    (depth - 1) as nat,
                )
        },
    }
}

/// A document that this crate may write: of at most eight levels, with simple, different keys.
pub open spec fn writable(doc: Doc) -> bool {
    nested_within(doc, 8) && keys_differ(doc, 8)
}

/// Calls `serde_json::from_str` for a `Value`. What it gives depends on the text alone; a text
/// that `serde_json` or this crate writes for strings, lists and fields is read back as such.
#[verifier::external_body]
pub(crate) fn parse_value(text: &str) -> (r: Result<serde_json::Value, String>)
    ensures
        match r {
            Ok(value) => reads_as(text@, json_view(value)),
            Err(words) => json_of_text(text@) == Err::<JsonView, Seq<char>>(words@),
        },
        forall|doc: Doc| #[trigger]
            doc_text(doc) == text@ && writable(doc) ==> r is Ok && says(
                json_view(r->Ok_0),
                doc,
                8,
            ),
{
    serde_json::from_str(text).map_err(|e| e.to_string())
}

/// `Value::as_object`: the entries of an object, nothing of another value.
pub assume_specification[ serde_json::Value::as_object ](value: &serde_json::Value) -> (r: Option<
    &serde_json::Map<String, serde_json::Value>,
>)
    ensures
        match json_view(*value) {
            JsonView::Object(fields) => r is Some && entries_view(*r->0) == fields,
            _ => r is None,
        },
;

/// `Value::as_array`: the items of an array, nothing of another value.
pub assume_specification[ serde_json::Value::as_array ](value: &serde_json::Value) -> (r: Option<
    &Vec<serde_json::Value>,
>)
    ensures
        match json_view(*value) {
            JsonView::Array(items) => r is Some && r->0@.map_values(
                |v: serde_json::Value| json_view(v),
            ) == items,
            _ => r is None,
        },
;

/// `Value::as_str`: the text of a string, nothing of another value.
pub assume_specification[ serde_json::Value::as_str ](value: &serde_json::Value) -> (r: Option<
    &str,
>)
    ensures
        match json_view(*value) {
            JsonView::String(s) => r is Some && r->0@ == s,
            _ => r is None,
        },
;

/// Calls `Map::contains_key`.
#[verifier::external_body]
pub(crate) fn has_key(entries: &serde_json::Map<String, serde_json::Value>, key: &str) -> (r: bool)
    ensures
        r == entries_view(*entries).dom().contains(key@),
{
    entries.contains_key(key)
}

/// The field of a JSON value: null where the value is no object or has no such key.
pub open spec fn field_of(value: JsonView, key: Seq<char>) -> JsonView {
    match value {
        JsonView::Object(fields) => if fields.dom().contains(key) {
            fields[key]
        } else {
            JsonView::Null
        },
        _ => JsonView::Null,
    }
}

/// Indexes a `Value` with a string: the field of that name, or null.
#[verifier::external_body]
pub(crate) fn field<'a>(value: &'a serde_json::Value, key: &str) -> (r: &'a serde_json::Value)
    ensures
        json_view(*r) == field_of(json_view(*value), key@),
{
    &value[key]
}

/// Makes a `Value::String`.
#[verifier::external_body]
pub(crate) fn string_value(text: String) -> (r: serde_json::Value)
    ensures
        json_view(r) == JsonView::String(text@),
{
    serde_json::Value::String(text)
}

/// Makes a `Value::Array`.
#[verifier::external_body]
pub(crate) fn array_value(items: Vec<serde_json::Value>) -> (r: serde_json::Value)
    ensures
        json_view(r) == JsonView::Array(items@.map_values(|v: serde_json::Value| json_view(v))),
{
    serde_json::Value::Array(items)
}

/// The map that entries make one after the other: where a key occurs twice, the later stays.
pub open spec fn collected(entries: Seq<(String, serde_json::Value)>) -> Map<Seq<char>, JsonView>
    decreases entries.len(),
{
    if entries.len() == 0 {
        Map::empty()
    } else {
        collected(entries.drop_last()).insert(entries.last().0@, json_view(entries.last().1))
    }
}

/// Makes a `Value::Object` through the `FromIterator` impl of `Map`: where a key occurs twice, the
/// later entry stays.
#[verifier::external_body]
pub(crate) fn object_value(entries: Vec<(String, serde_json::Value)>) -> (r: serde_json::Value)
    ensures
        json_view(r) == JsonView::Object(collected(entries@)),
{
    serde_json::Value::Object(entries.into_iter().collect())
}

/// Calls `serde_json::to_string` for a `Value`, which does not fail. The text depends on what the
/// value holds alone: objects keep their entries sorted by key. A value of strings, arrays and
/// objects is read back from its text.
#[verifier::external_body]
pub(crate) fn value_text(value: &serde_json::Value) -> (r: Result<String, String>)
    ensures
        r is Ok && r->Ok_0@ == text_of_json(json_view(*value)),
        plain_within(json_view(*value), 8) ==> reads_as(r->Ok_0@, json_view(*value)),
{
    serde_json::to_string(value).map_err(|e| e.to_string())
}

/// Calls `serde_json::to_string` for a `str`, which does not fail: the text in quotes, with
/// quotes, backslashes and control characters escaped.
#[verifier::external_body]
pub(crate) fn quote(text: &str) -> (r: Result<String, String>)
    ensures
        r is Ok && r->Ok_0@ == quoted(text@),
{
    serde_json::to_string(text).map_err(|e| e.to_string())
}

/// A JSON string has its text between two quotes, character by character: quotes and backslashes
/// behind a backslash, control characters as escapes, and all others as they are.
pub proof fn law_strings_are_escaped_char_by_char(text: Seq<char>, c: char)
    ensures
        quoted(Seq::empty()) == seq!['"', '"'],
        ({
            let before = quoted(text);
            let after = quoted(text.push(c));
            let head = before.take(before.len() - 1);
            &&& c == '"' ==> after == head + seq!['\\', '"', '"']
            &&& c == '\\' ==> after == head + seq!['\\', '\\', '"']
            &&& c == '\n' ==> after == head + seq!['\\', 'n', '"']
            &&& c == '\r' ==> after == head + seq!['\\', 'r', '"']
            &&& c == '\t' ==> after == head + seq!['\\', 't', '"']
            &&& c as u32 >= 32 && c != '"' && c != '\\' ==> after == head + seq![c, '"']
        }),
{
    assert(quoted(Seq::empty()) =~= seq!['"', '"']);
    assert(text.push(c).drop_last() =~= text);
    let before = quoted(text);
    let head = before.take(before.len() - 1);
    assert(head =~= seq!['"'] + escaped(text));
    assert(quoted(text.push(c)) =~= head + escaped_char(c) + seq!['"']);
    assert(head + escaped_char(c) + seq!['"'] =~= head + (escaped_char(c) + seq!['"']));
    assert(c == '"' ==> escaped_char(c) + seq!['"'] =~= seq!['\\', '"', '"']);
    assert(c == '\\' ==> escaped_char(c) + seq!['"'] =~= seq!['\\', '\\', '"']);
    assert(c == '\n' ==> escaped_char(c) + seq!['"'] =~= seq!['\\', 'n', '"']);
    assert(c == '\r' ==> escaped_char(c) + seq!['"'] =~= seq!['\\', 'r', '"']);
    assert(c == '\t' ==> escaped_char(c) + seq!['"'] =~= seq!['\\', 't', '"']);
    assert(c as u32 >= 32 && c != '"' && c != '\\' ==> escaped_char(c) + seq!['"'] =~= seq![
        c,
        '"',
    ]);
}

/// A control character without an escape of its own is written by its number in four hexadecimal
/// digits, in lower case; backspace and form feed have theirs.
pub proof fn law_control_characters_are_written_by_number(c: char)
    requires
        (c as u32) < 32,
    ensures
        c as u32 == 8 ==> escaped_char(c) == seq!['\\', 'b'],
        c as u32 == 12 ==> escaped_char(c) == seq!['\\', 'f'],
        c as u32 != 8 && c as u32 != 9 && c as u32 != 10 && c as u32 != 12 && c as u32 != 13 ==> {
            let e = escaped_char(c);
            let low = c as int % 16;
            &&& e.len() == 6
            &&& e.take(4) == seq!['\\', 'u', '0', '0']
            &&& e[4] == if (c as u32) < 16 {
                '0'
            } else {
                '1'
            }
            &&& low < 10 ==> e[5] as int == '0' as int + low
            &&& low >= 10 ==> e[5] as int == 'a' as int + low - 10
        },
{
    if c as u32 != 8 && c as u32 != 9 && c as u32 != 10 && c as u32 != 12 && c as u32 != 13 {
        assert(escaped_char(c).take(4) =~= seq!['\\', 'u', '0', '0']);
    }
}

} // verus!
