//! Writing records as JSON lines.

use vstd::prelude::*;
use vstd::string::StringExecFns;

use crate::format::Format;
use crate::json::{
    control_digits, doc_text, escaped, escaped_char, fields_text, items_text, keys_differ,
    nested_within, quote, quoted, simple_key, writable, Doc,
};
use crate::record::{Alpaca, AlpacaView, ChatML, ShareGPT, Turn};
use crate::table::{list_key, speaker_key, words_key};

verus! {

/// An instruction record as a document.
pub open spec fn alpaca_doc(a: AlpacaView) -> Doc {
    Doc::Fields(
        seq![
            ("instruction"@, Doc::Text(a.instruction)),
            ("input"@, Doc::Text(a.input)),
            ("output"@, Doc::Text(a.output)),
        ],
    )
}

/// A turn of a conversation as a document.
pub open spec fn turn_doc(turn: Turn, format: Format) -> Doc {
    Doc::Fields(
        seq![
            (speaker_key(format), Doc::Text(turn.speaker)),
            (words_key(format), Doc::Text(turn.words)),
        ],
    )
}

/// The turns of a conversation as documents.
pub open spec fn turn_docs(turns: Seq<Turn>, format: Format) -> Seq<Doc> {
    turns.map_values(|turn: Turn| turn_doc(turn, format))
}

/// A conversation as a document.
pub open spec fn turns_doc(turns: Seq<Turn>, format: Format) -> Doc {
    Doc::Fields(seq![(list_key(format), Doc::List(turn_docs(turns, format)))])
}

/// A text as a JSON string.
fn string_text(text: &str) -> (r: String)
    ensures
        r@ == quoted(text@),
{
    match quote(text) {
        Ok(out) => out,
        Err(words) => words,
    }
}

/// Literals of one character.
proof fn lemma_marks()
    ensures
        "{"@ == seq!['{'],
        "}"@ == seq!['}'],
        "["@ == seq!['['],
        "]"@ == seq![']'],
        ":"@ == seq![':'],
        ","@ == seq![','],
{
    reveal_strlit("{");
    reveal_strlit("}");
    reveal_strlit("[");
    reveal_strlit("]");
    reveal_strlit(":");
    reveal_strlit(",");
    assert("{"@ =~= seq!['{']);
    assert("}"@ =~= seq!['}']);
    assert("["@ =~= seq!['[']);
    assert("]"@ =~= seq![']']);
    assert(":"@ =~= seq![':']);
    assert(","@ =~= seq![',']);
}

/// A field with a text.
fn field_line(key: &str, text: &str) -> (r: String)
    ensures
        r@ == quoted(key@) + seq![':'] + quoted(text@),
{
    proof {
        lemma_marks();
    }
    string_text(key).concat(":").concat(string_text(text).as_str())
}

/// The text of two fields.
proof fn lemma_two_fields(a: (Seq<char>, Doc), b: (Seq<char>, Doc))
    ensures
        fields_text(seq![a, b]) == quoted(a.0) + seq![':'] + doc_text(a.1) + seq![','] + quoted(b.0)
            + seq![':'] + doc_text(b.1),
{
    let fields = seq![a, b];
    let one = seq![a];
    assert(fields.drop_last() =~= one);
    assert(fields_text(one) == quoted(a.0) + seq![':'] + doc_text(a.1));
}

/// The text of three fields.
proof fn lemma_three_fields(a: (Seq<char>, Doc), b: (Seq<char>, Doc), c: (Seq<char>, Doc))
    ensures
        fields_text(seq![a, b, c]) == quoted(a.0) + seq![':'] + doc_text(a.1) + seq![',']
            + quoted(b.0) + seq![':'] + doc_text(b.1) + seq![','] + quoted(c.0) + seq![':']
            + doc_text(c.1),
{
    let fields = seq![a, b, c];
    assert(fields.drop_last() =~= seq![a, b]);
    lemma_two_fields(a, b);
}

/// The JSON text of a turn.
fn turn_line(speaker: &str, words: &str, format: Format) -> (r: String)
    requires
        format == Format::ShareGPT || format == Format::ChatML,
    ensures
        r@ == doc_text(turn_doc(Turn { speaker: speaker@, words: words@ }, format)),
{
    let (first, second) = if matches!(format, Format::ShareGPT) {
        ("from", "value")
    } else {
        ("role", "content")
    };
    let left = field_line(first, speaker);
    let right = field_line(second, words);
    let r = "{".to_owned().concat(left.as_str()).concat(",").concat(right.as_str()).concat("}");
    proof {
        lemma_marks();
        lemma_two_fields(
            (speaker_key(format), Doc::Text(speaker@)),
            (words_key(format), Doc::Text(words@)),
        );
        assert(r@ =~= doc_text(turn_doc(Turn { speaker: speaker@, words: words@ }, format)));
    }
    r
}

/// One more item of a list.
proof fn lemma_items_step(items: Seq<Doc>, n: int)
    requires
        0 <= n < items.len(),
    ensures
        items_text(items.take(n + 1)) == if n == 0 {
            doc_text(items[0])
        } else {
            items_text(items.take(n)) + seq![','] + doc_text(items[n])
        },
{
    assert(items.take(n + 1).drop_last() =~= items.take(n));
}

/// Closes the JSON text of a conversation whose turns are written.
fn conversation_line(
    key: &str,
    items: &String,
    Ghost(turns): Ghost<Seq<Turn>>,
    format: Format,
) -> (r: String)
    requires
        key@ == list_key(format),
        items@ == items_text(turn_docs(turns, format)),
    ensures
        r@ == doc_text(turns_doc(turns, format)),
{
    let r = "{".to_owned().concat(string_text(key).as_str()).concat(":").concat("[").concat(
        items.as_str(),
    ).concat("]").concat("}");
    proof {
        lemma_marks();
        let list = Doc::List(turn_docs(turns, format));
        assert(fields_text(seq![(list_key(format), list)]) == quoted(key@) + seq![':'] + doc_text(
            list,
        ));
        assert(r@ =~= doc_text(turns_doc(turns, format)));
    }
    r
}

impl Alpaca {
    /// The record as a JSON line.
    pub fn to_line(&self) -> (r: String)
        ensures
            r@ == doc_text(alpaca_doc(self@)),
    {
        let first = field_line("instruction", self.instruction.as_str());
        let second = field_line("input", self.input.as_str());
        let third = field_line("output", self.output.as_str());
        let r = "{".to_owned().concat(first.as_str()).concat(",").concat(second.as_str()).concat(
            ",",
        ).concat(third.as_str()).concat("}");
        proof {
            lemma_marks();
            lemma_three_fields(
                ("instruction"@, Doc::Text(self@.instruction)),
                ("input"@, Doc::Text(self@.input)),
                ("output"@, Doc::Text(self@.output)),
            );
            assert(r@ =~= doc_text(alpaca_doc(self@)));
        }
        r
    }
}

impl ShareGPT {
    /// The record as a JSON line.
    pub fn to_line(&self) -> (r: String)
        ensures
            r@ == doc_text(turns_doc(self@, Format::ShareGPT)),
    {
        let ghost docs = turn_docs(self@, Format::ShareGPT);
        let mut items = String::new();
        let mut i: usize = 0;
        while i < self.conversations.len()
            invariant
                i <= self.conversations.len(),
                docs == turn_docs(self@, Format::ShareGPT),
                items@ == items_text(docs.take(i as int)),
            decreases self.conversations.len() - i,
        {
            let turn = turn_line(
                self.conversations[i].from.as_str(),
                self.conversations[i].value.as_str(),
                Format::ShareGPT,
            );
            proof {
                lemma_marks();
                lemma_items_step(docs, i as int);
                assert(turn@ == doc_text(docs[i as int]));
            }
            if i > 0 {
                items.append(",");
            }
            items.append(turn.as_str());
            assert(items@ =~= items_text(docs.take(i + 1)));
            i += 1;
        }
        assert(docs.take(i as int) =~= docs);
        conversation_line("conversations", &items, Ghost(self@), Format::ShareGPT)
    }
}

impl ChatML {
    /// The record as a JSON line.
    pub fn to_line(&self) -> (r: String)
        ensures
            r@ == doc_text(turns_doc(self@, Format::ChatML)),
    {
        let ghost docs = turn_docs(self@, Format::ChatML);
        let mut items = String::new();
        let mut i: usize = 0;
        while i < self.messages.len()
            invariant
                i <= self.messages.len(),
                docs == turn_docs(self@, Format::ChatML),
                items@ == items_text(docs.take(i as int)),
            decreases self.messages.len() - i,
        {
            let turn = turn_line(
                self.messages[i].role.as_str(),
                self.messages[i].content.as_str(),
                Format::ChatML,
            );
            proof {
                lemma_marks();
                lemma_items_step(docs, i as int);
                assert(turn@ == doc_text(docs[i as int]));
            }
            if i > 0 {
                items.append(",");
            }
            items.append(turn.as_str());
            assert(items@ =~= items_text(docs.take(i + 1)));
            i += 1;
        }
        assert(docs.take(i as int) =~= docs);
        conversation_line("messages", &items, Ghost(self@), Format::ChatML)
    }
}

/// The documents of records have few levels and simple, different keys.
pub(crate) proof fn lemma_records_writable(a: AlpacaView, turns: Seq<Turn>, format: Format)
    ensures
        writable(alpaca_doc(a)),
        writable(turns_doc(turns, format)),
{
    reveal_strlit("instruction");
    reveal_strlit("input");
    reveal_strlit("output");
    reveal_strlit("from");
    reveal_strlit("value");
    reveal_strlit("role");
    reveal_strlit("content");
    reveal_strlit("conversations");
    reveal_strlit("messages");
    assert("instruction"@.len() == 11 && "input"@.len() == 5 && "output"@.len() == 6
        && "from"@.len() == 4 && "value"@.len() == 5 && "role"@.len() == 4 && "content"@.len()
        == 7);
    assert(simple_key("instruction"@) && simple_key("input"@) && simple_key("output"@));
    assert(simple_key(list_key(format)) && simple_key(speaker_key(format)) && simple_key(
        words_key(format),
    ));
    reveal_with_fuel(nested_within, 5);
    reveal_with_fuel(keys_differ, 5);
    let docs = turn_docs(turns, format);
    assert forall|i: int| 0 <= i < docs.len() implies nested_within(#[trigger] docs[i], 6)
        && keys_differ(docs[i], 6) by {
        assert(docs[i] == turn_doc(turns[i], format));
    }
    assert(nested_within(Doc::List(docs), 7));
    assert(keys_differ(Doc::List(docs), 7));
}

/// The escaped form of a text starts with that of its first character.
proof fn lemma_escaped_front(text: Seq<char>)
    requires
        text.len() > 0,
    ensures
        escaped(text) == escaped_char(text[0]) + escaped(text.drop_first()),
    decreases text.len(),
{
    let rest = text.drop_first();
    if text.len() == 1 {
        assert(text.drop_last() =~= Seq::<char>::empty());
        assert(rest =~= Seq::<char>::empty());
        assert(escaped(text) =~= escaped_char(text[0]) + escaped(rest));
    } else {
        lemma_escaped_front(text.drop_last());
        assert(text.drop_last().drop_first() =~= rest.drop_last());
        assert(escaped(text) =~= escaped_char(text[0]) + escaped(rest));
    }
}

/// What follows the same text in the same sequence is the same.
proof fn lemma_same_rest(head: Seq<char>, x: Seq<char>, y: Seq<char>)
    requires
        head + x == head + y,
    ensures
        x == y,
{
    assert(x =~= (head + x).skip(head.len() as int));
    assert(y =~= (head + y).skip(head.len() as int));
}

/// A character is told by how its escaped form starts a sequence.
proof fn lemma_char_told(c: char, d: char, x: Seq<char>, y: Seq<char>)
    requires
        escaped_char(c) + x == escaped_char(d) + y,
    ensures
        c == d,
        x == y,
{
    let a = escaped_char(c) + x;
    let b = escaped_char(d) + y;
    assert(a[0] == b[0]);
    assert(escaped_char(c)[0] == a[0]);
    assert(escaped_char(d)[0] == b[0]);
    if a[0] == '\\' {
        assert(escaped_char(c)[1] == a[1]);
        assert(escaped_char(d)[1] == b[1]);
        if a[1] == 'u' {
            assert(escaped_char(c).len() == 6 && escaped_char(d).len() == 6);
            assert(escaped_char(c)[4] == a[4] && escaped_char(c)[5] == a[5]);
            assert(escaped_char(d)[4] == b[4] && escaped_char(d)[5] == b[5]);
            assert(control_digits(c as nat)[0] == control_digits(d as nat)[0]);
            assert(control_digits(c as nat)[1] == control_digits(d as nat)[1]);
        }
    }
    assert(c == d);
    lemma_same_rest(escaped_char(c), x, y);
}

/// A text is told by how its JSON string starts a sequence, from behind the quote on.
proof fn lemma_escaped_told(s: Seq<char>, t: Seq<char>, x: Seq<char>, y: Seq<char>)
    requires
        escaped(s) + seq!['"'] + x == escaped(t) + seq!['"'] + y,
    ensures
        s == t,
        x == y,
    decreases s.len(),
{
    let a = escaped(s) + seq!['"'] + x;
    let b = escaped(t) + seq!['"'] + y;
    assert(a[0] == b[0]);
    if s.len() > 0 {
        lemma_escaped_front(s);
        assert(a[0] == escaped_char(s[0])[0]);
    } else {
        assert(a[0] == '"');
    }
    if t.len() > 0 {
        lemma_escaped_front(t);
        assert(b[0] == escaped_char(t[0])[0]);
    } else {
        assert(b[0] == '"');
    }
    if s.len() == 0 || t.len() == 0 {
        assert(s =~= t);
        lemma_same_rest(escaped(s) + seq!['"'], x, y);
    } else {
        let ours = escaped(s.drop_first()) + seq!['"'] + x;
        let theirs = escaped(t.drop_first()) + seq!['"'] + y;
        assert(a =~= escaped_char(s[0]) + ours);
        assert(b =~= escaped_char(t[0]) + theirs);
        lemma_char_told(s[0], t[0], ours, theirs);
        lemma_escaped_told(s.drop_first(), t.drop_first(), x, y);
        assert(s =~= seq![s[0]] + s.drop_first());
        assert(t =~= seq![t[0]] + t.drop_first());
    }
}

/// A text is told by how its JSON string starts a sequence.
proof fn lemma_quoted_told(s: Seq<char>, t: Seq<char>, x: Seq<char>, y: Seq<char>)
    requires
        quoted(s) + x == quoted(t) + y,
    ensures
        s == t,
        x == y,
{
    let ours = escaped(s) + seq!['"'] + x;
    let theirs = escaped(t) + seq!['"'] + y;
    assert(quoted(s) + x =~= seq!['"'] + ours);
    assert(quoted(t) + y =~= seq!['"'] + theirs);
    lemma_same_rest(seq!['"'], ours, theirs);
    lemma_escaped_told(s, t, x, y);
}

/// A turn is told by how its JSON text starts a sequence.
proof fn lemma_turn_told(a: Turn, b: Turn, format: Format, x: Seq<char>, y: Seq<char>)
    requires
        doc_text(turn_doc(a, format)) + x == doc_text(turn_doc(b, format)) + y,
    ensures
        a == b,
        x == y,
{
    let first = seq!['{'] + quoted(speaker_key(format)) + seq![':'];
    let second = seq![','] + quoted(words_key(format)) + seq![':'];
    lemma_turn_text(a, format);
    lemma_turn_text(b, format);
    let ours = second + (quoted(a.words) + (seq!['}'] + x));
    let theirs = second + (quoted(b.words) + (seq!['}'] + y));
    assert(doc_text(turn_doc(a, format)) + x =~= first + (quoted(a.speaker) + ours));
    assert(doc_text(turn_doc(b, format)) + y =~= first + (quoted(b.speaker) + theirs));
    lemma_same_rest(first, quoted(a.speaker) + ours, quoted(b.speaker) + theirs);
    lemma_quoted_told(a.speaker, b.speaker, ours, theirs);
    lemma_same_rest(
        second,
        quoted(a.words) + (seq!['}'] + x),
        quoted(b.words) + (seq!['}'] + y),
    );
    lemma_quoted_told(a.words, b.words, seq!['}'] + x, seq!['}'] + y);
    lemma_same_rest(seq!['}'], x, y);
}

/// The JSON text of a turn, piece by piece.
proof fn lemma_turn_text(turn: Turn, format: Format)
    ensures
        doc_text(turn_doc(turn, format)) == seq!['{'] + quoted(speaker_key(format)) + seq![':']
            + quoted(turn.speaker) + seq![','] + quoted(words_key(format)) + seq![':'] + quoted(
            turn.words,
        ) + seq!['}'],
{
    lemma_two_fields(
        (speaker_key(format), Doc::Text(turn.speaker)),
        (words_key(format), Doc::Text(turn.words)),
    );
    assert(doc_text(turn_doc(turn, format)) =~= seq!['{'] + quoted(speaker_key(format)) + seq![':']
        + quoted(turn.speaker) + seq![','] + quoted(words_key(format)) + seq![':'] + quoted(
        turn.words,
    ) + seq!['}']);
}

/// The text of a list starts with that of its first item.
proof fn lemma_items_front(items: Seq<Doc>)
    requires
        items.len() > 0,
    ensures
        items_text(items) == doc_text(items[0]) + if items.len() == 1 {
            Seq::empty()
        } else {
            seq![','] + items_text(items.drop_first())
        },
    decreases items.len(),
{
    if items.len() == 1 {
        assert(items_text(items) =~= doc_text(items[0]) + Seq::<char>::empty());
    } else {
        let before = items.drop_last();
        let rest = items.drop_first();
        lemma_items_front(before);
        if items.len() == 2 {
            assert(rest[0] == items.last());
        } else {
            assert(before.drop_first() =~= rest.drop_last());
        }
        assert(items_text(items) =~= doc_text(items[0]) + (seq![','] + items_text(rest)));
    }
}

/// What follows the first turn of a list up to the end of the line.
spec fn behind_first(turns: Seq<Turn>, format: Format, end: Seq<char>) -> Seq<char> {
    if turns.len() == 1 {
        end
    } else {
        seq![','] + (items_text(turn_docs(turns.drop_first(), format)) + end)
    }
}

/// The text of a list of turns, with what follows: its first turn, and what is behind that.
proof fn lemma_turns_front(turns: Seq<Turn>, format: Format, end: Seq<char>)
    requires
        turns.len() > 0,
    ensures
        items_text(turn_docs(turns, format)) + end == doc_text(turn_doc(turns[0], format))
            + behind_first(turns, format, end),
        (items_text(turn_docs(turns, format)) + end)[0] == '{',
{
    let docs = turn_docs(turns, format);
    let first = doc_text(turn_doc(turns[0], format));
    lemma_items_front(docs);
    assert(docs.drop_first() =~= turn_docs(turns.drop_first(), format));
    assert(items_text(docs) + end =~= first + behind_first(turns, format, end));
    lemma_turn_text(turns[0], format);
    assert(first[0] == '{');
}

/// Turns are told by how the text of their list, with its closing bracket, starts a sequence.
proof fn lemma_turns_told(a: Seq<Turn>, b: Seq<Turn>, format: Format, end: Seq<char>)
    requires
        end.len() > 0,
        end[0] == ']',
        items_text(turn_docs(a, format)) + end == items_text(turn_docs(b, format)) + end,
    ensures
        a == b,
    decreases a.len(),
{
    if a.len() > 0 {
        lemma_turns_front(a, format, end);
    } else {
        assert((items_text(turn_docs(a, format)) + end)[0] == ']');
    }
    if b.len() > 0 {
        lemma_turns_front(b, format, end);
    } else {
        assert((items_text(turn_docs(b, format)) + end)[0] == ']');
    }
    if a.len() == 0 || b.len() == 0 {
        assert(a =~= b);
    } else {
        let ours = behind_first(a, format, end);
        let theirs = behind_first(b, format, end);
        lemma_turn_told(a[0], b[0], format, ours, theirs);
        assert(ours[0] == theirs[0]);
        if a.len() > 1 && b.len() > 1 {
            lemma_same_rest(
                seq![','],
                items_text(turn_docs(a.drop_first(), format)) + end,
                items_text(turn_docs(b.drop_first(), format)) + end,
            );
            lemma_turns_told(a.drop_first(), b.drop_first(), format, end);
            assert(a =~= seq![a[0]] + a.drop_first());
            assert(b =~= seq![b[0]] + b.drop_first());
        } else {
            assert(a.len() == 1 && b.len() == 1);
            assert(a =~= b);
        }
    }
}

/// The JSON text of an instruction record, from the back.
spec fn alpaca_pieces(a: AlpacaView) -> Seq<char> {
    let third = seq![','] + quoted("output"@) + seq![':'];
    let second = seq![','] + quoted("input"@) + seq![':'];
    let first = seq!['{'] + quoted("instruction"@) + seq![':'];
    first + (quoted(a.instruction) + (second + (quoted(a.input) + (third + (quoted(a.output) + seq![
        '}',
    ])))))
}

/// The JSON text of an instruction record is made of these pieces.
proof fn lemma_alpaca_pieces(a: AlpacaView)
    ensures
        doc_text(alpaca_doc(a)) == alpaca_pieces(a),
{
    lemma_three_fields(
        ("instruction"@, Doc::Text(a.instruction)),
        ("input"@, Doc::Text(a.input)),
        ("output"@, Doc::Text(a.output)),
    );
    assert(doc_text(alpaca_doc(a)) =~= alpaca_pieces(a));
}

/// An instruction record is told by its line: no two are written alike.
pub proof fn law_lines_tell_alpaca(a: AlpacaView, b: AlpacaView)
    requires
        doc_text(alpaca_doc(a)) == doc_text(alpaca_doc(b)),
    ensures
        a == b,
{
    let first = seq!['{'] + quoted("instruction"@) + seq![':'];
    let second = seq![','] + quoted("input"@) + seq![':'];
    let third = seq![','] + quoted("output"@) + seq![':'];
    let close = seq!['}'];
    lemma_alpaca_pieces(a);
    lemma_alpaca_pieces(b);
    let a_output = quoted(a.output) + close;
    let b_output = quoted(b.output) + close;
    let a_input = quoted(a.input) + (third + a_output);
    let b_input = quoted(b.input) + (third + b_output);
    let a_all = quoted(a.instruction) + (second + a_input);
    let b_all = quoted(b.instruction) + (second + b_input);
    lemma_same_rest(first, a_all, b_all);
    lemma_quoted_told(a.instruction, b.instruction, second + a_input, second + b_input);
    lemma_same_rest(second, a_input, b_input);
    lemma_quoted_told(a.input, b.input, third + a_output, third + b_output);
    lemma_same_rest(third, a_output, b_output);
    lemma_quoted_told(a.output, b.output, close, close);
}

/// A conversation is told by its line: no two are written alike.
pub proof fn law_lines_tell_turns(a: Seq<Turn>, b: Seq<Turn>, format: Format)
    requires
        doc_text(turns_doc(a, format)) == doc_text(turns_doc(b, format)),
    ensures
        a == b,
{
    let head = seq!['{'] + quoted(list_key(format)) + seq![':'] + seq!['['];
    let ours = Doc::List(turn_docs(a, format));
    let theirs = Doc::List(turn_docs(b, format));
    let end = seq![']', '}'];
    let a_rest = items_text(turn_docs(a, format)) + end;
    let b_rest = items_text(turn_docs(b, format)) + end;
    assert(fields_text(seq![(list_key(format), ours)]) == quoted(list_key(format)) + seq![':']
        + doc_text(ours));
    assert(fields_text(seq![(list_key(format), theirs)]) == quoted(list_key(format)) + seq![':']
        + doc_text(theirs));
    assert(doc_text(turns_doc(a, format)) =~= head + a_rest);
    assert(doc_text(turns_doc(b, format)) =~= head + b_rest);
    lemma_same_rest(head, a_rest, b_rest);
    lemma_turns_told(a, b, format, end);
}

/// The line of an instruction record: its three fields in order, each as a JSON string.
pub proof fn law_line_of_alpaca(a: AlpacaView)
    ensures
        doc_text(alpaca_doc(a)) == "{\"instruction\":"@ + quoted(a.instruction) + ",\"input\":"@
            + quoted(a.input) + ",\"output\":"@ + quoted(a.output) + "}"@,
{
    reveal_strlit("{\"instruction\":");
    reveal_strlit(",\"input\":");
    reveal_strlit(",\"output\":");
    reveal_strlit("instruction");
    reveal_strlit("input");
    reveal_strlit("output");
    lemma_marks();
    lemma_alpaca_pieces(a);
    lemma_plain("instruction"@);
    lemma_plain("input"@);
    lemma_plain("output"@);
    assert("{\"instruction\":"@ =~= seq!['{'] + quoted("instruction"@) + seq![':']);
    assert(",\"input\":"@ =~= seq![','] + quoted("input"@) + seq![':']);
    assert(",\"output\":"@ =~= seq![','] + quoted("output"@) + seq![':']);
    let first = "{\"instruction\":"@;
    let second = ",\"input\":"@;
    let third = ",\"output\":"@;
    assert(first + (quoted(a.instruction) + (second + (quoted(a.input) + (third + (quoted(a.output)
        + seq!['}']))))) =~= first + quoted(a.instruction) + second + quoted(a.input) + third
        + quoted(a.output) + "}"@);
}

/// A text of lower-case letters is escaped as it is.
proof fn lemma_plain(text: Seq<char>)
    requires
        forall|i: int| 0 <= i < text.len() ==> 'a' <= #[trigger] text[i] <= 'z',
    ensures
        escaped(text) == text,
    decreases text.len(),
{
    if text.len() > 0 {
        lemma_plain(text.drop_last());
        assert(escaped_char(text.last()) == seq![text.last()]);
        assert(escaped(text) =~= text);
    } else {
        assert(escaped(text) =~= text);
    }
}

/// The line of a conversation is made turn by turn: without turns an empty list under the format's
/// key, and each further turn stands as one more item at the end of the list, with its speaker and
/// its words under their keys.
pub proof fn law_line_of_turns(turns: Seq<Turn>, turn: Turn, format: Format)
    ensures
        doc_text(turns_doc(Seq::empty(), format)) == seq!['{'] + quoted(list_key(format)) + seq![
            ':',
            '[',
            ']',
            '}',
        ],
        ({
            let before = doc_text(turns_doc(turns, format));
            let after = doc_text(turns_doc(turns.push(turn), format));
            let item = seq!['{'] + quoted(speaker_key(format)) + seq![':'] + quoted(turn.speaker)
                + seq![','] + quoted(words_key(format)) + seq![':'] + quoted(turn.words) + seq!['}'];
            &&& before.len() >= 2
            &&& turns.len() == 0 ==> after == before.take(before.len() - 2) + item + seq![']', '}']
            &&& turns.len() > 0 ==> after == before.take(before.len() - 2) + seq![','] + item
                + seq![']', '}']
        }),
{
    let none = Seq::<Turn>::empty();
    let docs = turn_docs(turns, format);
    let more = turn_docs(turns.push(turn), format);
    assert(turn_docs(none, format) =~= Seq::<Doc>::empty());
    assert(more =~= docs.push(turn_doc(turn, format)));
    assert(more.drop_last() =~= docs);
    lemma_turn_text(turn, format);
    lemma_turns_text(none, format);
    lemma_turns_text(turns, format);
    lemma_turns_text(turns.push(turn), format);
    let before = doc_text(turns_doc(turns, format));
    let head = seq!['{'] + quoted(list_key(format)) + seq![':', '['];
    let item = doc_text(turn_doc(turn, format));
    assert(before.take(before.len() - 2) =~= head + items_text(docs));
    if turns.len() == 0 {
        assert(docs =~= Seq::<Doc>::empty());
        assert(items_text(docs) =~= Seq::<char>::empty());
        assert(items_text(more) == item);
        assert(head + item + seq![']', '}'] =~= head + items_text(docs) + item + seq![']', '}']);
    } else {
        assert(items_text(more) == items_text(docs) + seq![','] + item);
        assert(head + items_text(more) + seq![']', '}'] =~= head + items_text(docs) + seq![',']
            + item + seq![']', '}']);
    }
    assert(doc_text(turns_doc(none, format)) =~= seq!['{'] + quoted(list_key(format)) + seq![
        ':',
        '[',
        ']',
        '}',
    ]);
}

/// The line of a conversation, piece by piece.
proof fn lemma_turns_text(turns: Seq<Turn>, format: Format)
    ensures
        doc_text(turns_doc(turns, format)) == seq!['{'] + quoted(list_key(format)) + seq![':', '[']
            + items_text(turn_docs(turns, format)) + seq![']', '}'],
{
    let list = Doc::List(turn_docs(turns, format));
    assert(fields_text(seq![(list_key(format), list)]) == quoted(list_key(format)) + seq![':']
        + doc_text(list));
    assert(doc_text(turns_doc(turns, format)) =~= seq!['{'] + quoted(list_key(format)) + seq![
        ':',
        '[',
    ] + items_text(turn_docs(turns, format)) + seq![']', '}']);
}

} // verus!
