//! Telling the format of a line.

use vstd::prelude::*;

use crate::error::{Error, ErrorView};
use crate::format::Format;
use crate::json::{
    doc_text, has_key, json_of_text, json_view, parse_value, says, JsonView,
};
use crate::record::{AlpacaView, Turn};
use crate::table::list_key;
use crate::write::{alpaca_doc, lemma_records_writable, turns_doc};

verus! {

/// The format of an object with the given of the three telling fields.
pub open spec fn format_of_fields(
    conversations: bool,
    messages: bool,
    instruction: bool,
) -> Option<Format> {
    if conversations {
        Some(Format::ShareGPT)
    } else if messages {
        Some(Format::ChatML)
    } else if instruction {
        Some(Format::Alpaca)
    } else {
        None
    }
}

/// The format of a JSON value that stands on `line`.
pub open spec fn format_of_value(value: JsonView, line: Seq<char>) -> Result<Format, ErrorView> {
    match value {
        JsonView::Object(fields) => match format_of_fields(
            fields.dom().contains("conversations"@),
            fields.dom().contains("messages"@),
            fields.dom().contains("instruction"@),
        ) {
            Some(f) => Ok(f),
            None => Err(ErrorView::Undetected(line)),
        },
        _ => Err(ErrorView::NotAnObject),
    }
}

/// The format of a line.
pub open spec fn format_of_line(line: Seq<char>) -> Result<Format, ErrorView> {
    match json_of_text(line) {
        Ok(value) => format_of_value(value, line),
        Err(words) => Err(ErrorView::Json(words)),
    }
}

/// A format or an error, as a mathematical value.
pub open spec fn format_result(r: Result<Format, Error>) -> Result<Format, ErrorView> {
    match r {
        Ok(f) => Ok(f),
        Err(e) => Err(e@),
    }
}

/// Tells the format by the fields that an object has: conversations before messages before an
/// instruction.
pub fn detect_fields(conversations: bool, messages: bool, instruction: bool) -> (r: Option<Format>)
    ensures
        r == format_of_fields(conversations, messages, instruction),
{
    if conversations {
        Some(Format::ShareGPT)
    } else if messages {
        Some(Format::ChatML)
    } else if instruction {
        Some(Format::Alpaca)
    } else {
        None
    }
}

/// Tells the format of a JSON value that stands on `line`.
pub fn detect_value(value: &serde_json::Value, line: &str) -> (r: Result<Format, Error>)
    ensures
        format_result(r) == format_of_value(json_view(*value), line@),
{
    match value.as_object() {
        Some(entries) => {
            match detect_fields(
                has_key(entries, "conversations"),
                has_key(entries, "messages"),
                has_key(entries, "instruction"),
            ) {
                Some(f) => Ok(f),
                None => Err(Error::Undetected(line.to_owned())),
            }
        },
        None => Err(Error::NotAnObject),
    }
}

/// Tells the format of a line; of a line that this crate writes for a record, the record's.
pub fn detect(line: &str) -> (r: Result<Format, Error>)
    ensures
        format_result(r) == format_of_line(line@),
        forall|a: AlpacaView| #[trigger]
            doc_text(alpaca_doc(a)) == line@ ==> r == Ok::<Format, Error>(Format::Alpaca),
        forall|turns: Seq<Turn>, f: Format|
            (f == Format::ShareGPT || f == Format::ChatML) && #[trigger] doc_text(
                turns_doc(turns, f),
            ) == line@ ==> r == Ok::<Format, Error>(f),
{
    match parse_value(line) {
        Ok(value) => {
            proof {
                let view = json_view(value);
                assert forall|a: AlpacaView| #[trigger]
                    doc_text(alpaca_doc(a)) == line@ implies format_of_value(view, line@) == Ok::<
                    Format,
                    ErrorView,
                >(Format::Alpaca) by {
                    lemma_records_writable(a, Seq::empty(), Format::ChatML);
                    lemma_alpaca_told(view, a, line@);
                }
                assert forall|turns: Seq<Turn>, f: Format|
                    (f == Format::ShareGPT || f == Format::ChatML) && #[trigger] doc_text(
                        turns_doc(turns, f),
                    ) == line@ implies format_of_value(view, line@) == Ok::<Format, ErrorView>(
                    f,
                ) by {
                    let a = AlpacaView {
                        instruction: Seq::empty(),
                        input: Seq::empty(),
                        output: Seq::empty(),
                    };
                    lemma_records_writable(a, turns, f);
                    lemma_turns_told(view, turns, f, line@);
                }
            }
            detect_value(&value, line)
        },
        Err(words) => {
            proof {
                assert forall|a: AlpacaView| #[trigger] doc_text(alpaca_doc(a)) != line@ by {
                    lemma_records_writable(a, Seq::empty(), Format::ChatML);
                }
                assert forall|turns: Seq<Turn>, f: Format|
                    #[trigger] doc_text(turns_doc(turns, f)) != line@ by {
                    let a = AlpacaView {
                        instruction: Seq::empty(),
                        input: Seq::empty(),
                        output: Seq::empty(),
                    };
                    lemma_records_writable(a, turns, f);
                }
            }
            Err(Error::Json(words))
        },
    }
}

/// The telling keys are pairwise different, and no others of an instruction record.
proof fn lemma_telling_keys()
    ensures
        "conversations"@ != "messages"@,
        "conversations"@ != "instruction"@,
        "messages"@ != "instruction"@,
        "conversations"@ != "input"@,
        "conversations"@ != "output"@,
        "messages"@ != "input"@,
        "messages"@ != "output"@,
{
    reveal_strlit("conversations");
    reveal_strlit("messages");
    reveal_strlit("instruction");
    reveal_strlit("input");
    reveal_strlit("output");
    assert("conversations"@.len() == 13 && "messages"@.len() == 8 && "instruction"@.len() == 11
        && "input"@.len() == 5 && "output"@.len() == 6);
}

/// The value that the line of an instruction record is read as is told as one.
proof fn lemma_alpaca_told(value: JsonView, a: AlpacaView, line: Seq<char>)
    requires
        says(value, alpaca_doc(a), 8),
    ensures
        format_of_value(value, line) == Ok::<Format, ErrorView>(Format::Alpaca),
{
    lemma_telling_keys();
    let fields = alpaca_doc(a)->Fields_0;
    let entries = value->Object_0;
    assert(fields[0].0 == "instruction"@ && fields[1].0 == "input"@ && fields[2].0 == "output"@);
    assert(entries.dom().contains("instruction"@));
    assert(!entries.dom().contains("conversations"@));
    assert(!entries.dom().contains("messages"@));
}

/// The value that the line of a conversation is read as is told as one.
proof fn lemma_turns_told(value: JsonView, turns: Seq<Turn>, f: Format, line: Seq<char>)
    requires
        f == Format::ShareGPT || f == Format::ChatML,
        says(value, turns_doc(turns, f), 8),
    ensures
        format_of_value(value, line) == Ok::<Format, ErrorView>(f),
{
    lemma_telling_keys();
    let fields = turns_doc(turns, f)->Fields_0;
    let entries = value->Object_0;
    assert(fields[0].0 == list_key(f));
    assert(entries.dom().contains(list_key(f)));
    assert(f == Format::ChatML ==> !entries.dom().contains("conversations"@));
}

/// A line is told as one of the three line formats, or not at all.
pub proof fn law_detected_formats(line: Seq<char>)
    ensures
        format_of_line(line) matches Ok(f) ==> f == Format::Alpaca || f == Format::ShareGPT || f
            == Format::ChatML,
{
}

/// The format of a line is told by the keys of its JSON object alone: that of the first of the keys
/// `conversations`, `messages` and `instruction` that it has, whatever else it holds. A line that
/// is no JSON object, or has none of them, is of no known format.
pub proof fn law_formats_are_told_by_keys(line: Seq<char>)
    ensures
        json_of_text(line) is Err ==> format_of_line(line) == Err::<Format, ErrorView>(
            ErrorView::Json(json_of_text(line)->Err_0),
        ),
        json_of_text(line) is Ok && json_of_text(line)->Ok_0 !is Object ==> format_of_line(line)
            == Err::<Format, ErrorView>(ErrorView::NotAnObject),
        json_of_text(line) is Ok && json_of_text(line)->Ok_0 is Object ==> {
            let keys = json_of_text(line)->Ok_0->Object_0.dom();
            let told = format_of_line(line);
            &&& keys.contains("conversations"@) <==> told == Ok::<Format, ErrorView>(
                Format::ShareGPT,
            )
            &&& keys.contains("messages"@) && !keys.contains("conversations"@) <==> told == Ok::<
                Format,
                ErrorView,
            >(Format::ChatML)
            &&& keys.contains("instruction"@) && !keys.contains("conversations"@)
                && !keys.contains("messages"@) <==> told == Ok::<Format, ErrorView>(Format::Alpaca)
            &&& !keys.contains("instruction"@) && !keys.contains("conversations"@)
                && !keys.contains("messages"@) <==> told == Err::<Format, ErrorView>(
                ErrorView::Undetected(line),
            )
        },
{
}

/// A result is told as it is, a format or a failure.
pub proof fn law_formats_are_told_as_they_are(format: Format, e: Error)
    ensures
        format_result(Ok(format)) == Ok::<Format, ErrorView>(format),
        format_result(Err(e)) == Err::<Format, ErrorView>(e@),
{
}

} // verus!
