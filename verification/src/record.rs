//! The records of the three line formats.

use vstd::prelude::*;
use vstd::string::StringExecFns;

use crate::error::{Error, ErrorView};
use crate::format::Format;
use crate::text::{join_lines, joined, same_text};

verus! {

/// An instruction record.
#[derive(Debug, Clone, PartialEq, Eq)]
pub struct Alpaca {
    pub instruction: String,
    pub input: String,
    pub output: String,
}

/// One turn of a ShareGPT conversation.
#[derive(Debug, Clone, PartialEq, Eq)]
pub struct ShareGPTConversation {
    pub from: String,
    pub value: String,
}

/// A conversation record.
#[derive(Debug, Clone, PartialEq, Eq)]
pub struct ShareGPT {
    pub conversations: Vec<ShareGPTConversation>,
}

/// One message of a ChatML record.
#[derive(Debug, Clone, PartialEq, Eq)]
pub struct ChatMLMessage {
    pub role: String,
    pub content: String,
}

/// A chat record.
#[derive(Debug, Clone, PartialEq, Eq)]
pub struct ChatML {
    pub messages: Vec<ChatMLMessage>,
}

/// An instruction record as a mathematical value.
pub struct AlpacaView {
    pub instruction: Seq<char>,
    pub input: Seq<char>,
    pub output: Seq<char>,
}

/// A turn of a conversation as a mathematical value: who speaks, and what is said.
pub struct Turn {
    pub speaker: Seq<char>,
    pub words: Seq<char>,
}

impl View for Alpaca {
    type V = AlpacaView;

    open spec fn view(&self) -> AlpacaView {
        AlpacaView { instruction: self.instruction@, input: self.input@, output: self.output@ }
    }
}

impl View for ShareGPTConversation {
    type V = Turn;

    open spec fn view(&self) -> Turn {
        Turn { speaker: self.from@, words: self.value@ }
    }
}

impl View for ShareGPT {
    type V = Seq<Turn>;

    open spec fn view(&self) -> Seq<Turn> {
        self.conversations@.map_values(|c: ShareGPTConversation| c@)
    }
}

impl View for ChatMLMessage {
    type V = Turn;

    open spec fn view(&self) -> Turn {
        Turn { speaker: self.role@, words: self.content@ }
    }
}

impl View for ChatML {
    type V = Seq<Turn>;

    open spec fn view(&self) -> Seq<Turn> {
        self.messages@.map_values(|m: ChatMLMessage| m@)
    }
}

/// The canonical text of an instruction record: its three fields, each on its own line.
pub open spec fn alpaca_text(a: AlpacaView) -> Seq<char> {
    a.instruction + seq!['\n'] + a.input + seq!['\n'] + a.output
}

/// The canonical text of a conversation: what is said, turn by turn, joined with line feeds.
pub open spec fn turns_text(turns: Seq<Turn>) -> Seq<char> {
    joined(turns.map_values(|t: Turn| t.words), '\n')
}

/// The speakers that a ShareGPT record may have.
pub open spec fn sharegpt_speaker(speaker: Seq<char>) -> bool {
    speaker == "human"@ || speaker == "gpt"@ || speaker == "system"@
}

/// The roles that a ChatML record may have.
pub open spec fn chatml_speaker(speaker: Seq<char>) -> bool {
    speaker == "user"@ || speaker == "assistant"@ || speaker == "system"@
}

/// Whether all turns have a ShareGPT speaker.
pub open spec fn sharegpt_valid(turns: Seq<Turn>) -> bool {
    forall|i: int| 0 <= i < turns.len() ==> sharegpt_speaker((#[trigger] turns[i]).speaker)
}

/// Whether all turns have a ChatML role.
pub open spec fn chatml_valid(turns: Seq<Turn>) -> bool {
    forall|i: int| 0 <= i < turns.len() ==> chatml_speaker((#[trigger] turns[i]).speaker)
}

impl Alpaca {
    /// The record's text: instruction, input and output, each on its own line.
    pub fn canonical_text(&self) -> (r: String)
        ensures
            r@ == alpaca_text(self@),
    {
        proof {
            reveal_strlit("\n");
            assert("\n"@ =~= seq!['\n']);
        }
        self.instruction.clone().concat("\n").concat(self.input.as_str()).concat("\n").concat(
            self.output.as_str(),
        )
    }
}

impl ShareGPT {
    /// The record's text: the values of all turns, joined with line feeds.
    pub fn canonical_text(&self) -> (r: String)
        ensures
            r@ == turns_text(self@),
    {
        let mut parts: Vec<&str> = Vec::new();
        let mut i: usize = 0;
        while i < self.conversations.len()
            invariant
                i <= self.conversations.len(),
                parts.len() == i,
                forall|j: int| 0 <= j < i ==> (#[trigger] parts@[j])@ == self@[j].words,
            decreases self.conversations.len() - i,
        {
            parts.push(self.conversations[i].value.as_str());
            i += 1;
        }
        assert(parts@.map_values(|p: &str| p@) =~= self@.map_values(|t: Turn| t.words));
        join_lines(&parts)
    }

    /// Checks the speakers; the message of a failure names the first that is not allowed.
    pub fn validate(&self) -> (r: Result<(), String>)
        ensures
            r is Ok <==> sharegpt_valid(self@),
            r matches Err(message) ==> exists|i: int|
                0 <= i < self@.len() && !sharegpt_speaker((#[trigger] self@[i]).speaker)
                    && sharegpt_valid(self@.take(i)) && message@
                    == "Invalid ShareGPT `from` value: "@ + self@[i].speaker,
    {
        let mut i: usize = 0;
        while i < self.conversations.len()
            invariant
                i <= self.conversations.len(),
                forall|j: int|
                    0 <= j < i ==> sharegpt_speaker((#[trigger] self@[j]).speaker),
            decreases self.conversations.len() - i,
        {
            let from = &self.conversations[i].from;
            assert(self@[i as int].speaker == from@);
            if !(same_text(from.as_str(), "human") || same_text(from.as_str(), "gpt") || same_text(
                from.as_str(),
                "system",
            )) {
                assert(!sharegpt_speaker(self@[i as int].speaker));
                return Err("Invalid ShareGPT `from` value: ".to_owned().concat(from.as_str()));
            }
            i += 1;
        }
        Ok(())
    }
}

impl ChatML {
    /// The record's text: the contents of all messages, joined with line feeds.
    pub fn canonical_text(&self) -> (r: String)
        ensures
            r@ == turns_text(self@),
    {
        let mut parts: Vec<&str> = Vec::new();
        let mut i: usize = 0;
        while i < self.messages.len()
            invariant
                i <= self.messages.len(),
                parts.len() == i,
                forall|j: int| 0 <= j < i ==> (#[trigger] parts@[j])@ == self@[j].words,
            decreases self.messages.len() - i,
        {
            parts.push(self.messages[i].content.as_str());
            i += 1;
        }
        assert(parts@.map_values(|p: &str| p@) =~= self@.map_values(|t: Turn| t.words));
        join_lines(&parts)
    }

    /// Checks the roles; the message of a failure names the first that is not allowed.
    pub fn validate(&self) -> (r: Result<(), String>)
        ensures
            r is Ok <==> chatml_valid(self@),
            r matches Err(message) ==> exists|i: int|
                0 <= i < self@.len() && !chatml_speaker((#[trigger] self@[i]).speaker)
                    && chatml_valid(self@.take(i)) && message@
                    == "Invalid ChatML `role` value: "@ + self@[i].speaker,
    {
        let mut i: usize = 0;
        while i < self.messages.len()
            invariant
                i <= self.messages.len(),
                forall|j: int|
                    0 <= j < i ==> chatml_speaker((#[trigger] self@[j]).speaker),
            decreases self.messages.len() - i,
        {
            let role = &self.messages[i].role;
            assert(self@[i as int].speaker == role@);
            if !(same_text(role.as_str(), "user") || same_text(role.as_str(), "assistant")
                || same_text(role.as_str(), "system")) {
                assert(!chatml_speaker(self@[i as int].speaker));
                return Err("Invalid ChatML `role` value: ".to_owned().concat(role.as_str()));
            }
            i += 1;
        }
        Ok(())
    }
}

/// What reading a line as each kind of record gave: the record, or the parser's complaint.
/// Only the outcome for the line's own format is ever looked at.
#[derive(Debug)]
pub struct Reading {
    pub alpaca: Result<Alpaca, String>,
    pub sharegpt: Result<ShareGPT, String>,
    pub chatml: Result<ChatML, String>,
}

/// A line of a dataset, with what reading it gave.
#[derive(Debug)]
pub struct Line {
    pub text: String,
    pub reading: Reading,
}

/// The outcomes of reading a line, as a mathematical value.
pub struct ReadingView {
    pub alpaca: Result<AlpacaView, Seq<char>>,
    pub sharegpt: Result<Seq<Turn>, Seq<char>>,
    pub chatml: Result<Seq<Turn>, Seq<char>>,
}

/// A line as a mathematical value.
pub struct LineView {
    pub text: Seq<char>,
    pub reading: ReadingView,
}

impl View for Reading {
    type V = ReadingView;

    open spec fn view(&self) -> ReadingView {
        ReadingView {
            alpaca: match self.alpaca {
                Ok(a) => Ok(a@),
                Err(e) => Err(e@),
            },
            sharegpt: match self.sharegpt {
                Ok(s) => Ok(s@),
                Err(e) => Err(e@),
            },
            chatml: match self.chatml {
                Ok(c) => Ok(c@),
                Err(e) => Err(e@),
            },
        }
    }
}

impl View for Line {
    type V = LineView;

    open spec fn view(&self) -> LineView {
        LineView { text: self.text@, reading: self.reading@ }
    }
}

/// The canonical text of a line that is read as `format`.
pub open spec fn reading_text(reading: ReadingView, format: Format) -> Result<
    Seq<char>,
    ErrorView,
> {
    match format {
        Format::Alpaca => match reading.alpaca {
            Ok(a) => Ok(alpaca_text(a)),
            Err(words) => Err(ErrorView::Json(words)),
        },
        Format::ShareGPT => match reading.sharegpt {
            Ok(turns) => Ok(turns_text(turns)),
            Err(words) => Err(ErrorView::Json(words)),
        },
        Format::ChatML => match reading.chatml {
            Ok(turns) => Ok(turns_text(turns)),
            Err(words) => Err(ErrorView::Json(words)),
        },
        Format::Parquet | Format::Arrow => Err(ErrorView::NotALineFormat(format)),
    }
}

/// Whether a line that is read as `format` conforms to the format's schema.
pub open spec fn reading_conforms(reading: ReadingView, format: Format) -> bool {
    match format {
        Format::Alpaca => reading.alpaca is Ok,
        Format::ShareGPT => reading.sharegpt matches Ok(turns) && sharegpt_valid(turns),
        Format::ChatML => reading.chatml matches Ok(turns) && chatml_valid(turns),
        Format::Parquet | Format::Arrow => false,
    }
}

/// A text or an error, as a mathematical value.
pub open spec fn text_result(r: Result<String, Error>) -> Result<Seq<char>, ErrorView> {
    match r {
        Ok(s) => Ok(s@),
        Err(e) => Err(e@),
    }
}

impl Reading {
    /// The canonical text of the line, read as `format`.
    pub fn canonical_text(&self, format: Format) -> (r: Result<String, Error>)
        ensures
            text_result(r) == reading_text(self@, format),
    {
        match format {
            Format::Alpaca => match &self.alpaca {
                Ok(a) => Ok(a.canonical_text()),
                Err(words) => Err(Error::Json(words.clone())),
            },
            Format::ShareGPT => match &self.sharegpt {
                Ok(s) => Ok(s.canonical_text()),
                Err(words) => Err(Error::Json(words.clone())),
            },
            Format::ChatML => match &self.chatml {
                Ok(c) => Ok(c.canonical_text()),
                Err(words) => Err(Error::Json(words.clone())),
            },
            Format::Parquet | Format::Arrow => Err(Error::NotALineFormat(format)),
        }
    }

    /// Whether the line, read as `format`, conforms to the format's schema.
    pub fn conforms(&self, format: Format) -> (r: bool)
        ensures
            r == reading_conforms(self@, format),
    {
        match format {
            Format::Alpaca => self.alpaca.is_ok(),
            Format::ShareGPT => match &self.sharegpt {
                Ok(s) => s.validate().is_ok(),
                Err(_) => false,
            },
            Format::ChatML => match &self.chatml {
                Ok(c) => c.validate().is_ok(),
                Err(_) => false,
            },
            Format::Parquet | Format::Arrow => false,
        }
    }
}

/// The canonical text of an instruction record has instruction, input and output one behind the
/// other, whole, with one line feed between two of them and nothing else, whether or not a part is
/// empty.
pub proof fn law_canonical_text_of_alpaca(a: AlpacaView)
    ensures
        ({
            let text = alpaca_text(a);
            let first = a.instruction.len() as int;
            let second = first + 1 + a.input.len();
            &&& text.len() == second + 1 + a.output.len()
            &&& text.take(first) == a.instruction
            &&& text[first] == '\n'
            &&& text.subrange(first + 1, second) == a.input
            &&& text[second] == '\n'
            &&& text.skip(second + 1) == a.output
        }),
{
    let text = alpaca_text(a);
    let first = a.instruction.len() as int;
    let second = first + 1 + a.input.len();
    assert(text.take(first) =~= a.instruction);
    assert(text.subrange(first + 1, second) =~= a.input);
    assert(text.skip(second + 1) =~= a.output);
}

/// The canonical text of a conversation grows by each turn: the words of the first, and then with
/// every further turn a line feed and its words, whoever speaks.
pub proof fn law_canonical_text_of_turns(turns: Seq<Turn>, turn: Turn)
    ensures
        turns_text(Seq::empty()) == Seq::<char>::empty(),
        turns_text(seq![turn]) == turn.words,
        turns.len() > 0 ==> turns_text(turns.push(turn)) == turns_text(turns) + seq!['\n']
            + turn.words,
{
    let words = turns.map_values(|t: Turn| t.words);
    let more = turns.push(turn).map_values(|t: Turn| t.words);
    assert(more =~= words.push(turn.words));
    assert(more.drop_last() =~= words);
    assert(seq![turn].map_values(|t: Turn| t.words) =~= seq![turn.words]);
    if turns.len() > 0 {
        assert(turns_text(turns.push(turn)) =~= turns_text(turns) + seq!['\n'] + turn.words);
    }
}

/// The canonical text of a line is that of the record it is read as in the given format, and of no
/// other; what cannot be read is told in the words of the reading.
pub proof fn law_canonical_text_of_lines(reading: ReadingView)
    ensures
        reading_text(reading, Format::Alpaca) == match reading.alpaca {
            Ok(a) => Ok::<Seq<char>, ErrorView>(alpaca_text(a)),
            Err(words) => Err(ErrorView::Json(words)),
        },
        reading_text(reading, Format::ShareGPT) == match reading.sharegpt {
            Ok(turns) => Ok::<Seq<char>, ErrorView>(turns_text(turns)),
            Err(words) => Err(ErrorView::Json(words)),
        },
        reading_text(reading, Format::ChatML) == match reading.chatml {
            Ok(turns) => Ok::<Seq<char>, ErrorView>(turns_text(turns)),
            Err(words) => Err(ErrorView::Json(words)),
        },
        reading_text(reading, Format::Parquet) is Err,
        reading_text(reading, Format::Arrow) is Err,
{
}

/// A line conforms to the Alpaca schema where it is read as such a record, and to a chat schema
/// where it is read as a conversation and each of its turns, the last as the first, has one of the
/// schema's three speakers.
pub proof fn law_conforming_lines(reading: ReadingView)
    ensures
        reading_conforms(reading, Format::Alpaca) <==> reading.alpaca is Ok,
        reading_conforms(reading, Format::ShareGPT) <==> reading.sharegpt is Ok && forall|i: int|
            0 <= i < reading.sharegpt->Ok_0.len() ==> {
                let speaker = (#[trigger] reading.sharegpt->Ok_0[i]).speaker;
                speaker == "human"@ || speaker == "gpt"@ || speaker == "system"@
            },
        reading_conforms(reading, Format::ChatML) <==> reading.chatml is Ok && forall|i: int|
            0 <= i < reading.chatml->Ok_0.len() ==> {
                let speaker = (#[trigger] reading.chatml->Ok_0[i]).speaker;
                speaker == "user"@ || speaker == "assistant"@ || speaker == "system"@
            },
        !reading_conforms(reading, Format::Parquet),
        !reading_conforms(reading, Format::Arrow),
{
}

/// A record is viewed as it is: each field by its text, each turn in its place.
pub proof fn law_views_hold_all(a: Alpaca, s: ShareGPT, c: ChatML, line: Line)
    ensures
        a@.instruction == a.instruction@ && a@.input == a.input@ && a@.output == a.output@,
        s@.len() == s.conversations@.len(),
        forall|i: int|
            0 <= i < s@.len() ==> (#[trigger] s@[i]).speaker == s.conversations@[i].from@
                && s@[i].words == s.conversations@[i].value@,
        c@.len() == c.messages@.len(),
        forall|i: int|
            0 <= i < c@.len() ==> (#[trigger] c@[i]).speaker == c.messages@[i].role@ && c@[i].words
                == c.messages@[i].content@,
        line@.text == line.text@,
        line.reading.alpaca matches Ok(a) ==> line@.reading.alpaca == Ok::<AlpacaView, Seq<char>>(
            a@,
        ),
        line.reading.sharegpt matches Ok(s) ==> line@.reading.sharegpt == Ok::<
            Seq<Turn>,
            Seq<char>,
        >(s@),
        line.reading.chatml matches Ok(c) ==> line@.reading.chatml == Ok::<Seq<Turn>, Seq<char>>(
            c@,
        ),
        line.reading.alpaca is Err <==> line@.reading.alpaca is Err,
        line.reading.sharegpt is Err <==> line@.reading.sharegpt is Err,
        line.reading.chatml is Err <==> line@.reading.chatml is Err,
{
}

/// A text is told as it is, and so is a failure.
pub proof fn law_texts_are_told_as_they_are(text: String, e: Error)
    ensures
        text_result(Ok(text)) == Ok::<Seq<char>, ErrorView>(text@),
        text_result(Err(e)) == Err::<Seq<char>, ErrorView>(e@),
{
}

} // verus!
