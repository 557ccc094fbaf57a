//! What can go wrong, and how it is told.

use vstd::prelude::*;
use vstd::string::StringExecFns;

use crate::format::{variant_name, Format};
use crate::text::{decimal, decimal_of};

verus! {

/// A failure of one of the commands.
#[derive(Debug, Clone, PartialEq, Eq)]
pub enum Error {
    /// A text is not JSON, or not the JSON of the record that it should be; in the parser's words.
    Json(String),
    /// A line holds JSON, but no object.
    NotAnObject,
    /// An object has none of the fields by which a format is told.
    Undetected(String),
    /// No format has this name.
    UnknownFormat(String),
    /// A line does not conform to its schema.
    InvalidLine {
        line: u64,
        content: String,
    },
    /// A conversion from a format to itself.
    SameFormat(Format),
    /// A format that holds no line of text.
    NotALineFormat(Format),
    /// No tokenizer has this name.
    UnsupportedTokenizer(String),
    /// A format that has no table schema.
    NoSchema(Format),
    /// A format that table rows cannot be turned into.
    NoRows(Format),
    /// A table column is not of the expected type.
    WrongColumn(String),
    /// A text is no `hf://` URI.
    NotAHubUri,
    /// An `hf://` URI names no file.
    IncompleteHubUri,
    /// Two command line flags exclude each other.
    ExclusiveFlags,
    /// Semantic deduplication without a model.
    ModelPathRequired,
    /// A line that could not be parsed, and why.
    ParseError {
        line: u64,
        content: String,
        source: String,
    },
    /// A failure to read or write.
    IoError(String),
    /// A dataset that is not in its format.
    FormatError(String),
    /// A conversion that is not supported.
    UnsupportedConversion(String),
}

/// An error as a mathematical value.
pub enum ErrorView {
    Json(Seq<char>),
    NotAnObject,
    Undetected(Seq<char>),
    UnknownFormat(Seq<char>),
    InvalidLine { line: nat, content: Seq<char> },
    SameFormat(Format),
    NotALineFormat(Format),
    UnsupportedTokenizer(Seq<char>),
    NoSchema(Format),
    NoRows(Format),
    WrongColumn(Seq<char>),
    NotAHubUri,
    IncompleteHubUri,
    ExclusiveFlags,
    ModelPathRequired,
    ParseError { line: nat, content: Seq<char>, source: Seq<char> },
    IoError(Seq<char>),
    FormatError(Seq<char>),
    UnsupportedConversion(Seq<char>),
}

impl View for Error {
    type V = ErrorView;

    open spec fn view(&self) -> ErrorView {
        match self {
            Error::Json(s) => ErrorView::Json(s@),
            Error::NotAnObject => ErrorView::NotAnObject,
            Error::Undetected(s) => ErrorView::Undetected(s@),
            Error::UnknownFormat(s) => ErrorView::UnknownFormat(s@),
            Error::InvalidLine { line, content } => ErrorView::InvalidLine {
                line: *line as nat,
                content: content@,
            },
            Error::SameFormat(f) => ErrorView::SameFormat(*f),
            Error::NotALineFormat(f) => ErrorView::NotALineFormat(*f),
            Error::UnsupportedTokenizer(s) => ErrorView::UnsupportedTokenizer(s@),
            Error::NoSchema(f) => ErrorView::NoSchema(*f),
            Error::NoRows(f) => ErrorView::NoRows(*f),
            Error::WrongColumn(s) => ErrorView::WrongColumn(s@),
            Error::NotAHubUri => ErrorView::NotAHubUri,
            Error::IncompleteHubUri => ErrorView::IncompleteHubUri,
            Error::ExclusiveFlags => ErrorView::ExclusiveFlags,
            Error::ModelPathRequired => ErrorView::ModelPathRequired,
            Error::ParseError { line, content, source } => ErrorView::ParseError {
                line: *line as nat,
                content: content@,
                source: source@,
            },
            Error::IoError(s) => ErrorView::IoError(s@),
            Error::FormatError(s) => ErrorView::FormatError(s@),
            Error::UnsupportedConversion(s) => ErrorView::UnsupportedConversion(s@),
        }
    }
}

/// What is told of an error.
pub open spec fn message_of(e: ErrorView) -> Seq<char> {
    match e {
        ErrorView::Json(words) => words,
        ErrorView::NotAnObject => "Expected JSON object"@,
        ErrorView::Undetected(line) => "Could not auto-detect format from line: "@ + line,
        ErrorView::UnknownFormat(name) => "Invalid format: "@ + name,
        ErrorView::InvalidLine { line, content } => "Invalid line at "@ + decimal(line) + ": "@
            + content,
        ErrorView::SameFormat(f) => "Source and target formats are the same: "@ + variant_name(f),
        ErrorView::NotALineFormat(_) => "Parquet/Arrow not supported directly"@,
        ErrorView::UnsupportedTokenizer(name) => "Unsupported tokenizer: "@ + name,
        ErrorView::NoSchema(f) => "Unsupported Parquet schema for format: "@ + variant_name(f),
        ErrorView::NoRows(f) => "Unsupported Parquet format: "@ + variant_name(f),
        ErrorView::WrongColumn(words) => words,
        ErrorView::NotAHubUri => "Not a Hugging Face URI"@,
        ErrorView::IncompleteHubUri => "Invalid hf:// URI. Expected hf://repo_id/filename"@,
        ErrorView::ExclusiveFlags => "--tui and --quiet are mutually exclusive"@,
        ErrorView::ModelPathRequired => "--model-path is required for semantic deduplication"@,
        ErrorView::ParseError { line, content, source } => "Parse error at line "@ + decimal(line)
            + ": "@ + source,
        ErrorView::IoError(words) => "IO error: "@ + words,
        ErrorView::FormatError(words) => "Format error: "@ + words,
        ErrorView::UnsupportedConversion(words) => "Unsupported conversion: "@ + words,
    }
}

impl Error {
    /// The message that a user gets to see.
    pub fn message(&self) -> (r: String)
        ensures
            r@ == message_of(self@),
    {
        match self {
            Error::Json(words) => words.clone(),
            Error::NotAnObject => "Expected JSON object".to_owned(),
            Error::Undetected(line) => "Could not auto-detect format from line: ".to_owned().concat(
                line.as_str(),
            ),
            Error::UnknownFormat(name) => "Invalid format: ".to_owned().concat(name.as_str()),
            Error::InvalidLine { line, content } => "Invalid line at ".to_owned().concat(
                decimal_of(*line).as_str(),
            ).concat(": ").concat(content.as_str()),
            Error::SameFormat(f) => "Source and target formats are the same: ".to_owned().concat(
                f.variant(),
            ),
            Error::NotALineFormat(_) => "Parquet/Arrow not supported directly".to_owned(),
            Error::UnsupportedTokenizer(name) => "Unsupported tokenizer: ".to_owned().concat(
                name.as_str(),
            ),
            Error::NoSchema(f) => "Unsupported Parquet schema for format: ".to_owned().concat(
                f.variant(),
            ),
            Error::NoRows(f) => "Unsupported Parquet format: ".to_owned().concat(f.variant()),
            Error::WrongColumn(words) => words.clone(),
            Error::NotAHubUri => "Not a Hugging Face URI".to_owned(),
            Error::IncompleteHubUri =>
                "Invalid hf:// URI. Expected hf://repo_id/filename".to_owned(),
            Error::ExclusiveFlags => "--tui and --quiet are mutually exclusive".to_owned(),
            Error::ModelPathRequired =>
                "--model-path is required for semantic deduplication".to_owned(),
            Error::ParseError { line, content: _, source } => "Parse error at line ".to_owned().concat(
                decimal_of(*line).as_str(),
            ).concat(": ").concat(source.as_str()),
            Error::IoError(words) => "IO error: ".to_owned().concat(words.as_str()),
            Error::FormatError(words) => "Format error: ".to_owned().concat(words.as_str()),
            Error::UnsupportedConversion(words) => "Unsupported conversion: ".to_owned().concat(
                words.as_str(),
            ),
        }
    }
}

/// A message tells what failed: the text, name, line or words that the error holds, whole, behind
/// what happened.
pub proof fn law_messages_tell_what_failed(
    words: Seq<char>,
    line: nat,
    format: Format,
    source: Seq<char>,
)
    ensures
        message_of(ErrorView::Json(words)) == words,
        message_of(ErrorView::WrongColumn(words)) == words,
        message_of(ErrorView::Undetected(words)) == "Could not auto-detect format from line: "@
            + words,
        message_of(ErrorView::UnknownFormat(words)) == "Invalid format: "@ + words,
        message_of(ErrorView::InvalidLine { line, content: words }) == "Invalid line at "@
            + decimal(line) + ": "@ + words,
        message_of(ErrorView::UnsupportedTokenizer(words)) == "Unsupported tokenizer: "@ + words,
        message_of(ErrorView::ParseError { line, content: words, source }) == "Parse error at line "@
            + decimal(line) + ": "@ + source,
        message_of(ErrorView::IoError(words)) == "IO error: "@ + words,
        message_of(ErrorView::FormatError(words)) == "Format error: "@ + words,
        message_of(ErrorView::UnsupportedConversion(words)) == "Unsupported conversion: "@ + words,
        message_of(ErrorView::SameFormat(format)) == "Source and target formats are the same: "@
            + variant_name(format),
{
}

/// A failure is viewed with all that it holds.
pub proof fn law_failures_are_viewed_whole(words: String, source: String, line: u64, format: Format)
    ensures
        Error::Json(words)@ == ErrorView::Json(words@),
        Error::Undetected(words)@ == ErrorView::Undetected(words@),
        Error::UnknownFormat(words)@ == ErrorView::UnknownFormat(words@),
        (Error::InvalidLine { line, content: words })@ == (ErrorView::InvalidLine {
            line: line as nat,
            content: words@,
        }),
        Error::SameFormat(format)@ == ErrorView::SameFormat(format),
        Error::NotALineFormat(format)@ == ErrorView::NotALineFormat(format),
        Error::UnsupportedTokenizer(words)@ == ErrorView::UnsupportedTokenizer(words@),
        Error::NoSchema(format)@ == ErrorView::NoSchema(format),
        Error::NoRows(format)@ == ErrorView::NoRows(format),
        Error::WrongColumn(words)@ == ErrorView::WrongColumn(words@),
        (Error::ParseError { line, content: words, source })@ == (ErrorView::ParseError {
            line: line as nat,
            content: words@,
            source: source@,
        }),
{
}

} // verus!
