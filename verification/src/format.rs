//! The dataset formats and their names.

use vstd::prelude::*;

use crate::error::Error;
use crate::text::{lower_text, same_text, to_lowercase};

verus! {

/// A dataset format.
#[derive(Debug, Clone, Copy, PartialEq, Eq, Structural)]
pub enum Format {
    Alpaca,
    ShareGPT,
    ChatML,
    Parquet,
    Arrow,
}

/// How duplicates are found.
#[derive(Debug, Clone, Copy, PartialEq, Eq, Structural)]
pub enum DedupMethod {
    Exact,
    Minhash,
    Semantic,
}

/// The name of a format as the command line takes it, in lower case.
pub open spec fn format_name(format: Format) -> Seq<char> {
    match format {
        Format::Alpaca => "alpaca"@,
        Format::ShareGPT => "sharegpt"@,
        Format::ChatML => "chatml"@,
        Format::Parquet => "parquet"@,
        Format::Arrow => "arrow"@,
    }
}

/// The name of a format as its variant spells it.
pub open spec fn variant_name(format: Format) -> Seq<char> {
    match format {
        Format::Alpaca => "Alpaca"@,
        Format::ShareGPT => "ShareGPT"@,
        Format::ChatML => "ChatML"@,
        Format::Parquet => "Parquet"@,
        Format::Arrow => "Arrow"@,
    }
}

/// The five names are pairwise different.
proof fn lemma_names_differ(a: Format, b: Format)
    ensures
        format_name(a) == format_name(b) ==> a == b,
{
    reveal_strlit("alpaca");
    reveal_strlit("sharegpt");
    reveal_strlit("chatml");
    reveal_strlit("parquet");
    reveal_strlit("arrow");
    assert("alpaca"@[0] == 'a' && "sharegpt"@[0] == 's' && "chatml"@[0] == 'c' && "parquet"@[0]
        == 'p' && "arrow"@[0] == 'a');
    assert("alpaca"@.len() != "arrow"@.len());
}

impl Format {
    /// The format of a lower-case name.
    pub fn of_lower_name(lower: &str) -> (r: Option<Format>)
        ensures
            match r {
                Some(f) => lower@ == format_name(f),
                None => forall|f: Format| lower@ != #[trigger] format_name(f),
            },
    {
        if same_text(lower, "alpaca") {
            Some(Format::Alpaca)
        } else if same_text(lower, "sharegpt") {
            Some(Format::ShareGPT)
        } else if same_text(lower, "chatml") {
            Some(Format::ChatML)
        } else if same_text(lower, "parquet") {
            Some(Format::Parquet)
        } else if same_text(lower, "arrow") {
            Some(Format::Arrow)
        } else {
            None
        }
    }

    /// The format of a name in any case.
    pub fn from_name(name: &str) -> (r: Result<Format, Error>)
        ensures
            match r {
                Ok(f) => lower_text(name@) == format_name(f),
                Err(e) => {
                    &&& forall|f: Format| lower_text(name@) != #[trigger] format_name(f)
                    &&& e matches Error::UnknownFormat(n) && n@ == name@
                },
            },
            (forall|i: int| 0 <= i < name@.len() ==> (#[trigger] name@[i] as u32) < 128) ==> {
                &&& r is Ok <==> exists|f: Format|
                    crate::text::lowered(name@) == #[trigger] format_name(f)
                &&& r matches Ok(f) ==> crate::text::lowered(name@) == format_name(f)
            },
    {
        let lower = to_lowercase(name);
        match Format::of_lower_name(lower.as_str()) {
            Some(f) => Ok(f),
            None => Err(Error::UnknownFormat(name.to_owned())),
        }
    }

    /// The name of the variant.
    pub fn variant(self) -> (r: &'static str)
        ensures
            r@ == variant_name(self),
    {
        match self {
            Format::Alpaca => "Alpaca",
            Format::ShareGPT => "ShareGPT",
            Format::ChatML => "ChatML",
            Format::Parquet => "Parquet",
            Format::Arrow => "Arrow",
        }
    }

    /// The name that `from_name` reads.
    pub fn name(self) -> (r: &'static str)
        ensures
            r@ == format_name(self),
    {
        match self {
            Format::Alpaca => "alpaca",
            Format::ShareGPT => "sharegpt",
            Format::ChatML => "chatml",
            Format::Parquet => "parquet",
            Format::Arrow => "arrow",
        }
    }
}

impl std::str::FromStr for Format {
    type Err = Error;

    fn from_str(s: &str) -> (r: Result<Self, Self::Err>)
        ensures
            match r {
                Ok(f) => lower_text(s@) == format_name(f),
                Err(e) => {
                    &&& forall|f: Format| lower_text(s@) != #[trigger] format_name(f)
                    &&& e matches Error::UnknownFormat(n) && n@ == s@
                },
            },
            (forall|i: int| 0 <= i < s@.len() ==> (#[trigger] s@[i] as u32) < 128) ==> {
                &&& r is Ok <==> exists|f: Format|
                    crate::text::lowered(s@) == #[trigger] format_name(f)
                &&& r matches Ok(f) ==> crate::text::lowered(s@) == format_name(f)
            },
    {
        Format::from_name(s)
    }
}

/// No two formats share a name, so that a name that is read is read as one format only.
pub proof fn law_names_identify_formats(a: Format, b: Format)
    requires
        format_name(a) == format_name(b),
    ensures
        a == b,
{
    lemma_names_differ(a, b);
}

/// The names by which formats are read, in lower case, and those of their variants.
pub proof fn law_names_of_formats()
    ensures
        format_name(Format::Alpaca) == "alpaca"@ && variant_name(Format::Alpaca) == "Alpaca"@,
        format_name(Format::ShareGPT) == "sharegpt"@ && variant_name(Format::ShareGPT)
            == "ShareGPT"@,
        format_name(Format::ChatML) == "chatml"@ && variant_name(Format::ChatML) == "ChatML"@,
        format_name(Format::Parquet) == "parquet"@ && variant_name(Format::Parquet) == "Parquet"@,
        format_name(Format::Arrow) == "arrow"@ && variant_name(Format::Arrow) == "Arrow"@,
{
}

} // verus!
