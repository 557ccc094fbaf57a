//! Counting tokens with the `cl100k_base` vocabulary of the `tiktoken_rs` crate.

use vstd::prelude::*;
use vstd::string::StrSliceExecFns;

use crate::error::Error;
use crate::text::same_text;

verus! {

/// `tiktoken_rs::CoreBPE`, opaque.
#[verifier::external_type_specification]
#[verifier::external_body]
pub struct ExCoreBPE(tiktoken_rs::CoreBPE);

/// Whether an encoder is the one that `tiktoken_rs::cl100k_base` makes.
pub uninterp spec fn is_cl100k(encoder: tiktoken_rs::CoreBPE) -> bool;

/// The `cl100k_base` tokens of a text, special tokens included.
pub uninterp spec fn cl100k_tokens(text: Seq<char>) -> Seq<u32>;

/// The white space characters of Unicode.
pub open spec fn is_blank(c: char) -> bool {
    let u = c as u32;
    ||| 0x9 <= u <= 0xd
    ||| u == 0x20
    ||| u == 0x85
    ||| u == 0xa0
    ||| u == 0x1680
    ||| 0x2000 <= u <= 0x200a
    ||| u == 0x2028
    ||| u == 0x2029
    ||| u == 0x202f
    ||| u == 0x205f
    ||| u == 0x3000
}

/// A letter of ASCII.
pub open spec fn is_ascii_letter(c: char) -> bool {
    'a' <= c <= 'z' || 'A' <= c <= 'Z'
}

/// A digit of ASCII.
pub open spec fn is_ascii_digit(c: char) -> bool {
    '0' <= c <= '9'
}

/// Characters beyond ASCII that are letters in Unicode's tables (Latin, Greek, Cyrillic, Thai, kana,
/// Han and Hangul; not all letters are among them).
pub open spec fn is_known_letter(c: char) -> bool {
    let u = c as u32;
    ||| 0xc0 <= u <= 0xd6
    ||| 0xd8 <= u <= 0xf6
    ||| 0xf8 <= u <= 0x2af
    ||| 0x3a3 <= u <= 0x3f5
    ||| 0x400 <= u <= 0x481
    ||| 0xe01 <= u <= 0xe30
    ||| 0x3041 <= u <= 0x3096
    ||| 0x30a1 <= u <= 0x30fa
    ||| 0x30fc <= u <= 0x30fe
    ||| 0x3400 <= u <= 0x4dbf
    ||| 0x4e00 <= u <= 0x9fff
    ||| 0xac00 <= u <= 0xd7a3
}

/// Characters beyond ASCII that are neither letters nor numbers nor white space in Unicode's tables
/// (general, CJK and full width punctuation, and pictographs; not all signs are among them).
pub open spec fn is_known_sign(c: char) -> bool {
    let u = c as u32;
    ||| 0x2010 <= u <= 0x2027
    ||| 0x2030 <= u <= 0x205e
    ||| 0x3001 <= u <= 0x3004
    ||| 0x3008 <= u <= 0x3020
    ||| u == 0x30fb
    ||| 0xff01 <= u <= 0xff0f
    ||| 0xff1a <= u <= 0xff20
    ||| 0xff3b <= u <= 0xff40
    ||| 0xff5b <= u <= 0xff65
    ||| 0x1f300 <= u <= 0x1faff
}

/// A kind of stretch that the encoder may take in one step.
#[derive(Debug, Clone, Copy, PartialEq, Eq, Structural)]
pub enum Stretch {
    /// White space.
    Blank,
    /// What may be letters: those of ASCII, and all beyond ASCII but white space and known signs.
    Word,
    /// What may be signs, and the line ends behind them: all of ASCII but letters and digits, and
    /// all beyond ASCII but known letters; of white space only line ends.
    Sign,
}

/// Whether a character may belong to a stretch.
pub open spec fn belongs(c: char, kind: Stretch) -> bool {
    match kind {
        Stretch::Blank => is_blank(c),
        Stretch::Word => !is_blank(c) && (is_ascii_letter(c) || (c as u32 >= 128
            && !is_known_sign(c))),
        Stretch::Sign => c == '\r' || c == '\n' || (!is_blank(c) && !is_ascii_letter(c)
            && !is_ascii_digit(c) && !is_known_letter(c)),
    }
}

/// The longest stretch of white space that the encoder surely has steps to try.
pub const MAX_BLANK_RUN: usize = 999_983;

/// The longest stretch of letters or signs that the encoder surely has room for.
pub const MAX_RUN: usize = 999_997;

/// The longest stretch of a kind.
pub open spec fn longest(kind: Stretch) -> nat {
    match kind {
        Stretch::Blank => MAX_BLANK_RUN as nat,
        _ => MAX_RUN as nat,
    }
}

/// Whether `text[from..to]` is a stretch.
pub open spec fn is_stretch(text: Seq<char>, kind: Stretch, from: int, to: int) -> bool {
    &&& 0 <= from <= to <= text.len()
    &&& forall|i: int| from <= i < to ==> belongs(#[trigger] text[i], kind)
}

/// Whether no stretch of a kind is too long.
pub open spec fn stretches_fit(text: Seq<char>, kind: Stretch) -> bool {
    forall|from: int, to: int| #[trigger]
        is_stretch(text, kind, from, to) ==> to - from <= longest(kind)
}

/// Whether the encoder can split a text: no stretch is too long for its regular expression engine,
/// which keeps a million places to go back to, and goes back a million times.
pub open spec fn tokenizable(text: Seq<char>) -> bool {
    stretches_fit(text, Stretch::Blank) && stretches_fit(text, Stretch::Word) && stretches_fit(
        text,
        Stretch::Sign,
    )
}

/// Calls `tiktoken_rs::cl100k_base`, which takes no argument and builds the encoder from a table
/// and patterns inside the crate. It succeeds: each line of the table is well formed, no two have
/// the same token or number, and the patterns compile.
#[verifier::external_body]
fn load_cl100k() -> (r: Result<tiktoken_rs::CoreBPE, String>)
    ensures
        r is Ok && is_cl100k(r->Ok_0),
{
    tiktoken_rs::cl100k_base().map_err(|e| e.to_string())
}

/// Calls `CoreBPE::encode_with_special_tokens`. The tokens depend on the vocabulary and the text
/// alone. It panics where a stretch of white space, letters or signs is too long for its regular
/// expression engine. A letter is what `\p{L}` matches there, a sign what is no white space, letter
/// or number; the known letters and signs are such in the tables of `regex_syntax`.
#[verifier::external_body]
fn encode(encoder: &tiktoken_rs::CoreBPE, text: &str) -> (r: Vec<u32>)
    requires
        is_cl100k(*encoder),
        tokenizable(text@),
    ensures
        r@ == cl100k_tokens(text@),
{
    encoder.encode_with_special_tokens(text)
}

/// Whether a character is white space.
fn blank(c: char) -> (r: bool)
    ensures
        r == is_blank(c),
{
    let u = c as u32;
    (0x9 <= u && u <= 0xd) || u == 0x20 || u == 0x85 || u == 0xa0 || u == 0x1680 || (0x2000 <= u
        && u <= 0x200a) || u == 0x2028 || u == 0x2029 || u == 0x202f || u == 0x205f || u == 0x3000
}

/// Whether a character is a letter beyond ASCII, as far as these are known.
fn known_letter(c: char) -> (r: bool)
    ensures
        r == is_known_letter(c),
{
    let u = c as u32;
    (0xc0 <= u && u <= 0xd6) || (0xd8 <= u && u <= 0xf6) || (0xf8 <= u && u <= 0x2af) || (0x3a3 <= u
        && u <= 0x3f5) || (0x400 <= u && u <= 0x481) || (0xe01 <= u && u <= 0xe30) || (0x3041 <= u
        && u <= 0x3096) || (0x30a1 <= u && u <= 0x30fa) || (0x30fc <= u && u <= 0x30fe) || (0x3400
        <= u && u <= 0x4dbf) || (0x4e00 <= u && u <= 0x9fff) || (0xac00 <= u && u <= 0xd7a3)
}

/// Whether a character is a sign beyond ASCII, as far as these are known.
fn known_sign(c: char) -> (r: bool)
    ensures
        r == is_known_sign(c),
{
    let u = c as u32;
    (0x2010 <= u && u <= 0x2027) || (0x2030 <= u && u <= 0x205e) || (0x3001 <= u && u <= 0x3004) || (
    0x3008 <= u && u <= 0x3020) || u == 0x30fb || (0xff01 <= u && u <= 0xff0f) || (0xff1a <= u && u
        <= 0xff20) || (0xff3b <= u && u <= 0xff40) || (0xff5b <= u && u <= 0xff65) || (0x1f300 <= u
        && u <= 0x1faff)
}

/// Whether a character may belong to a stretch.
fn may_belong(c: char, kind: Stretch) -> (r: bool)
    ensures
        r == belongs(c, kind),
{
    let letter = ('a' <= c && c <= 'z') || ('A' <= c && c <= 'Z');
    let digit = '0' <= c && c <= '9';
    match kind {
        Stretch::Blank => blank(c),
        Stretch::Word => !blank(c) && (letter || (c as u32 >= 128 && !known_sign(c))),
        Stretch::Sign => c == '\r' || c == '\n' || (!blank(c) && !letter && !digit
            && !known_letter(c)),
    }
}

/// Whether no stretch of a kind is too long.
fn kind_fits(text: &str, kind: Stretch) -> (r: bool)
    ensures
        r == stretches_fit(text@, kind),
{
    let length: usize = text.unicode_len();
    let limit: usize = match kind {
        Stretch::Blank => MAX_BLANK_RUN,
        _ => MAX_RUN,
    };
    let mut run: usize = 0;
    let mut fits = true;
    for c in it: text.chars()
        invariant
            it.seq() == text@,
            length == text@.len(),
            limit == longest(kind),
            run <= it.index() <= text@.len(),
            forall|i: int|
                it.index() - run <= i < it.index() ==> belongs(#[trigger] text@[i], kind),
            run < it.index() ==> !belongs(text@[it.index() - run - 1], kind),
            fits ==> forall|from: int, to: int|
                to <= it.index() && #[trigger] is_stretch(text@, kind, from, to) ==> to - from
                    <= longest(kind),
            !fits ==> !stretches_fit(text@, kind),
    {
        let ghost at = it.index() as int;
        let ghost before = run as int;
        if may_belong(c, kind) {
            run = run + 1;
            if run > limit {
                proof {
                    assert(is_stretch(text@, kind, at + 1 - run, at + 1));
                }
                fits = false;
            }
        } else {
            run = 0;
        }
        proof {
            if fits {
                assert forall|from: int, to: int|
                    to <= at + 1 && #[trigger] is_stretch(text@, kind, from, to) implies to - from
                    <= longest(kind) by {
                    if to == at + 1 && from < to {
                        assert(belongs(text@[at], kind));
                        if from < at - before {
                            assert(belongs(text@[at - before - 1], kind));
                        }
                    }
                }
            }
        }
    }
    fits
}

/// Whether the encoder can split a text.
pub fn can_tokenize(text: &str) -> (r: bool)
    ensures
        r == tokenizable(text@),
{
    kind_fits(text, Stretch::Blank) && kind_fits(text, Stretch::Word) && kind_fits(
        text,
        Stretch::Sign,
    )
}

/// The tokenizer of a run.
pub struct Tokenizer {
    encoder: tiktoken_rs::CoreBPE,
}

impl Tokenizer {
    #[verifier::type_invariant]
    spec fn known(self) -> bool {
        is_cl100k(self.encoder)
    }

    /// Loads the tokenizer of a name; there is one, `cl100k_base`.
    pub fn load(name: &str) -> (r: Result<Tokenizer, Error>)
        ensures
            name@ != "cl100k_base"@ ==> (r matches Err(Error::UnsupportedTokenizer(n)) && n@
                == name@),
            name@ == "cl100k_base"@ ==> r is Ok,
    {
        if !same_text(name, "cl100k_base") {
            return Err(Error::UnsupportedTokenizer(name.to_owned()));
        }
        let encoder = load_cl100k().unwrap();
        Ok(Tokenizer { encoder })
    }

    /// The number of tokens of a text.
    pub fn count(&self, text: &str) -> (r: usize)
        requires
            tokenizable(text@),
        ensures
            r == cl100k_tokens(text@).len(),
    {
        proof {
            use_type_invariant(self);
        }
        encode(&self.encoder, text).len()
    }
}

/// A text of less than a million characters, by seventeen at least, can be tokenized whatever it
/// holds.
pub proof fn law_shorter_texts_are_tokenizable(text: Seq<char>)
    requires
        text.len() <= 999_983,
    ensures
        tokenizable(text),
{
    assert forall|kind: Stretch, from: int, to: int| #[trigger]
        is_stretch(text, kind, from, to) implies to - from <= longest(kind) by {}
}

/// A text of any length can be tokenized where a digit stands in each run of 999,984 characters:
/// digits part letters, signs and white space.
pub proof fn law_parted_texts_are_tokenizable(text: Seq<char>)
    requires
        forall|from: int|
            0 <= from && from + 999_984 <= text.len() ==> exists|i: int|
                #![trigger text[i]]
                from <= i < #[trigger] (from + 999_984) && '0' <= text[i] <= '9',
    ensures
        tokenizable(text),
{
    assert forall|kind: Stretch, from: int, to: int| #[trigger]
        is_stretch(text, kind, from, to) implies to - from <= longest(kind) by {
        if to - from > 999_983 {
            let end = from + 999_984;
            let i = choose|i: int|
                #![trigger text[i]]
                from <= i < end && '0' <= text[i] <= '9';
            assert(belongs(text[i], kind));
        }
    }
}

/// A text with a run of white space that is too long cannot be tokenized, nor one with a run of
/// ASCII letters that is.
pub proof fn law_long_runs_are_not_tokenizable(text: Seq<char>, from: int, to: int)
    requires
        0 <= from <= to <= text.len(),
        (to - from > 999_983 && forall|i: int| from <= i < to ==> #[trigger] text[i] == ' ') || (to
            - from > 999_997 && forall|i: int|
            from <= i < to ==> 'a' <= #[trigger] text[i] <= 'z'),
    ensures
        !tokenizable(text),
{
    if to - from > 999_983 && forall|i: int| from <= i < to ==> #[trigger] text[i] == ' ' {
        assert(is_stretch(text, Stretch::Blank, from, to));
    } else {
        assert(is_stretch(text, Stretch::Word, from, to));
    }
}

} // verus!
