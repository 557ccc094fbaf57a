//! Numbers, sizes and durations as a user reads them.

use vstd::prelude::*;
use vstd::string::StringExecFns;

use crate::text::{decimal, decimal_chars, decimal_of, digit, string_of};

verus! {

/// The quotient of two numbers, rounded to the nearest integer, halves to the even one.
pub open spec fn rounded(n: nat, d: nat) -> nat {
    let low = n / d;
    let twice = 2 * (n % d);
    if twice > d || (twice == d && low % 2 == 1) {
        low + 1
    } else {
        low
    }
}

/// The distance of the doubles around a number, one where they are closer than that.
pub open spec fn double_step(n: nat) -> nat
    decreases n,
{
    if n < 0x20_0000_0000_0000 {
        1
    } else {
        2 * double_step(n / 2)
    }
}

/// The double that is nearest to a number.
pub open spec fn nearest_double(n: nat) -> nat {
    rounded(n, double_step(n)) * double_step(n)
}

/// A number of tenths, with a decimal point.
pub open spec fn tenths(n: nat) -> Seq<char> {
    decimal(n / 10).push('.').push(digit(n % 10))
}

/// A number of bytes in a fitting unit, with one decimal from a kilobyte on. The quotient is that
/// of floating point numbers, which from a gigabyte on may not hold the number itself.
pub open spec fn bytes_text(b: nat) -> Seq<char> {
    if b < 1024 {
        decimal(b) + " B"@
    } else if b < 1024 * 1024 {
        tenths(rounded(b * 10, 1024)) + " KB"@
    } else if b < 1024 * 1024 * 1024 {
        tenths(rounded(b * 10, 1024 * 1024)) + " MB"@
    } else {
        tenths(rounded(nearest_double(b) * 10, 1024 * 1024 * 1024)) + " GB"@
    }
}

/// Digits in groups of three, counted from the end, with commas between them.
pub open spec fn grouped(digits: Seq<char>) -> Seq<char>
    decreases digits.len(),
{
    if digits.len() <= 3 {
        digits
    } else {
        grouped(digits.take(digits.len() - 3)).push(',') + digits.skip(digits.len() - 3)
    }
}

/// A duration in its two largest units.
pub open spec fn duration_text(secs: nat) -> Seq<char> {
    if secs < 60 {
        decimal(secs) + "s"@
    } else if secs < 3600 {
        decimal(secs / 60) + "m"@ + decimal(secs % 60) + "s"@
    } else {
        decimal(secs / 3600) + "h"@ + decimal(secs % 3600 / 60) + "m"@
    }
}

/// The quotient of two numbers, rounded to the nearest integer, halves to the even one.
fn round(n: u128, d: u128) -> (r: u128)
    requires
        0 < d < 0x1_0000_0000_0000_0000,
    ensures
        r == rounded(n as nat, d as nat),
{
    let low: u128 = n / d;
    let twice: u128 = 2 * (n % d);
    proof {
        assert(low * d <= n) by (nonlinear_arith)
            requires
                low == n / d,
                d > 0,
        ;
        if twice >= d {
            assert(d >= 2 || low < 0xffff_ffff_ffff_ffff_ffff_ffff_ffff_ffff) by (nonlinear_arith)
                requires
                    twice == 2 * (n % d),
                    twice >= d,
                    d > 0,
                    low * d <= n,
            ;
            assert(low < 0xffff_ffff_ffff_ffff_ffff_ffff_ffff_ffff) by (nonlinear_arith)
                requires
                    low * d <= n,
                    n <= 0xffff_ffff_ffff_ffff_ffff_ffff_ffff_ffff,
                    d >= 2 || low < 0xffff_ffff_ffff_ffff_ffff_ffff_ffff_ffff,
            ;
        }
    }
    if twice > d || (twice == d && low % 2 == 1) {
        low + 1
    } else {
        low
    }
}

/// The distance of the doubles around a number.
fn step(n: u64) -> (r: u64)
    ensures
        r == double_step(n as nat),
        1 <= r,
        r * 0x10_0000_0000_0000 <= n || r == 1,
    decreases n,
{
    if n < 0x20_0000_0000_0000 {
        1
    } else {
        let half = step(n / 2);
        2 * half
    }
}

/// A number of tenths, with a decimal point.
fn tenths_chars(n: u64) -> (r: Vec<char>)
    ensures
        r@ == tenths(n as nat),
{
    let mut out = decimal_chars(n / 10);
    out.push('.');
    out.push((48u8 + (n % 10) as u8) as char);
    out
}

/// A number of bytes in a fitting unit.
pub fn fmt_bytes(b: u64) -> (r: String)
    ensures
        r@ == bytes_text(b as nat),
{
    if b < 1024 {
        decimal_of(b).concat(" B")
    } else if b < 1024 * 1024 {
        let n: u128 = round(b as u128 * 10, 1024);
        let chars = tenths_chars(n as u64);
        string_of(&chars).concat(" KB")
    } else if b < 1024 * 1024 * 1024 {
        let n: u128 = round(b as u128 * 10, 1024 * 1024);
        let chars = tenths_chars(n as u64);
        string_of(&chars).concat(" MB")
    } else {
        let gap: u64 = step(b);
        let near: u128 = round(b as u128, gap as u128);
        proof {
            lemma_nearest_bound(b, gap as nat);
        }
        let value: u128 = near * gap as u128;
        let n: u128 = round(value * 10, 1024 * 1024 * 1024);
        let chars = tenths_chars(n as u64);
        string_of(&chars).concat(" GB")
    }
}

/// The nearest double is not far away.
proof fn lemma_nearest_bound(b: u64, gap: nat)
    requires
        gap >= 1,
        gap * 0x10_0000_0000_0000 <= b || gap == 1,
    ensures
        rounded(b as nat, gap) * gap <= 2 * b + 1,
        rounded(b as nat, gap) * gap < 0x2_0000_0000_0000_0001,
{
    let near = rounded(b as nat, gap);
    let low = b as nat / gap;
    assert(low * gap <= b) by (nonlinear_arith)
        requires
            low == b as nat / gap,
            gap >= 1,
    ;
    assert(near <= low + 1);
    assert(near * gap <= low * gap + gap) by (nonlinear_arith)
        requires
            near <= low + 1,
            gap >= 1,
    ;
}

/// A number with its digits in groups of three.
pub fn fmt_number(n: u64) -> (r: String)
    ensures
        r@ == grouped(decimal(n as nat)),
{
    let digits = decimal_chars(n);
    let chars = group(&digits, digits.len());
    proof {
        assert(digits@.take(digits.len() as int) =~= digits@);
    }
    string_of(&chars)
}

/// The first digits in groups of three.
fn group(digits: &Vec<char>, count: usize) -> (r: Vec<char>)
    requires
        count <= digits.len(),
    ensures
        r@ == grouped(digits@.take(count as int)),
    decreases count,
{
    let ghost all = digits@.take(count as int);
    if count <= 3 {
        let mut out: Vec<char> = Vec::new();
        let mut i: usize = 0;
        while i < count
            invariant
                i <= count <= digits.len(),
                out@ == digits@.take(i as int),
            decreases count - i,
        {
            out.push(digits[i]);
            assert(out@ =~= digits@.take(i + 1));
            i += 1;
        }
        out
    } else {
        let mut out = group(digits, count - 3);
        proof {
            assert(all.take(count - 3) =~= digits@.take(count - 3));
            assert(all.skip(count - 3) =~= seq![
                digits@[count - 3],
                digits@[count - 2],
                digits@[count - 1],
            ]);
        }
        let ghost first = out@;
        out.push(',');
        out.push(digits[count - 3]);
        out.push(digits[count - 2]);
        out.push(digits[count - 1]);
        assert(out@ =~= first.push(',') + all.skip(count - 3));
        out
    }
}

/// A duration in its two largest units.
pub fn fmt_duration(secs: u64) -> (r: String)
    ensures
        r@ == duration_text(secs as nat),
{
    if secs < 60 {
        decimal_of(secs).concat("s")
    } else if secs < 3600 {
        decimal_of(secs / 60).concat("m").concat(decimal_of(secs % 60).as_str()).concat("s")
    } else {
        decimal_of(secs / 3600).concat("h").concat(decimal_of(secs % 3600 / 60).as_str()).concat(
            "m",
        )
    }
}

/// The characters of a text that are not commas.
pub open spec fn without_commas(text: Seq<char>) -> Seq<char>
    decreases text.len(),
{
    if text.len() == 0 {
        Seq::empty()
    } else if text.last() == ',' {
        without_commas(text.drop_last())
    } else {
        without_commas(text.drop_last()).push(text.last())
    }
}

/// A text without commas stays as it is, behind any other.
proof fn lemma_without_commas_join(a: Seq<char>, b: Seq<char>)
    requires
        forall|i: int| 0 <= i < b.len() ==> #[trigger] b[i] != ',',
    ensures
        without_commas(a + b) == without_commas(a) + b,
    decreases b.len(),
{
    if b.len() == 0 {
        assert(a + b =~= a);
        assert(without_commas(a) + b =~= without_commas(a));
    } else {
        let rest = b.drop_last();
        assert forall|i: int| 0 <= i < rest.len() implies #[trigger] rest[i] != ',' by {
            assert(b[i] != ',');
        }
        lemma_without_commas_join(a, rest);
        assert((a + b).drop_last() =~= a + rest);
        assert(b[b.len() - 1] != ',');
        assert(without_commas(a + b) =~= without_commas(a) + b);
    }
}

/// Grouping digits only adds commas.
pub proof fn law_grouping_adds_commas_only(digits: Seq<char>)
    requires
        forall|i: int| 0 <= i < digits.len() ==> #[trigger] digits[i] != ',',
    ensures
        without_commas(grouped(digits)) == digits,
    decreases digits.len(),
{
    if digits.len() <= 3 {
        lemma_without_commas_join(Seq::empty(), digits);
        assert(Seq::<char>::empty() + digits =~= digits);
        assert(without_commas(Seq::<char>::empty()) + digits =~= digits);
    } else {
        let head = digits.take(digits.len() - 3);
        let tail = digits.skip(digits.len() - 3);
        assert forall|i: int| 0 <= i < head.len() implies #[trigger] head[i] != ',' by {
            assert(digits[i] != ',');
        }
        assert forall|i: int| 0 <= i < tail.len() implies #[trigger] tail[i] != ',' by {
            assert(digits[i + digits.len() - 3] != ',');
        }
        law_grouping_adds_commas_only(head);
        lemma_without_commas_join(grouped(head).push(','), tail);
        assert(grouped(head).push(',').drop_last() =~= grouped(head));
        assert(head + tail =~= digits);
    }
}

/// A size is written with the number of tenths of its unit that is nearest to it, the even one
/// where two are as near; below a kilobyte as it is. Here `t` is that number of tenths.
pub proof fn law_sizes_are_rounded_to_tenths(b: nat, t: nat)
    ensures
        b < 1024 ==> bytes_text(b) == decimal(b) + " B"@,
        1024 <= b < 1048576 && nearest_tenths(b, 1024, t) ==> bytes_text(b) == decimal(t / 10)
            + seq!['.'] + decimal(t % 10) + " KB"@,
        1048576 <= b < 1073741824 && nearest_tenths(b, 1048576, t) ==> bytes_text(b) == decimal(
            t / 10,
        ) + seq!['.'] + decimal(t % 10) + " MB"@,
        1073741824 <= b < 0x20_0000_0000_0000 && nearest_tenths(b, 1073741824, t) ==> bytes_text(b)
            == decimal(t / 10) + seq!['.'] + decimal(t % 10) + " GB"@,
{
    assert(decimal(t / 10).push('.').push(digit(t % 10)) =~= decimal(t / 10) + seq!['.'] + decimal(
        t % 10,
    ));
    if nearest_tenths(b, 1024, t) {
        lemma_rounded(b * 10, 1024, t);
    }
    if nearest_tenths(b, 1048576, t) {
        lemma_rounded(b * 10, 1048576, t);
    }
    if nearest_tenths(b, 1073741824, t) {
        lemma_rounded(b * 10, 1073741824, t);
    }
    if b < 0x20_0000_0000_0000 {
        assert(double_step(b) == 1);
        assert(b / 1 == b && b % 1 == 0);
        assert(nearest_double(b) == rounded(b, 1));
        assert(rounded(b, 1) == b);
    }
}

/// Whether `t` tenths of a unit are nearest to a number, and even where as near as another.
pub open spec fn nearest_tenths(b: nat, unit: nat, t: nat) -> bool {
    let off = 10 * b - unit * t;
    &&& -unit <= 2 * off <= unit
    &&& 2 * off == unit || 2 * off == -unit ==> t % 2 == 0
}

/// The rounded quotient is the nearest number.
proof fn lemma_rounded(n: nat, d: nat, t: nat)
    requires
        d == 1024 || d == 1048576 || d == 1073741824,
        -d <= 2 * (n - d * t) <= d,
        2 * (n - d * t) == d || 2 * (n - d * t) == -d ==> t % 2 == 0,
    ensures
        rounded(n, d) == t,
{
}

/// The digits of a number stand in groups of three, counted from the end: of more than three, the
/// last three follow a comma behind the grouped others.
pub proof fn law_digits_stand_in_threes(digits: Seq<char>, last: Seq<char>)
    requires
        last.len() == 3,
    ensures
        digits.len() <= 3 ==> grouped(digits) == digits,
        digits.len() > 0 ==> grouped(digits + last) == grouped(digits) + seq![','] + last,
{
    if digits.len() > 0 {
        let all = digits + last;
        assert(all.take(all.len() - 3) =~= digits);
        assert(all.skip(all.len() - 3) =~= last);
        assert(grouped(all) =~= grouped(digits) + seq![','] + last);
    }
}

/// A duration of `h` hours, `m` minutes and `s` seconds is written by its two largest units.
pub proof fn law_durations_in_two_units(h: nat, m: nat, s: nat)
    requires
        m < 60,
        s < 60,
    ensures
        h == 0 && m == 0 ==> duration_text(s) == decimal(s) + "s"@,
        h == 0 && m > 0 ==> duration_text(60 * m + s) == decimal(m) + "m"@ + decimal(s) + "s"@,
        h > 0 ==> duration_text(3600 * h + 60 * m + s) == decimal(h) + "h"@ + decimal(m) + "m"@,
{
}

} // verus!
