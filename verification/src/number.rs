//! Writing and reading numbers in decimal.
use crate::scan::{lemma_run, lemma_run_from, run, run_at, Class};
use crate::syntax::{digit, is_digit, is_sign, sign};
use vstd::prelude::*;
use vstd::slice::slice_subrange;

verus! {

/// Appends a character, as [`String::push`] does: the text is what it was, then `ch`.
pub assume_specification[ std::string::String::push ](s: &mut std::string::String, ch: char)
    ensures
        final(s)@ == old(s)@.push(ch),
;

/// The digit for a number below ten.
pub open spec fn digit_for(n: nat) -> char {
    ('0' as nat + n) as char
}

/// A number in decimal.
pub open spec fn decimal(n: nat) -> Seq<char>
    decreases n,
{
    if n < 10 {
        seq![digit_for(n)]
    } else {
        decimal(n / 10).push(digit_for(n % 10))
    }
}

/// A number in decimal, with a minus sign if it is negative.
pub open spec fn signed_decimal(n: int) -> Seq<char> {
    if n < 0 {
        seq!['-'] + decimal((-n) as nat)
    } else {
        decimal(n as nat)
    }
}

/// The value of a digit; an underscore between digits is not one.
pub open spec fn figure_value(c: char) -> nat {
    (c as nat - '0' as nat) as nat
}

/// The number that digits denote; underscores between them do not count.
pub open spec fn figures_value(text: Seq<char>) -> nat
    decreases text.len(),
{
    if text.len() == 0 {
        0
    } else if text.last() == '_' {
        figures_value(text.drop_last())
    } else {
        figures_value(text.drop_last()) * 10 + figure_value(text.last())
    }
}

/// Digits, with underscores after the first.
pub open spec fn are_figures(text: Seq<char>) -> bool {
    &&& text.len() > 0
    &&& is_digit(text[0])
    &&& forall|i: int| 0 <= i < text.len() ==> Class::Figure.has(#[trigger] text[i])
}

/// The text without its sign.
pub open spec fn unsigned(text: Seq<char>) -> Seq<char> {
    if text.len() > 0 && is_sign(text[0]) {
        text.skip(1)
    } else {
        text
    }
}

/// A whole number: digits after an optional sign.
pub open spec fn is_integer(text: Seq<char>) -> bool {
    are_figures(unsigned(text))
}

/// The number that the text of a whole number denotes.
pub open spec fn integer_value(text: Seq<char>) -> int {
    if text.len() > 0 && text[0] == '-' {
        -figures_value(unsigned(text))
    } else {
        figures_value(unsigned(text)) as int
    }
}

/// The exponent of a floating-point number: `e` or `E`, an optional sign, digits.
pub open spec fn is_exponent(text: Seq<char>) -> bool {
    text.len() > 0 && (text[0] == 'e' || text[0] == 'E') && are_figures(unsigned(text.skip(1)))
}

/// A floating-point number in decimal: an optional sign, digits, and then a point and digits, an
/// exponent, or both.
pub open spec fn is_decimal_float(text: Seq<char>) -> bool {
    let number = unsigned(text);
    let whole = run(number, Class::Figure) as int;
    let rest = number.skip(whole);
    if !are_figures(number.take(whole)) || rest.len() == 0 {
        false
    } else if rest[0] == '.' {
        let fraction = rest.skip(1);
        let places = run(fraction, Class::Figure) as int;
        are_figures(fraction.take(places)) && (fraction.len() == places || is_exponent(
            fraction.skip(places),
        ))
    } else {
        is_exponent(rest)
    }
}

/// The decimal of a number is digits only, and denotes that number.
pub proof fn lemma_decimal(n: nat)
    ensures
        decimal(n).len() > 0,
        forall|i: int| 0 <= i < decimal(n).len() ==> is_digit(#[trigger] decimal(n)[i]),
        figures_value(decimal(n)) == n,
    decreases n,
{
    reveal_with_fuel(figures_value, 2);
    if n >= 10 {
        lemma_decimal(n / 10);
        assert(decimal(n).drop_last() =~= decimal(n / 10));
    } else {
        assert(decimal(n).drop_last() =~= Seq::empty());
    }
}

/// The decimal of a number is a whole number, and denotes that number.
pub proof fn lemma_signed_decimal(n: int)
    ensures
        is_integer(signed_decimal(n)),
        integer_value(signed_decimal(n)) == n,
        signed_decimal(n).len() > 0,
        n < 0 ==> signed_decimal(n)[0] == '-' && signed_decimal(n).len() > 1 && is_digit(
            signed_decimal(n)[1],
        ),
        n >= 0 ==> is_digit(signed_decimal(n)[0]),
{
    let magnitude = (if n < 0 {
        -n
    } else {
        n
    }) as nat;
    lemma_decimal(magnitude);
    assert(unsigned(signed_decimal(n)) =~= decimal(magnitude));
}

/// Appends a number in decimal.
pub(crate) fn push_decimal(out: &mut String, n: u128)
    ensures
        final(out)@ == old(out)@ + decimal(n as nat),
    decreases n,
{
    if n >= 10 {
        push_decimal(out, n / 10);
    }
    let last: u8 = (n % 10) as u8;
    let c: char = ('0' as u8 + last) as char;
    assert(c == digit_for((n % 10) as nat));
    out.push(c);
    assert(out@ =~= old(out)@ + decimal(n as nat));
}

/// Appends a number in decimal, with a minus sign if it is negative.
pub(crate) fn push_signed_decimal(out: &mut String, n: i128)
    ensures
        final(out)@ == old(out)@ + signed_decimal(n as int),
{
    if n < 0 {
        let magnitude: u128 = (-(n + 1)) as u128 + 1;
        out.push('-');
        push_decimal(out, magnitude);
        assert(out@ =~= old(out)@ + signed_decimal(n as int));
    } else {
        push_decimal(out, n as u128);
    }
}

/// Whether `text` is digits, with underscores after the first.
fn figures(text: &[char]) -> (yes: bool)
    ensures
        yes == are_figures(text@),
{
    if text.len() == 0 || !digit(text[0]) {
        return false;
    }
    let n: usize = run_at(text, 0, Class::Figure);
    proof {
        assert(text@.skip(0) =~= text@);
        lemma_run(text@, Class::Figure);
        if are_figures(text@) {
            lemma_run_from(text@, text@.len() as int, Class::Figure);
        }
    }
    n == text.len()
}

/// The text without its sign.
fn strip_sign<'a>(text: &'a [char]) -> (rest: &'a [char])
    ensures
        rest@ == unsigned(text@),
{
    if text.len() > 0 && sign(text[0]) {
        slice_subrange(text, 1, text.len())
    } else {
        text
    }
}

/// Whether `text` is a whole number.
pub(crate) fn integer(text: &[char]) -> (yes: bool)
    ensures
        yes == is_integer(text@),
{
    figures(strip_sign(text))
}

/// A longer row of digits denotes no smaller a number.
proof fn lemma_figures_value_grows(text: Seq<char>, n: int)
    requires
        0 <= n <= text.len(),
    ensures
        figures_value(text.take(n)) <= figures_value(text),
    decreases text.len(),
{
    if n < text.len() {
        lemma_figures_value_grows(text.drop_last(), n);
        assert(text.drop_last().take(n) =~= text.take(n));
    } else {
        assert(text.take(n) =~= text);
    }
}

/// Reads a whole number; `None` if it is out of range.
pub(crate) fn read_integer(text: &[char]) -> (result: Option<i128>)
    requires
        is_integer(text@),
    ensures
        match result {
            Some(n) => n == integer_value(text@),
            None => integer_value(text@) < i128::MIN || integer_value(text@) > i128::MAX,
        },
{
    let digits: &[char] = strip_sign(text);
    let negative: bool = text.len() > 0 && text[0] == '-';
    let mut value: u128 = 0;
    let mut i: usize = 0;
    while i < digits.len()
        invariant
            i <= digits@.len(),
            digits@ == unsigned(text@),
            are_figures(digits@),
            value == figures_value(digits@.take(i as int)),
            value <= 0x8000_0000_0000_0000_0000_0000_0000_0000u128,
            negative == (text@.len() > 0 && text@[0] == '-'),
        decreases digits@.len() - i,
    {
        let c: char = digits[i];
        proof {
            assert(Class::Figure.has(digits@[i as int]));
            assert(digits@.take(i + 1).drop_last() =~= digits@.take(i as int));
            lemma_figures_value_grows(digits@, i + 1);
        }
        if c != '_' {
            let d: u128 = (c as u32 - '0' as u32) as u128;
            if value > 0x0ccc_cccc_cccc_cccc_cccc_cccc_cccc_ccccu128 || value * 10 + d
                > 0x8000_0000_0000_0000_0000_0000_0000_0000u128 {
                return None;
            }
            value = value * 10 + d;
        }
        i = i + 1;
    }
    assert(digits@.take(i as int) =~= digits@);
    if negative {
        if value == 0x8000_0000_0000_0000_0000_0000_0000_0000u128 {
            Some(i128::MIN)
        } else {
            Some(-(value as i128))
        }
    } else if value == 0x8000_0000_0000_0000_0000_0000_0000_0000u128 {
        None
    } else {
        Some(value as i128)
    }
}

/// Whether `text` is the exponent of a floating-point number.
fn exponent(text: &[char]) -> (yes: bool)
    ensures
        yes == is_exponent(text@),
{
    text.len() > 0 && (text[0] == 'e' || text[0] == 'E') && figures(
        strip_sign(slice_subrange(text, 1, text.len())),
    )
}

/// Whether `text` is a floating-point number in decimal.
pub(crate) fn decimal_float(text: &[char]) -> (yes: bool)
    ensures
        yes == is_decimal_float(text@),
{
    let number: &[char] = strip_sign(text);
    assert(number@.skip(0) =~= number@);
    let whole: usize = run_at(number, 0, Class::Figure);
    let rest: &[char] = slice_subrange(number, whole, number.len());
    assert(rest@ =~= number@.skip(whole as int));
    if !figures(slice_subrange(number, 0, whole)) || rest.len() == 0 {
        return false;
    }
    if rest[0] == '.' {
        let fraction: &[char] = slice_subrange(rest, 1, rest.len());
        assert(fraction@ =~= rest@.skip(1));
        assert(fraction@.skip(0) =~= fraction@);
        let places: usize = run_at(fraction, 0, Class::Figure);
        figures(slice_subrange(fraction, 0, places)) && (fraction.len() == places || exponent(
            slice_subrange(fraction, places, fraction.len()),
        ))
    } else {
        exponent(rest)
    }
}

} // verus!
