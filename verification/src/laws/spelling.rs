//! How names and values are written, character by character.
use crate::laws::rendering::{all_writable, is_writable, law_values_round_trip};
use crate::number::{decimal, digit_for, lemma_decimal};
use crate::syntax::{is_bare_name, is_name_char};
use crate::tree::{KdlIdentifier, KdlValue, ValueView};
use crate::value::{escaped, rendered_name, rendered_string, rendered_value, value_of};
use vstd::arithmetic::power::{lemma_pow0, lemma_pow1, lemma_pow_adds, pow};
use vstd::prelude::*;

verus! {

/// A character that cannot stand in a word without quotes: it separates words, ends a line, has a
/// meaning of its own, or may not stand in a document at all.
pub open spec fn breaks_a_word(c: char) -> bool {
    ||| c <= ' '
    ||| c == '\\' || c == '/' || c == '(' || c == ')' || c == '{' || c == '}' || c == ';'
    ||| c == '[' || c == ']' || c == '"' || c == '#' || c == '='
    ||| c == '\u{7f}' || c == '\u{85}' || c == '\u{a0}' || c == '\u{1680}'
    ||| '\u{2000}' <= c <= '\u{200a}' || '\u{200e}' <= c <= '\u{200f}'
    ||| '\u{2028}' <= c <= '\u{202f}' || c == '\u{205f}'
    ||| '\u{2066}' <= c <= '\u{2069}' || c == '\u{3000}' || c == '\u{feff}'
}

/// The text starts with a digit, or with a digit after a sign, a point, or both.
pub open spec fn begins_a_number(text: Seq<char>) -> bool {
    ||| text.len() > 0 && '0' <= text[0] <= '9'
    ||| text.len() > 1 && (text[0] == '+' || text[0] == '-' || text[0] == '.') && '0' <= text[1]
        <= '9'
    ||| text.len() > 2 && (text[0] == '+' || text[0] == '-') && text[1] == '.' && '0' <= text[2]
        <= '9'
}

/// A text is written without quotes exactly if it is one word of KDL: it is not empty, none of its
/// characters breaks a word, it does not begin as a number does, and it is none of the words that
/// stand for values. Then it is written as it is, and otherwise between quotes.
pub proof fn law_texts_are_quoted_unless_they_are_words(text: Seq<char>)
    ensures
        rendered_string(text) == text <==> {
            &&& text.len() > 0
            &&& forall|i: int| 0 <= i < text.len() ==> !breaks_a_word(#[trigger] text[i])
            &&& !begins_a_number(text)
            &&& text != "true"@ && text != "false"@ && text != "null"@
            &&& text != "inf"@ && text != "-inf"@ && text != "nan"@
        },
        rendered_string(text) == text || rendered_string(text) == seq!['"'] + escaped(text)
            + seq!['"'],
{
    assert forall|i: int| 0 <= i < text.len() implies #[trigger] is_name_char(text[i])
        == !breaks_a_word(text[i]) by {}
    if is_bare_name(text) {
        assert forall|i: int| 0 <= i < text.len() implies !breaks_a_word(#[trigger] text[i]) by {
            assert(is_name_char(text[i]));
        }
    } else {
        let written = seq!['"'] + escaped(text) + seq!['"'];
        if written == text {
            lemma_escaped_is_no_shorter(text);
        }
        if text.len() > 0 && forall|i: int|
            0 <= i < text.len() ==> !breaks_a_word(#[trigger] text[i]) {
            assert forall|i: int| 0 <= i < text.len() implies is_name_char(#[trigger] text[i]) by {
                assert(!breaks_a_word(text[i]));
            }
        }
    }
}

/// Escaping leaves no character out.
proof fn lemma_escaped_is_no_shorter(text: Seq<char>)
    ensures
        escaped(text).len() >= text.len(),
    decreases text.len(),
{
    if text.len() > 0 {
        lemma_escaped_is_no_shorter(text.skip(1));
    }
}

/// Between quotes every character stands for itself, but for a backslash and a quote, which are
/// written behind a backslash, and for line feed, carriage return, tab, backspace and form feed, which
/// are written as a backslash and their letter.
pub proof fn law_escapes_are_letters(c: char, rest: Seq<char>)
    ensures
        escaped(Seq::empty()) == Seq::<char>::empty(),
        escaped(seq![c] + rest) == (if c == '\\' {
            seq!['\\', '\\']
        } else if c == '"' {
            seq!['\\', '"']
        } else if c == '\u{a}' {
            seq!['\\', 'n']
        } else if c == '\u{d}' {
            seq!['\\', 'r']
        } else if c == '\u{9}' {
            seq!['\\', 't']
        } else if c == '\u{8}' {
            seq!['\\', 'b']
        } else if c == '\u{c}' {
            seq!['\\', 'f']
        } else {
            seq![c]
        }) + escaped(rest),
{
    assert((seq![c] + rest).skip(1) =~= rest);
    assert((seq![c] + rest)[0] == c);
}

/// A string is written as a text is, a truth value and no value as a word behind a number sign, and a
/// floating-point number as its literal. A name is written as a text is, unless it has a spelling of
/// its own.
pub proof fn law_values_have_one_spelling(text: Seq<char>, name: KdlIdentifier)
    ensures
        rendered_value(ValueView::String(text)) == rendered_string(text),
        rendered_value(ValueView::Float(text)) == text,
        rendered_value(ValueView::Bool(true)) == "#true"@,
        rendered_value(ValueView::Bool(false)) == "#false"@,
        rendered_value(ValueView::Null) == "#null"@,
        name.repr matches Some(repr) ==> rendered_name(name) == repr@,
        name.repr is None ==> rendered_name(name) == rendered_string(name.value@),
{
}

/// What the first `n` of the decimal digits `digits` denote by their places: the last of all counts
/// once, and each other ten times as much as the one behind it.
pub open spec fn by_place(digits: Seq<char>, n: int) -> int
    decreases n,
{
    if n <= 0 {
        0
    } else {
        by_place(digits, n - 1) + (digits[n - 1] as int - '0' as int) * pow(
            10,
            (digits.len() - n) as nat,
        )
    }
}

/// One more digit makes each digit before it count ten times as much.
proof fn lemma_by_place_shifts(digits: Seq<char>, last: char, n: int)
    requires
        0 <= n <= digits.len(),
    ensures
        by_place(digits.push(last), n) == 10 * by_place(digits, n),
    decreases n,
{
    if n > 0 {
        lemma_by_place_shifts(digits, last, n - 1);
        let d = digits[n - 1] as int - '0' as int;
        let e = (digits.len() - n) as nat;
        lemma_pow_adds(10, 1, e);
        lemma_pow1(10);
        assert((digits.push(last).len() - n) as nat == 1 + e);
        assert(digits.push(last)[n - 1] == digits[n - 1]);
        let p = pow(10, e);
        assert(d * (10 * p) == 10 * (d * p)) by (nonlinear_arith);
    }
}

/// The decimal of a number denotes it by the places of its digits, and has no zero in front of others.
proof fn lemma_decimal_by_place(n: nat)
    ensures
        by_place(decimal(n), decimal(n).len() as int) == n,
        decimal(n).len() > 1 ==> decimal(n)[0] != '0',
        n > 0 ==> decimal(n)[0] != '0',
    decreases n,
{
    let digits = decimal(n);
    lemma_decimal(n);
    lemma_pow0(10);
    reveal_with_fuel(by_place, 2);
    if n >= 10 {
        let before = decimal(n / 10);
        let last = digit_for(n % 10);
        lemma_decimal(n / 10);
        lemma_decimal_by_place(n / 10);
        lemma_by_place_shifts(before, last, before.len() as int);
        assert(digits == before.push(last));
        assert(digits[0] == before[0]);
        assert(last as int - '0' as int == n % 10);
    } else {
        assert(digits.len() == 1);
        assert(digits[0] as int - '0' as int == n);
    }
}

/// A whole number is written in base ten: in digits that denote it by their places, with a minus sign
/// in front if it is negative, and without a zero that could be left out.
pub proof fn law_integers_are_written_in_base_ten(number: i128)
    ensures
        ({
            let literal = rendered_value(KdlValue::Integer(number)@);
            let digits = if number < 0 {
                literal.skip(1)
            } else {
                literal
            };
            &&& number < 0 ==> literal.len() > 1 && literal[0] == '-'
            &&& digits.len() > 0
            &&& forall|i: int| 0 <= i < digits.len() ==> '0' <= #[trigger] digits[i] <= '9'
            &&& by_place(digits, digits.len() as int) == (if number < 0 {
                -(number as int)
            } else {
                number as int
            })
            &&& digits.len() > 1 ==> digits[0] != '0'
        }),
{
    let magnitude = (if number < 0 {
        -(number as int)
    } else {
        number as int
    }) as nat;
    let literal = rendered_value(KdlValue::Integer(number)@);
    lemma_decimal(magnitude);
    lemma_decimal_by_place(magnitude);
    if number < 0 {
        assert(literal.skip(1) =~= decimal(magnitude));
    }
}

/// The index of an argument is written in the same way in the error that there is none.
pub proof fn law_indices_are_written_in_base_ten(index: nat)
    ensures
        ({
            let digits = rendered_value(ValueView::Integer(index as int));
            &&& digits.len() > 0
            &&& forall|i: int| 0 <= i < digits.len() ==> '0' <= #[trigger] digits[i] <= '9'
            &&& by_place(digits, digits.len() as int) == index
            &&& digits.len() > 1 ==> digits[0] != '0'
        }),
{
    lemma_decimal(index);
    lemma_decimal_by_place(index);
}

/// A character that no string can hold as it is written: one that may not stand in a document, or that
/// ends a line and has no letter to be escaped with.
pub open spec fn has_no_spelling(c: char) -> bool {
    ||| c <= '\u{7}' || c == '\u{b}' || '\u{e}' <= c <= '\u{1f}' || c == '\u{7f}'
    ||| c == '\u{85}' || '\u{200e}' <= c <= '\u{200f}' || '\u{2028}' <= c <= '\u{202e}'
    ||| '\u{2066}' <= c <= '\u{2069}' || c == '\u{feff}'
}

/// A string reads back as itself exactly if every character of it can be written, and so does a whole
/// number exactly if it is in range; truth values and no value always do.
pub proof fn law_what_can_be_written(text: Seq<char>, number: int, truth: bool)
    ensures
        value_of(rendered_value(ValueView::String(text))) == Some(ValueView::String(text))
            <==> forall|i: int| 0 <= i < text.len() ==> !has_no_spelling(#[trigger] text[i]),
        value_of(rendered_value(ValueView::Integer(number))) == Some(ValueView::Integer(number))
            <==> -0x8000_0000_0000_0000_0000_0000_0000_0000 <= number
            <= 0x7fff_ffff_ffff_ffff_ffff_ffff_ffff_ffff,
        value_of(rendered_value(ValueView::Bool(truth))) == Some(ValueView::Bool(truth)),
        value_of(rendered_value(ValueView::Null)) == Some(ValueView::Null),
{
    law_values_round_trip(ValueView::String(text));
    law_values_round_trip(ValueView::Integer(number));
    law_values_round_trip(ValueView::Bool(truth));
    law_values_round_trip(ValueView::Null);
    assert forall|c: char| #[trigger] is_writable(c) == !has_no_spelling(c) by {}
    if all_writable(text) {
        assert forall|i: int| 0 <= i < text.len() implies !has_no_spelling(#[trigger] text[i]) by {
            assert(is_writable(text[i]));
        }
    } else {
        let i = choose|i: int| 0 <= i < text.len() && !is_writable(#[trigger] text[i]);
        assert(has_no_spelling(text[i]));
    }
}

} // verus!
