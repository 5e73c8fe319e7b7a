//! Which literals denote floating-point numbers.
use crate::laws::rendering::{is_float, law_values_round_trip};
use crate::number::{are_figures, is_decimal_float, is_exponent, unsigned};
use crate::scan::{lemma_run, lemma_run_from, run, Class};
use crate::tree::ValueView;
use crate::value::{rendered_value, value_of};
use vstd::prelude::*;

verus! {

/// Digits, and underscores anywhere but in front.
pub open spec fn is_row_of_digits(text: Seq<char>) -> bool {
    &&& text.len() > 0
    &&& '0' <= text[0] <= '9'
    &&& forall|i: int| 0 <= i < text.len() ==> '0' <= #[trigger] text[i] <= '9' || text[i] == '_'
}

/// A plus sign, a minus sign, or none.
pub open spec fn is_optional_sign(text: Seq<char>) -> bool {
    text == Seq::<char>::empty() || text == seq!['+'] || text == seq!['-']
}

/// A point and digits, or nothing.
pub open spec fn is_fraction(text: Seq<char>) -> bool {
    text == Seq::<char>::empty() || (text.len() > 0 && text[0] == '.' && is_row_of_digits(
        text.skip(1),
    ))
}

/// The letter e, a sign or none, and digits; or nothing.
pub open spec fn is_power(text: Seq<char>) -> bool {
    text == Seq::<char>::empty() || (text.len() > 0 && (text[0] == 'e' || text[0] == 'E') && (
    is_row_of_digits(text.skip(1)) || (text.len() > 1 && (text[1] == '+' || text[1] == '-')
        && is_row_of_digits(text.skip(2)))))
}

/// What rows of digits are.
proof fn lemma_figures(text: Seq<char>)
    ensures
        are_figures(text) <==> is_row_of_digits(text),
{
    if are_figures(text) {
        assert forall|i: int| 0 <= i < text.len() implies '0' <= #[trigger] text[i] <= '9'
            || text[i] == '_' by {
            assert(Class::Figure.has(text[i]));
        }
    }
    if is_row_of_digits(text) {
        assert forall|i: int| 0 <= i < text.len() implies Class::Figure.has(#[trigger] text[i]) by {
            assert('0' <= text[i] <= '9' || text[i] == '_');
        }
    }
}

/// A row of digits in front of something else is as long as the run of digits.
proof fn lemma_figures_in_front(row: Seq<char>, rest: Seq<char>)
    requires
        is_row_of_digits(row),
        rest.len() > 0 ==> !Class::Figure.has(rest[0]),
    ensures
        run(row + rest, Class::Figure) == row.len(),
        (row + rest).take(row.len() as int) == row,
        (row + rest).skip(row.len() as int) == rest,
{
    let text = row + rest;
    let n = row.len() as int;
    assert(text.take(n) =~= row);
    assert(text.skip(n) =~= rest);
    assert forall|i: int| 0 <= i < n implies Class::Figure.has(#[trigger] text[i]) by {
        assert(text[i] == row[i]);
        assert('0' <= row[i] <= '9' || row[i] == '_');
    }
    lemma_run_from(text, n, Class::Figure);
}

/// What a power of ten is.
proof fn lemma_exponent(text: Seq<char>)
    ensures
        is_exponent(text) <==> text.len() > 0 && is_power(text),
{
    if text.len() > 0 {
        let behind = text.skip(1);
        lemma_figures(unsigned(behind));
        if behind.len() > 0 {
            assert(behind[0] == text[1]);
            assert(behind.skip(1) =~= text.skip(2));
        }
    }
}

/// A sign, digits, a fraction, a power of ten, in this order, are a floating-point literal if there is
/// a fraction or a power, and it stands for the number that is written so.
pub proof fn law_floats_can_be_written(
    sign: Seq<char>,
    whole: Seq<char>,
    fraction: Seq<char>,
    power: Seq<char>,
)
    requires
        is_optional_sign(sign),
        is_row_of_digits(whole),
        is_fraction(fraction),
        is_power(power),
        fraction.len() > 0 || power.len() > 0,
    ensures
        ({
            let literal = sign + (whole + (fraction + power));
            value_of(rendered_value(ValueView::Float(literal))) == Some(ValueView::Float(literal))
        }),
{
    let number = whole + (fraction + power);
    let literal = sign + number;
    let rest = fraction + power;
    assert(number[0] == whole[0]);
    if sign == Seq::<char>::empty() {
        assert(literal =~= number);
        assert(unsigned(literal) == number);
    } else {
        assert(literal[0] == sign[0]);
        assert(literal.skip(1) =~= number);
    }
    if fraction.len() > 0 {
        assert(rest[0] == fraction[0]);
    } else {
        assert(rest =~= power);
    }
    lemma_figures(whole);
    lemma_exponent(power);
    lemma_figures_in_front(whole, rest);
    if fraction.len() > 0 {
        let places = fraction.skip(1);
        assert(rest.skip(1) =~= places + power);
        lemma_figures(places);
        lemma_figures_in_front(places, power);
    }
    assert(is_decimal_float(literal));
    law_values_round_trip(ValueView::Float(literal));
}

/// What is taken for a floating-point literal is one of the three words for numbers that have no
/// digits, or a sign, digits, a fraction and a power of ten, of which one of the last two is there.
pub proof fn law_only_floats_can_be_written(literal: Seq<char>) -> (parts: (
    Seq<char>,
    Seq<char>,
    Seq<char>,
    Seq<char>,
))
    requires
        value_of(rendered_value(ValueView::Float(literal))) == Some(ValueView::Float(literal)),
        literal != "#inf"@,
        literal != "#-inf"@,
        literal != "#nan"@,
    ensures
        is_optional_sign(parts.0),
        is_row_of_digits(parts.1),
        is_fraction(parts.2),
        is_power(parts.3),
        parts.2.len() > 0 || parts.3.len() > 0,
        literal == parts.0 + (parts.1 + (parts.2 + parts.3)),
{
    law_values_round_trip(ValueView::Float(literal));
    assert(is_float(literal));
    let number = unsigned(literal);
    let sign = literal.take(literal.len() - number.len());
    assert(sign + number =~= literal);
    if sign.len() > 0 {
        assert(sign =~= seq![literal[0]]);
    } else {
        assert(sign =~= Seq::empty());
    }
    let n = run(number, Class::Figure) as int;
    lemma_run(number, Class::Figure);
    let whole = number.take(n);
    let rest = number.skip(n);
    lemma_figures(whole);
    assert(whole + rest =~= number);
    if rest[0] == '.' {
        let behind = rest.skip(1);
        let places = run(behind, Class::Figure) as int;
        lemma_run(behind, Class::Figure);
        lemma_figures(behind.take(places));
        let fraction = rest.take(places + 1);
        let power = behind.skip(places);
        lemma_exponent(power);
        assert(fraction.skip(1) =~= behind.take(places));
        assert(fraction + power =~= rest);
        if power.len() == 0 {
            assert(power =~= Seq::empty());
        }
        (sign, whole, fraction, power)
    } else {
        lemma_exponent(rest);
        assert(Seq::<char>::empty() + rest =~= rest);
        (sign, whole, Seq::empty(), rest)
    }
}

/// The three words for numbers that have no digits stand for themselves.
pub proof fn law_words_for_numbers_can_be_written()
    ensures
        value_of("#inf"@) == Some(ValueView::Float("#inf"@)),
        value_of("#-inf"@) == Some(ValueView::Float("#-inf"@)),
        value_of("#nan"@) == Some(ValueView::Float("#nan"@)),
{
    law_values_round_trip(ValueView::Float("#inf"@));
    law_values_round_trip(ValueView::Float("#-inf"@));
    law_values_round_trip(ValueView::Float("#nan"@));
}

} // verus!
