//! What is written reads back.
use crate::number::{are_figures, is_decimal_float, lemma_signed_decimal, signed_decimal, unsigned};
use crate::scan::{lemma_run, lemma_run_from, run, Class};
use crate::strings::{element, named_escape, opens_block, optional_char, string_value, unescaped};
use crate::syntax::{
    is_bare_name, is_digit, is_forbidden, is_name_char, is_newline, starts_like_number,
};
use crate::tree::ValueView;
use crate::value::{
    escape_letter, escaped, escaped_char, keyword_value, rendered_string, rendered_value, value_of,
};
use vstd::prelude::*;

verus! {

/// A character that a quoted string can hold as it is written: with a backslash, or as itself where
/// it neither ends the line nor is forbidden.
pub open spec fn is_writable(c: char) -> bool {
    escape_letter(c) is Some || (!is_forbidden(c) && !is_newline(c))
}

/// A text of writable characters.
pub open spec fn all_writable(text: Seq<char>) -> bool {
    forall|i: int| 0 <= i < text.len() ==> is_writable(#[trigger] text[i])
}

/// A floating-point literal.
pub open spec fn is_float(text: Seq<char>) -> bool {
    text == "#inf"@ || text == "#-inf"@ || text == "#nan"@ || is_decimal_float(text)
}

/// A value that can be written: a string of writable characters, a number in range, a
/// floating-point literal, a truth value, or none.
pub open spec fn is_denotable(value: ValueView) -> bool {
    match value {
        ValueView::String(text) => all_writable(text),
        ValueView::Integer(number) => i128::MIN <= number <= i128::MAX,
        ValueView::Float(literal) => is_float(literal),
        ValueView::Bool(_) => true,
        ValueView::Null => true,
    }
}

/// What is written between quotes reads back as the text, as long as every character of it is
/// writable; one that is not makes it unreadable.
proof fn lemma_unescaped_escaped(text: Seq<char>)
    ensures
        unescaped(escaped(text), true) == (if all_writable(text) {
            Some(text)
        } else {
            None
        }),
    decreases text.len(),
{
    let written = escaped(text);
    if text.len() == 0 {
        assert(written =~= Seq::empty());
        assert(Seq::<char>::empty() =~= text);
    } else {
        let c = text[0];
        let rest = text.skip(1);
        lemma_unescaped_escaped(rest);
        let n = escaped_char(c).len() as int;
        assert(written == escaped_char(c) + escaped(rest));
        assert(written.skip(n) =~= escaped(rest));
        assert(written[0] == escaped_char(c)[0]);
        match escape_letter(c) {
            Some(letter) => {
                assert(written[1] == letter);
                assert(named_escape(letter) == Some(c));
                assert(element(written, true) == Some((Some(c), 2int)));
            },
            None => {
                if is_writable(c) {
                    assert(element(written, true) == Some((Some(c), 1int)));
                } else {
                    assert(element(written, true) is None);
                }
            },
        }
        assert(all_writable(text) == (is_writable(c) && all_writable(rest))) by {
            if all_writable(text) {
                assert(is_writable(text[0]));
                assert forall|i: int| 0 <= i < rest.len() implies is_writable(
                    #[trigger] rest[i],
                ) by {
                    assert(is_writable(text[i + 1]));
                }
            } else {
                let i = choose|i: int| 0 <= i < text.len() && !is_writable(#[trigger] text[i]);
                if i > 0 {
                    assert(!is_writable(rest[i - 1]));
                }
            }
        }
        assert(optional_char(Some(c)) + rest =~= text);
    }
}

/// A string that is written by the renderer reads back as itself, exactly as long as each of its
/// characters is writable. A string with another character is written in a form that does not read
/// as a string at all.
pub proof fn law_strings_round_trip(text: Seq<char>)
    ensures
        string_value(rendered_string(text)) == (if all_writable(text) {
            Some(text)
        } else {
            None
        }),
{
    if is_bare_name(text) {
        assert forall|i: int| 0 <= i < text.len() implies is_writable(#[trigger] text[i]) by {
            assert(is_name_char(text[i]));
        }
    } else {
        let written = rendered_string(text);
        let body = escaped(text);
        let n = written.len() as int;
        assert(written[0] == '"');
        assert(!is_name_char(written[0]));
        assert(!is_bare_name(written));
        assert(written[n - 1] == '"');
        assert(written.subrange(1, n - 1) =~= body);
        assert(!opens_block(written)) by {
            if text.len() > 0 {
                assert(body == escaped_char(text[0]) + escaped(text.skip(1)));
                assert(written[1] == escaped_char(text[0])[0]);
            } else {
                assert(body =~= Seq::empty());
            }
        }
        lemma_unescaped_escaped(text);
    }
}

/// What starts like a number is not a string.
proof fn lemma_number_is_no_string(text: Seq<char>)
    requires
        starts_like_number(text),
    ensures
        string_value(text) is None,
        keyword_value(text) is None,
{
    reveal_strlit("#true");
    reveal_strlit("#false");
    reveal_strlit("#null");
    reveal_strlit("#inf");
    reveal_strlit("#-inf");
    reveal_strlit("#nan");
    assert(text[0] != '#' && text[0] != '"');
    assert(run(text, Class::Hash) == 0);
}

/// Digits in front make a text start like a number.
proof fn lemma_figures_start_number(text: Seq<char>)
    requires
        unsigned(text).len() > 0,
        is_digit(unsigned(text)[0]),
    ensures
        starts_like_number(text),
{
}

/// A value that is written by the renderer reads back as itself, exactly if it is denotable.
pub proof fn law_values_round_trip(value: ValueView)
    ensures
        value_of(rendered_value(value)) == Some(value) <==> is_denotable(value),
{
    reveal_strlit("#true");
    reveal_strlit("#false");
    reveal_strlit("#null");
    reveal_strlit("#inf");
    reveal_strlit("#-inf");
    reveal_strlit("#nan");
    match value {
        ValueView::String(text) => {
            law_strings_round_trip(text);
            let written = rendered_string(text);
            assert(keyword_value(written) is None) by {
                if is_bare_name(text) {
                    assert(is_name_char(text[0]));
                } else {
                    assert(written[0] == '"');
                }
            }
        },
        ValueView::Integer(number) => {
            lemma_signed_decimal(number);
            lemma_figures_start_number(signed_decimal(number));
            lemma_number_is_no_string(signed_decimal(number));
        },
        ValueView::Float(literal) => {
            if is_decimal_float(literal) {
                let bare = unsigned(literal);
                let whole = run(bare, Class::Figure) as int;
                lemma_run(bare, Class::Figure);
                assert(bare.take(whole)[0] == bare[0]);
                lemma_figures_start_number(literal);
                lemma_number_is_no_string(literal);
                if are_figures(bare) {
                    lemma_run_from(bare, bare.len() as int, Class::Figure);
                }
            }
        },
        ValueView::Bool(truth) => {},
        ValueView::Null => {
            assert("#null"@ != "#true"@) by {
                assert("#null"@[1] == 'n');
                assert("#true"@[1] == 't');
            }
            assert("#null"@ != "#false"@) by {
                assert("#null"@[1] == 'n');
                assert("#false"@[1] == 'f');
            }
        },
    }
}

} // verus!
