//! Writing names and values as KDL, and reading them back.
use crate::number::{
    decimal_float, integer, integer_value, is_decimal_float, is_integer, push_signed_decimal,
    read_integer, signed_decimal,
};
use crate::reader::read_string;
use crate::strings::string_value;
use crate::syntax::{bare_name, chars_of, is_bare_name, reads};
use crate::tree::{KdlIdentifier, KdlValue, ValueView};
use vstd::prelude::*;

verus! {

/// The letter that stands after a backslash for `c`, if `c` is written that way in a quoted string.
pub open spec fn escape_letter(c: char) -> Option<char> {
    if c == '\\' || c == '"' {
        Some(c)
    } else if c == '\u{a}' {
        Some('n')
    } else if c == '\u{d}' {
        Some('r')
    } else if c == '\u{9}' {
        Some('t')
    } else if c == '\u{8}' {
        Some('b')
    } else if c == '\u{c}' {
        Some('f')
    } else {
        None
    }
}

/// How `c` is written in a quoted string.
pub open spec fn escaped_char(c: char) -> Seq<char> {
    match escape_letter(c) {
        Some(letter) => seq!['\\', letter],
        None => seq![c],
    }
}

/// How `text` is written between quotes.
pub open spec fn escaped(text: Seq<char>) -> Seq<char>
    decreases text.len(),
{
    if text.len() == 0 {
        Seq::empty()
    } else {
        escaped_char(text[0]) + escaped(text.skip(1))
    }
}

/// How a string is written: bare where it can be, and quoted otherwise.
pub open spec fn rendered_string(text: Seq<char>) -> Seq<char> {
    if is_bare_name(text) {
        text
    } else {
        seq!['"'] + escaped(text) + seq!['"']
    }
}

/// How a value is written.
pub open spec fn rendered_value(value: ValueView) -> Seq<char> {
    match value {
        ValueView::String(text) => rendered_string(text),
        ValueView::Integer(number) => signed_decimal(number),
        ValueView::Float(literal) => literal,
        ValueView::Bool(truth) => if truth {
            "#true"@
        } else {
            "#false"@
        },
        ValueView::Null => "#null"@,
    }
}

/// How a name is written: as its own spelling if it has one, and as a string otherwise.
pub open spec fn rendered_name(name: KdlIdentifier) -> Seq<char> {
    match name.repr {
        Some(repr) => repr@,
        None => rendered_string(name.value@),
    }
}

/// What a word after a `#` stands for.
pub open spec fn keyword_value(text: Seq<char>) -> Option<ValueView> {
    if text == "#true"@ {
        Some(ValueView::Bool(true))
    } else if text == "#false"@ {
        Some(ValueView::Bool(false))
    } else if text == "#null"@ {
        Some(ValueView::Null)
    } else if text == "#inf"@ || text == "#-inf"@ || text == "#nan"@ {
        Some(ValueView::Float(text))
    } else {
        None
    }
}

/// What a value literal stands for: a keyword, a string, or a number in decimal.
pub open spec fn value_of(text: Seq<char>) -> Option<ValueView> {
    if keyword_value(text) is Some {
        keyword_value(text)
    } else if string_value(text) is Some {
        Some(ValueView::String(string_value(text)->0))
    } else if is_integer(text) {
        if i128::MIN <= integer_value(text) <= i128::MAX {
            Some(ValueView::Integer(integer_value(text)))
        } else {
            None
        }
    } else if is_decimal_float(text) {
        Some(ValueView::Float(text))
    } else {
        None
    }
}

/// Appends `c` as it is written in a quoted string.
fn push_escaped(out: &mut String, c: char)
    ensures
        final(out)@ == old(out)@ + escaped_char(c),
{
    let letter: Option<char> = match c {
        '\\' => Some('\\'),
        '"' => Some('"'),
        '\u{a}' => Some('n'),
        '\u{d}' => Some('r'),
        '\u{9}' => Some('t'),
        '\u{8}' => Some('b'),
        '\u{c}' => Some('f'),
        _ => None,
    };
    match letter {
        Some(letter) => {
            out.push('\\');
            out.push(letter);
        },
        None => {
            out.push(c);
        },
    }
    assert(out@ =~= old(out)@ + escaped_char(c));
}

/// Writes a string.
pub(crate) fn render_string(text: &str) -> (rendered: String)
    ensures
        rendered@ == rendered_string(text@),
{
    let chars: Vec<char> = chars_of(text);
    if bare_name(chars.as_slice()) {
        return text.to_owned();
    }
    let mut out: String = String::new();
    out.push('"');
    let mut i: usize = 0;
    proof {
        assert(chars@.skip(0) =~= chars@);
        assert(out@ =~= seq!['"']);
    }
    while i < chars.len()
        invariant
            i <= chars@.len(),
            out@ + escaped(chars@.skip(i as int)) == seq!['"'] + escaped(chars@),
        decreases chars@.len() - i,
    {
        let ghost before = out@;
        let ghost rest = chars@.skip(i as int);
        push_escaped(&mut out, chars[i]);
        proof {
            assert(rest.skip(1) =~= chars@.skip(i + 1));
            assert(out@ + escaped(chars@.skip(i + 1)) =~= before + escaped(rest));
        }
        i = i + 1;
    }
    assert(chars@.skip(i as int) =~= Seq::empty());
    assert(out@ =~= seq!['"'] + escaped(chars@));
    out.push('"');
    assert(out@ =~= seq!['"'] + escaped(chars@) + seq!['"']);
    out
}

/// The text that `chars` make up.
fn text_of(chars: &[char]) -> (text: String)
    ensures
        text@ == chars@,
{
    let mut text: String = String::new();
    let mut i: usize = 0;
    while i < chars.len()
        invariant
            i <= chars@.len(),
            text@ == chars@.take(i as int),
        decreases chars@.len() - i,
    {
        assert(chars@.take(i + 1) =~= chars@.take(i as int).push(chars@[i as int]));
        text.push(chars[i]);
        i = i + 1;
    }
    assert(chars@.take(i as int) =~= chars@);
    text
}

impl KdlIdentifier {
    /// The name as it is written in a document.
    pub fn to_string(&self) -> (rendered: String)
        ensures
            rendered@ == rendered_name(*self),
    {
        match &self.repr {
            Some(repr) => repr.clone(),
            None => render_string(self.value.as_str()),
        }
    }
}

impl KdlValue {
    /// The value as it is written in a document.
    pub fn to_string(&self) -> (rendered: String)
        ensures
            rendered@ == rendered_value(self@),
    {
        match self {
            KdlValue::String(text) => render_string(text.as_str()),
            KdlValue::Integer(number) => {
                let mut out: String = String::new();
                push_signed_decimal(&mut out, *number);
                assert(out@ =~= signed_decimal(*number as int));
                out
            },
            KdlValue::Float(literal) => literal.clone(),
            KdlValue::Bool(truth) => if *truth {
                "#true".to_owned()
            } else {
                "#false".to_owned()
            },
            KdlValue::Null => "#null".to_owned(),
        }
    }
}

/// A value that was read, by what it is.
pub open spec fn value_read(value: Option<KdlValue>) -> Option<ValueView> {
    match value {
        Some(value) => Some(value@),
        None => None,
    }
}

/// Reads a name.
pub(crate) fn read_name(text: &str) -> (result: Option<String>)
    ensures
        match result {
            Some(name) => string_value(text@) == Some(name@),
            None => string_value(text@) is None,
        },
{
    let chars: Vec<char> = chars_of(text);
    match read_string(chars.as_slice()) {
        Some(name) => Some(text_of(name.as_slice())),
        None => None,
    }
}

/// Reads a value literal.
pub(crate) fn read_value(text: &str) -> (result: Option<KdlValue>)
    ensures
        value_read(result) == value_of(text@),
{
    let chars: Vec<char> = chars_of(text);
    let chars: &[char] = chars.as_slice();
    if reads(chars, "#true") {
        return Some(KdlValue::Bool(true));
    }
    if reads(chars, "#false") {
        return Some(KdlValue::Bool(false));
    }
    if reads(chars, "#null") {
        return Some(KdlValue::Null);
    }
    if reads(chars, "#inf") || reads(chars, "#-inf") || reads(chars, "#nan") {
        return Some(KdlValue::Float(text.to_owned()));
    }
    match read_string(chars) {
        Some(string) => Some(KdlValue::String(text_of(string.as_slice()))),
        None => {
            if integer(chars) {
                match read_integer(chars) {
                    Some(number) => Some(KdlValue::Integer(number)),
                    None => None,
                }
            } else if decimal_float(chars) {
                Some(KdlValue::Float(text.to_owned()))
            } else {
                None
            }
        },
    }
}

} // verus!
