//! Which characters may stand where in a KDL document, and which names need no quotes.
use vstd::prelude::*;

verus! {

/// A character that ends a line.
pub open spec fn is_newline(c: char) -> bool {
    c == '\u{a}' || c == '\u{b}' || c == '\u{c}' || c == '\u{d}' || c == '\u{85}' || c == '\u{2028}'
        || c == '\u{2029}'
}

/// A character that is blank without ending a line.
pub open spec fn is_space(c: char) -> bool {
    c == '\u{9}' || c == '\u{20}' || c == '\u{a0}' || c == '\u{1680}' || '\u{2000}' <= c <= '\u{200a}'
        || c == '\u{202f}' || c == '\u{205f}' || c == '\u{3000}'
}

/// A blank character of either kind.
pub open spec fn is_blank(c: char) -> bool {
    is_space(c) || is_newline(c)
}

/// A character that no document may hold unescaped: most control characters, the marks that change
/// the direction of text, and the byte order mark.
pub open spec fn is_forbidden(c: char) -> bool {
    c <= '\u{8}' || '\u{e}' <= c <= '\u{1f}' || c == '\u{7f}' || '\u{200e}' <= c <= '\u{200f}'
        || '\u{202a}' <= c <= '\u{202e}' || '\u{2066}' <= c <= '\u{2069}' || c == '\u{feff}'
}

/// A character with a meaning of its own in the grammar.
pub open spec fn is_punctuation(c: char) -> bool {
    c == '\\' || c == '/' || c == '(' || c == ')' || c == '{' || c == '}' || c == ';' || c == '['
        || c == ']' || c == '"' || c == '#' || c == '='
}

/// A character that a name may hold without being quoted.
pub open spec fn is_name_char(c: char) -> bool {
    !is_blank(c) && !is_forbidden(c) && !is_punctuation(c)
}

/// A decimal digit.
pub open spec fn is_digit(c: char) -> bool {
    '0' <= c <= '9'
}

/// A sign of a number.
pub open spec fn is_sign(c: char) -> bool {
    c == '+' || c == '-'
}

/// A word that stands for a value only with a `#` before it and that is not left bare, so that one
/// is not taken for the other.
pub open spec fn is_keyword(text: Seq<char>) -> bool {
    text == "true"@ || text == "false"@ || text == "null"@ || text == "inf"@ || text == "-inf"@
        || text == "nan"@
}

/// The text starts as a number does: with a digit, after an optional sign and an optional point.
pub open spec fn starts_like_number(text: Seq<char>) -> bool {
    let unsigned = if text.len() > 0 && is_sign(text[0]) {
        text.skip(1)
    } else {
        text
    };
    let bare = if unsigned.len() > 0 && unsigned[0] == '.' {
        unsigned.skip(1)
    } else {
        unsigned
    };
    bare.len() > 0 && is_digit(bare[0])
}

/// The text is a name that needs no quotes.
pub open spec fn is_bare_name(text: Seq<char>) -> bool {
    &&& text.len() > 0
    &&& forall|i: int| 0 <= i < text.len() ==> is_name_char(#[trigger] text[i])
    &&& !is_keyword(text)
    &&& !starts_like_number(text)
}

/// Whether `c` ends a line.
pub(crate) fn newline(c: char) -> (yes: bool)
    ensures
        yes == is_newline(c),
{
    c == '\u{a}' || c == '\u{b}' || c == '\u{c}' || c == '\u{d}' || c == '\u{85}' || c == '\u{2028}'
        || c == '\u{2029}'
}

/// Whether `c` is blank without ending a line.
pub(crate) fn space(c: char) -> (yes: bool)
    ensures
        yes == is_space(c),
{
    c == '\u{9}' || c == '\u{20}' || c == '\u{a0}' || c == '\u{1680}' || ('\u{2000}' <= c && c
        <= '\u{200a}') || c == '\u{202f}' || c == '\u{205f}' || c == '\u{3000}'
}

/// Whether `c` is blank.
pub(crate) fn blank(c: char) -> (yes: bool)
    ensures
        yes == is_blank(c),
{
    space(c) || newline(c)
}

/// Whether no document may hold `c` unescaped.
pub(crate) fn forbidden(c: char) -> (yes: bool)
    ensures
        yes == is_forbidden(c),
{
    c <= '\u{8}' || ('\u{e}' <= c && c <= '\u{1f}') || c == '\u{7f}' || ('\u{200e}' <= c && c
        <= '\u{200f}') || ('\u{202a}' <= c && c <= '\u{202e}') || ('\u{2066}' <= c && c
        <= '\u{2069}') || c == '\u{feff}'
}

/// Whether `c` has a meaning of its own in the grammar.
fn punctuation(c: char) -> (yes: bool)
    ensures
        yes == is_punctuation(c),
{
    c == '\\' || c == '/' || c == '(' || c == ')' || c == '{' || c == '}' || c == ';' || c == '['
        || c == ']' || c == '"' || c == '#' || c == '='
}

/// Whether `c` is a decimal digit.
pub(crate) fn digit(c: char) -> (yes: bool)
    ensures
        yes == is_digit(c),
{
    '0' <= c && c <= '9'
}

/// Whether `c` is a sign.
pub(crate) fn sign(c: char) -> (yes: bool)
    ensures
        yes == is_sign(c),
{
    c == '+' || c == '-'
}

/// The characters of `text`.
pub(crate) fn chars_of(text: &str) -> (chars: Vec<char>)
    ensures
        chars@ == text@,
{
    let mut chars: Vec<char> = Vec::new();
    for c in iter: text.chars()
        invariant
            chars@ == iter.seq().take(iter.index() as int),
            iter.seq() == text@,
    {
        assert(iter.seq().take(iter.index() + 1) =~= iter.seq().take(iter.index() as int).push(c));
        chars.push(c);
    }
    assert(text@.take(text@.len() as int) =~= text@);
    chars
}

/// Whether `chars` are those of `text`.
pub(crate) fn reads(chars: &[char], text: &str) -> (same: bool)
    ensures
        same == (chars@ == text@),
{
    let other: Vec<char> = chars_of(text);
    if chars.len() != other.len() {
        return false;
    }
    let mut i: usize = 0;
    while i < chars.len()
        invariant
            other@ == text@,
            chars.len() == other.len(),
            i <= chars.len(),
            forall|j: int| 0 <= j < i ==> chars@[j] == other@[j],
        decreases chars.len() - i,
    {
        if chars[i] != other[i] {
            return false;
        }
        i = i + 1;
    }
    assert(chars@ =~= other@);
    true
}

/// Whether `text` is a keyword.
fn keyword(text: &[char]) -> (yes: bool)
    ensures
        yes == is_keyword(text@),
{
    reads(text, "true") || reads(text, "false") || reads(text, "null") || reads(text, "inf") || reads(
        text,
        "-inf",
    ) || reads(text, "nan")
}

/// Whether `text` starts as a number does.
fn like_number(text: &[char]) -> (yes: bool)
    ensures
        yes == starts_like_number(text@),
{
    let mut i: usize = 0;
    if i < text.len() && sign(text[i]) {
        i = i + 1;
    }
    if i < text.len() && text[i] == '.' {
        i = i + 1;
    }
    i < text.len() && digit(text[i])
}

/// Whether `text` is a name that needs no quotes.
pub(crate) fn bare_name(text: &[char]) -> (yes: bool)
    ensures
        yes == is_bare_name(text@),
{
    if text.len() == 0 {
        return false;
    }
    let mut i: usize = 0;
    while i < text.len()
        invariant
            i <= text.len(),
            forall|j: int| 0 <= j < i ==> is_name_char(#[trigger] text@[j]),
        decreases text.len() - i,
    {
        if blank(text[i]) || forbidden(text[i]) || punctuation(text[i]) {
            assert(!is_name_char(text@[i as int]));
            return false;
        }
        i = i + 1;
    }
    !keyword(text) && !like_number(text)
}

} // verus!
