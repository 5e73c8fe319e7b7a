//! What the strings of KDL stand for: bare names, quoted strings, raw strings, on one line or on
//! several.
use crate::scan::{hex_digit, lemma_run, run, Class};
use crate::syntax::{is_bare_name, is_blank, is_forbidden, is_newline, is_space};
use vstd::prelude::*;

verus! {

/// What comes before, if what comes after can be read.
pub open spec fn prepend(before: Seq<char>, after: Option<Seq<char>>) -> Option<Seq<char>> {
    match after {
        Some(after) => Some(before + after),
        None => None,
    }
}

/// Nothing before changes nothing.
pub proof fn lemma_prepend(before: Seq<char>, after: Option<Seq<char>>)
    requires
        before.len() == 0,
    ensures
        prepend(before, after) == after,
{
    if let Some(after) = after {
        assert(before + after =~= after);
    }
}

/// What comes before in two parts comes before as one.
pub proof fn lemma_prepend_twice(a: Seq<char>, b: Seq<char>, after: Option<Seq<char>>)
    ensures
        prepend(a, prepend(b, after)) == prepend(a + b, after),
{
    if let Some(after) = after {
        assert(a + (b + after) =~= (a + b) + after);
    }
}

/// The number that hexadecimal digits denote.
pub open spec fn hex_value(digits: Seq<char>) -> nat
    decreases digits.len(),
{
    if digits.len() == 0 {
        0
    } else {
        hex_value(digits.drop_last()) * 16 + (match hex_digit(digits.last()) {
            Some(value) => value,
            None => 0,
        })
    }
}

/// What the character after a backslash makes of the two, if it is one of those that name a single
/// character.
pub open spec fn named_escape(c: char) -> Option<char> {
    if c == 'n' {
        Some('\u{a}')
    } else if c == 'r' {
        Some('\u{d}')
    } else if c == 't' {
        Some('\u{9}')
    } else if c == 'b' {
        Some('\u{8}')
    } else if c == 'f' {
        Some('\u{c}')
    } else if c == 's' {
        Some(' ')
    } else if c == '"' || c == '\\' {
        Some(c)
    } else {
        None
    }
}

/// A character by its number: `\u{`, one to six hexadecimal digits, `}`. The character, and how
/// many characters its escape takes.
pub open spec fn numbered_escape(text: Seq<char>) -> Option<(Option<char>, int)> {
    let n = run(text.skip(3), Class::Hex) as int;
    if text.len() < 3 || text[2] != '{' || n < 1 || n > 6 || text.len() <= n + 3 || text[n + 3]
        != '}' {
        None
    } else {
        let value = hex_value(text.subrange(3, n + 3));
        if value <= 0x10ffff && !(0xd800 <= value <= 0xdfff) {
            Some((Some(value as char), n + 4))
        } else {
            None
        }
    }
}

/// The first element of a string body: the character it stands for, if any, and how many
/// characters it takes. An escaped run of blanks stands for no character. On one line, neither a
/// newline nor a quote stands for itself.
pub open spec fn element(text: Seq<char>, one_line: bool) -> Option<(Option<char>, int)> {
    let c = text[0];
    if c == '\\' {
        if text.len() < 2 {
            None
        } else if named_escape(text[1]) is Some {
            Some((named_escape(text[1]), 2))
        } else if text[1] == 'u' {
            numbered_escape(text)
        } else if is_blank(text[1]) {
            Some((None, 1 + run(text.skip(1), Class::Blank) as int))
        } else {
            None
        }
    } else if is_forbidden(c) || (one_line && (c == '"' || is_newline(c))) {
        None
    } else {
        Some((Some(c), 1))
    }
}

/// The characters of an optional character.
pub open spec fn optional_char(c: Option<char>) -> Seq<char> {
    match c {
        Some(c) => seq![c],
        None => seq![],
    }
}

/// What the body of a quoted string stands for.
pub open spec fn unescaped(text: Seq<char>, one_line: bool) -> Option<Seq<char>>
    decreases text.len(),
{
    if text.len() == 0 {
        Some(Seq::empty())
    } else {
        match element(text, one_line) {
            Some((c, n)) => if 0 < n <= text.len() {
                prepend(optional_char(c), unescaped(text.skip(n), one_line))
            } else {
                None
            },
            None => None,
        }
    }
}

/// An element takes at least one character and no more than there are.
pub proof fn lemma_element(text: Seq<char>, one_line: bool)
    requires
        text.len() > 0,
    ensures
        element(text, one_line) matches Some((c, n)) ==> 0 < n <= text.len(),
{
    if text.len() >= 2 {
        lemma_run(text.skip(1), Class::Blank);
    }
}

/// How many characters the line break at the start of `text` takes; none if there is none.
pub open spec fn break_len(text: Seq<char>) -> int {
    if text.len() >= 2 && text[0] == '\u{d}' && text[1] == '\u{a}' {
        2
    } else if text.len() >= 1 && is_newline(text[0]) {
        1
    } else {
        0
    }
}

/// The lines of `text`, the first of them continuing `current`.
pub open spec fn lines_from(text: Seq<char>, current: Seq<char>) -> Seq<Seq<char>>
    decreases text.len(),
{
    if text.len() == 0 {
        seq![current]
    } else if break_len(text) > 0 {
        seq![current] + lines_from(text.skip(break_len(text)), Seq::empty())
    } else {
        lines_from(text.skip(1), current.push(text[0]))
    }
}

/// The lines of `text`.
pub open spec fn lines(text: Seq<char>) -> Seq<Seq<char>> {
    lines_from(text, Seq::empty())
}

/// A line of spaces only.
pub open spec fn all_space(line: Seq<char>) -> bool {
    forall|i: int| 0 <= i < line.len() ==> is_space(#[trigger] line[i])
}

/// A line without the indentation that all lines share; a line of spaces only is empty.
pub open spec fn dedented(line: Seq<char>, indent: Seq<char>) -> Option<Seq<char>> {
    if all_space(line) {
        Some(Seq::empty())
    } else if indent.len() <= line.len() && line.take(indent.len() as int) == indent {
        Some(line.skip(indent.len() as int))
    } else {
        None
    }
}

/// Lines without their indentation, with a line feed between them.
pub open spec fn dedented_lines(lines: Seq<Seq<char>>, indent: Seq<char>) -> Option<Seq<char>>
    decreases lines.len(),
{
    if lines.len() == 0 {
        Some(Seq::empty())
    } else {
        match (dedented_lines(lines.drop_last(), indent), dedented(lines.last(), indent)) {
            (Some(before), Some(line)) => Some(
                if lines.len() == 1 {
                    line
                } else {
                    before + seq!['\u{a}'] + line
                },
            ),
            _ => None,
        }
    }
}

/// If a prefix of the lines cannot be read, neither can all of them.
pub proof fn lemma_dedented_prefix(lines: Seq<Seq<char>>, indent: Seq<char>, n: int)
    requires
        0 <= n <= lines.len(),
        dedented_lines(lines.take(n), indent) is None,
    ensures
        dedented_lines(lines, indent) is None,
    decreases lines.len(),
{
    if n == lines.len() {
        assert(lines.take(n) =~= lines);
    } else {
        assert(lines.drop_last().take(n) =~= lines.take(n));
        lemma_dedented_prefix(lines.drop_last(), indent, n);
    }
}

/// The text of a string on several lines: it starts with a line break, its last line holds the
/// indentation of all others, and neither is part of the text.
pub open spec fn block_text(text: Seq<char>) -> Option<Seq<char>> {
    let lines = lines(text);
    if break_len(text) == 0 || !all_space(lines.last()) {
        None
    } else {
        dedented_lines(lines.subrange(1, lines.len() - 1), lines.last())
    }
}

/// Three quotes stand at the start of `text`.
pub open spec fn opens_block(text: Seq<char>) -> bool {
    text.len() >= 3 && text[0] == '"' && text[1] == '"' && text[2] == '"'
}

/// The body of a quoted string on several lines without its escaped runs of blanks. Three quotes in
/// a row cannot stand in it.
pub open spec fn without_escaped_blanks(text: Seq<char>) -> Option<Seq<char>>
    decreases text.len(),
{
    if text.len() == 0 {
        Some(Seq::empty())
    } else if text[0] == '\\' {
        if text.len() < 2 {
            None
        } else if is_blank(text[1]) {
            let n = 1 + run(text.skip(1), Class::Blank);
            if n <= text.len() {
                without_escaped_blanks(text.skip(n as int))
            } else {
                None
            }
        } else {
            prepend(text.take(2), without_escaped_blanks(text.skip(2)))
        }
    } else if opens_block(text) {
        None
    } else {
        prepend(text.take(1), without_escaped_blanks(text.skip(1)))
    }
}

/// What the body of a quoted string on several lines stands for.
pub open spec fn quoted_block(text: Seq<char>) -> Option<Seq<char>> {
    match without_escaped_blanks(text) {
        Some(resolved) => match block_text(resolved) {
            Some(body) => unescaped(body, false),
            None => None,
        },
        None => None,
    }
}

/// What a text that starts with a quote stands for.
pub open spec fn quoted_value(text: Seq<char>) -> Option<Seq<char>> {
    let n = text.len() as int;
    if opens_block(text) {
        if n >= 6 && opens_block(text.skip(n - 3)) {
            quoted_block(text.subrange(3, n - 3))
        } else {
            None
        }
    } else if n >= 2 && text[n - 1] == '"' {
        unescaped(text.subrange(1, n - 1), true)
    } else {
        None
    }
}

/// `quotes` quotes and `marks` number signs stand at the start of `text`.
pub open spec fn closes(text: Seq<char>, quotes: int, marks: int) -> bool {
    &&& quotes + marks <= text.len()
    &&& forall|i: int| 0 <= i < quotes ==> #[trigger] text[i] == '"'
    &&& forall|i: int| quotes <= i < quotes + marks ==> #[trigger] text[i] == '#'
}

/// The body of a raw string between its delimiters of `quotes` quotes and `marks` number signs:
/// the closing delimiter ends the text and does not stand earlier, and no forbidden character
/// stands in the body.
pub open spec fn raw_body(text: Seq<char>, quotes: int, marks: int) -> Option<Seq<char>> {
    let first = marks + quotes;
    let last = text.len() - marks - quotes;
    if first <= last && closes(text.skip(last), quotes, marks) && (forall|i: int|
        first <= i < last ==> !closes(#[trigger] text.skip(i), quotes, marks) && !is_forbidden(
            text[i],
        )) {
        Some(text.subrange(first, last))
    } else {
        None
    }
}

/// What a text that starts with number signs stands for.
pub open spec fn raw_value(text: Seq<char>) -> Option<Seq<char>> {
    let marks = run(text, Class::Hash) as int;
    if marks == 0 || text.len() <= marks || text[marks] != '"' {
        None
    } else if opens_block(text.skip(marks)) {
        match raw_body(text, 3, marks) {
            Some(body) => block_text(body),
            None => None,
        }
    } else {
        match raw_body(text, 1, marks) {
            Some(body) => if exists|i: int| 0 <= i < body.len() && is_newline(#[trigger] body[i]) {
                None
            } else {
                Some(body)
            },
            None => None,
        }
    }
}

/// What a string stands for: a bare name for itself, a quoted string for its body with the escapes
/// resolved, a raw string for its body as it is. `None` if the text is not a string.
pub open spec fn string_value(text: Seq<char>) -> Option<Seq<char>> {
    if is_bare_name(text) {
        Some(text)
    } else if text.len() > 0 && text[0] == '"' {
        quoted_value(text)
    } else {
        raw_value(text)
    }
}

} // verus!
