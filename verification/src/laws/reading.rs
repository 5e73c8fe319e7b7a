//! What spellings of names and strings are read as, character by character and line by line.
use crate::laws::spelling::{begins_a_number, breaks_a_word};
use crate::scan::{lemma_run, lemma_run_from, run, Class};
use crate::strings::{
    all_space, block_text, break_len, closes, dedented_lines, element, hex_value, lines, lines_from,
    opens_block, optional_char, raw_body, string_value, unescaped, without_escaped_blanks,
};
use crate::syntax::{
    is_bare_name, is_blank, is_forbidden, is_name_char, is_newline, is_space,
};
use vstd::prelude::*;

verus! {

/// A character that ends a line.
pub open spec fn ends_a_line(c: char) -> bool {
    '\u{a}' <= c <= '\u{d}' || c == '\u{85}' || c == '\u{2028}' || c == '\u{2029}'
}

/// A blank that does not end a line.
pub open spec fn is_inline_blank(c: char) -> bool {
    ||| c == '\u{9}' || c == ' ' || c == '\u{a0}' || c == '\u{1680}'
    ||| '\u{2000}' <= c <= '\u{200a}' || c == '\u{202f}' || c == '\u{205f}' || c == '\u{3000}'
}

/// A character that may stand in no string but escaped.
pub open spec fn is_banned(c: char) -> bool {
    ||| c <= '\u{8}' || '\u{e}' <= c <= '\u{1f}' || c == '\u{7f}'
    ||| '\u{200e}' <= c <= '\u{200f}' || '\u{202a}' <= c <= '\u{202e}'
    ||| '\u{2066}' <= c <= '\u{2069}' || c == '\u{feff}'
}

/// What is read is `before` and then `after`, if `after` can be read.
pub open spec fn then_read(before: Seq<char>, after: Option<Seq<char>>) -> Option<Seq<char>> {
    match after {
        Some(after) => Some(before + after),
        None => None,
    }
}

/// A text that starts neither with a quote nor with a number sign is read as itself if it is one word,
/// and is no name and no string otherwise.
pub proof fn law_words_are_read_as_they_are(text: Seq<char>)
    requires
        text.len() > 0 ==> text[0] != '"' && text[0] != '#',
    ensures
        string_value(text) == (if text.len() > 0 && (forall|i: int|
            0 <= i < text.len() ==> !breaks_a_word(#[trigger] text[i])) && !begins_a_number(text)
            && text != "true"@ && text != "false"@ && text != "null"@ && text != "inf"@ && text
            != "-inf"@ && text != "nan"@ {
            Some(text)
        } else {
            None
        }),
{
    assert forall|i: int| 0 <= i < text.len() implies #[trigger] is_name_char(text[i])
        == !breaks_a_word(text[i]) by {}
    if is_bare_name(text) {
        assert forall|i: int| 0 <= i < text.len() implies !breaks_a_word(#[trigger] text[i]) by {
            assert(is_name_char(text[i]));
        }
    } else if forall|i: int| 0 <= i < text.len() ==> !breaks_a_word(#[trigger] text[i]) {
        assert forall|i: int| 0 <= i < text.len() implies is_name_char(#[trigger] text[i]) by {
            assert(!breaks_a_word(text[i]));
        }
    }
    assert(run(text, Class::Hash) == 0);
}

/// In a quoted string a character other than a backslash stands for itself. It cannot be one that may
/// only stand there escaped; nor, in a string on one line, a quote or the end of a line.
pub proof fn law_plain_characters_stand_for_themselves(c: char, rest: Seq<char>, one_line: bool)
    requires
        c != '\\',
    ensures
        unescaped(Seq::empty(), one_line) == Some(Seq::<char>::empty()),
        unescaped(seq![c] + rest, one_line) == (if is_banned(c) || (one_line && (c == '"'
            || ends_a_line(c))) {
            None
        } else {
            then_read(seq![c], unescaped(rest, one_line))
        }),
{
    let text = seq![c] + rest;
    assert(text[0] == c);
    assert(text.skip(1) =~= rest);
}

/// A backslash and one of the letters n, r, t, b, f, s, or a quote or another backslash, stand for one
/// character. A backslash before any other character that is neither blank nor the letter u, or before
/// nothing, cannot be read.
pub proof fn law_escapes_are_read(c: char, rest: Seq<char>, one_line: bool)
    requires
        c != 'u',
        !ends_a_line(c),
        !is_inline_blank(c),
    ensures
        unescaped(seq!['\\'], one_line) is None,
        unescaped(seq!['\\', c] + rest, one_line) == (if c == 'n' {
            then_read(seq!['\u{a}'], unescaped(rest, one_line))
        } else if c == 'r' {
            then_read(seq!['\u{d}'], unescaped(rest, one_line))
        } else if c == 't' {
            then_read(seq!['\u{9}'], unescaped(rest, one_line))
        } else if c == 'b' {
            then_read(seq!['\u{8}'], unescaped(rest, one_line))
        } else if c == 'f' {
            then_read(seq!['\u{c}'], unescaped(rest, one_line))
        } else if c == 's' {
            then_read(seq![' '], unescaped(rest, one_line))
        } else if c == '"' || c == '\\' {
            then_read(seq![c], unescaped(rest, one_line))
        } else {
            None
        }),
{
    let text = seq!['\\', c] + rest;
    assert(text[0] == '\\');
    assert(text[1] == c);
    assert(text.skip(2) =~= rest);
    assert(!is_blank(c));
}

/// A backslash and all blanks behind it, ends of lines among them, stand for nothing.
pub proof fn law_escaped_blanks_are_not_read(blanks: Seq<char>, rest: Seq<char>, one_line: bool)
    requires
        blanks.len() > 0,
        forall|i: int|
            0 <= i < blanks.len() ==> ends_a_line(#[trigger] blanks[i]) || is_inline_blank(blanks[i]),
        rest.len() > 0 ==> !ends_a_line(rest[0]) && !is_inline_blank(rest[0]),
    ensures
        unescaped(seq!['\\'] + blanks + rest, one_line) == unescaped(rest, one_line),
        without_escaped_blanks(seq!['\\'] + blanks + rest) == without_escaped_blanks(rest),
{
    let text = seq!['\\'] + blanks + rest;
    let n = blanks.len() as int;
    assert(text[0] == '\\');
    assert(text[1] == blanks[0]);
    assert(is_blank(blanks[0]));
    let behind = text.skip(1);
    assert(behind =~= blanks + rest);
    assert forall|i: int| 0 <= i < n implies Class::Blank.has(#[trigger] behind[i]) by {
        assert(behind[i] == blanks[i]);
    }
    lemma_run_from(behind, n, Class::Blank);
    assert(behind.skip(n) =~= rest);
    assert(run(rest, Class::Blank) == 0);
    assert(text.skip(1 + n) =~= rest);
    if let Some(after) = unescaped(rest, one_line) {
        assert(Seq::<char>::empty() + after =~= after);
        assert(optional_char(None) =~= Seq::empty());
    }
}

/// The value of hexadecimal digits: each further digit counts once, and what stands before it sixteen
/// times as much.
pub proof fn law_hexadecimal_digits_count(digits: Seq<char>, c: char)
    ensures
        hex_value(Seq::empty()) == 0,
        '0' <= c <= '9' ==> hex_value(digits.push(c)) == hex_value(digits) * 16 + (c as int
            - '0' as int),
        'a' <= c <= 'f' ==> hex_value(digits.push(c)) == hex_value(digits) * 16 + 10 + (c as int
            - 'a' as int),
        'A' <= c <= 'F' ==> hex_value(digits.push(c)) == hex_value(digits) * 16 + 10 + (c as int
            - 'A' as int),
{
    assert(digits.push(c).drop_last() =~= digits);
}

/// A character between `0` and `9`, `a` and `f`, or `A` and `F`.
pub open spec fn is_hexadecimal(c: char) -> bool {
    '0' <= c <= '9' || 'a' <= c <= 'f' || 'A' <= c <= 'F'
}

/// A backslash, the letter u and one to six hexadecimal digits in braces stand for the character with
/// that number. There has to be one, and the braces have to be there.
pub proof fn law_numbered_characters_are_read(
    digits: Seq<char>,
    c: char,
    brace: char,
    rest: Seq<char>,
    one_line: bool,
)
    requires
        forall|i: int| 0 <= i < digits.len() ==> is_hexadecimal(#[trigger] digits[i]),
        !is_hexadecimal(c),
    ensures
        unescaped(seq!['\\', 'u', '{'] + digits + seq![c] + rest, one_line) == (if c == '}' && 1
            <= digits.len() <= 6 && hex_value(digits) <= 0x10ffff && !(0xd800 <= hex_value(digits)
            <= 0xdfff) {
            then_read(seq![hex_value(digits) as char], unescaped(rest, one_line))
        } else {
            None
        }),
        unescaped(seq!['\\', 'u', '{'] + digits, one_line) is None,
        unescaped(seq!['\\', 'u'], one_line) is None,
        brace != '{' ==> unescaped(seq!['\\', 'u', brace] + rest, one_line) is None,
{
    let n = digits.len() as int;
    let text = seq!['\\', 'u', '{'] + digits + seq![c] + rest;
    assert(text[0] == '\\' && text[1] == 'u' && text[2] == '{');
    let behind = text.skip(3);
    assert(behind =~= digits + (seq![c] + rest));
    assert forall|i: int| 0 <= i < n implies Class::Hex.has(#[trigger] behind[i]) by {
        assert(behind[i] == digits[i]);
        assert(is_hexadecimal(digits[i]));
    }
    lemma_run_from(behind, n, Class::Hex);
    assert(behind.skip(n) =~= seq![c] + rest);
    assert((seq![c] + rest)[0] == c);
    assert(run(seq![c] + rest, Class::Hex) == 0);
    assert(text[n + 3] == c);
    assert(text.subrange(3, n + 3) =~= digits);
    assert(text.skip(n + 4) =~= rest);
    let open = seq!['\\', 'u', '{'] + digits;
    assert(open[0] == '\\' && open[1] == 'u' && open[2] == '{');
    assert(open.skip(3) =~= digits);
    assert forall|i: int| 0 <= i < n implies Class::Hex.has(#[trigger] digits[i]) by {
        assert(is_hexadecimal(digits[i]));
    }
    lemma_run_from(digits, n, Class::Hex);
    assert(digits.skip(n) =~= Seq::empty());
    assert(element(open, one_line) is None);
    let short = seq!['\\', 'u'];
    assert(element(short, one_line) is None);
    let bare = seq!['\\', 'u', brace] + rest;
    assert(bare[0] == '\\' && bare[1] == 'u' && bare[2] == brace);
    if brace != '{' {
        assert(element(bare, one_line) is None);
    }
}

/// What stands between two quotes on one line is read by its characters and escapes. What starts with
/// a quote and ends otherwise, or is a single quote, is no string.
pub proof fn law_quoted_strings_are_read(body: Seq<char>, text: Seq<char>)
    ensures
        body.len() == 0 || body[0] != '"' ==> string_value(seq!['"'] + body + seq!['"'])
            == unescaped(body, true),
        body.len() > 1 && body[0] == '"' && body[1] != '"' ==> string_value(
            seq!['"'] + body + seq!['"'],
        ) is None,
        string_value(seq!['"']) is None,
        text.len() > 0 && text[0] == '"' && text.last() != '"' ==> string_value(text) is None,
{
    let quoted = seq!['"'] + body + seq!['"'];
    let n = quoted.len() as int;
    assert(quoted[0] == '"' && quoted[n - 1] == '"');
    assert(!is_name_char('"'));
    assert(!is_bare_name(quoted)) by {
        assert(!is_name_char(quoted[0]));
    }
    assert(quoted.subrange(1, n - 1) =~= body);
    if body.len() > 0 {
        assert(quoted[1] == body[0]);
    }
    if body.len() > 1 {
        assert(quoted[2] == body[1]);
        if body[0] == '"' {
            assert(element(body, true) is None);
        }
    }
    let single = seq!['"'];
    assert(!is_bare_name(single)) by {
        assert(!is_name_char(single[0]));
    }
    if text.len() > 0 && text[0] == '"' && text.last() != '"' {
        assert(!is_bare_name(text)) by {
            assert(!is_name_char(text[0]));
        }
        if opens_block(text) && text.len() >= 6 {
            assert(text.skip(text.len() - 3)[2] == text.last());
        }
    }
}

/// What stands between three quotes and three quotes is read line by line, once blanks that a
/// backslash stands before are left out, and then by its characters and escapes.
pub proof fn law_quoted_blocks_are_read(body: Seq<char>, text: Seq<char>)
    ensures
        string_value(seq!['"', '"', '"'] + body + seq!['"', '"', '"']) == (
        match without_escaped_blanks(body) {
            Some(resolved) => match block_text(resolved) {
                Some(lines) => unescaped(lines, false),
                None => None,
            },
            None => None,
        }),
        text.len() >= 3 && text[0] == '"' && text[1] == '"' && text[2] == '"' && (text.len() < 6
            || text[text.len() - 1] != '"' || text[text.len() - 2] != '"' || text[text.len() - 3]
            != '"') ==> string_value(text) is None,
{
    let quoted = seq!['"', '"', '"'] + body + seq!['"', '"', '"'];
    let n = quoted.len() as int;
    assert(quoted[0] == '"' && quoted[1] == '"' && quoted[2] == '"');
    assert(!is_bare_name(quoted)) by {
        assert(!is_name_char(quoted[0]));
    }
    assert(opens_block(quoted));
    let tail = quoted.skip(n - 3);
    assert(tail =~= seq!['"', '"', '"']);
    assert(quoted.subrange(3, n - 3) =~= body);
    if text.len() >= 3 && text[0] == '"' {
        assert(!is_bare_name(text)) by {
            assert(!is_name_char(text[0]));
        }
        if text.len() >= 6 {
            let end = text.skip(text.len() - 3);
            assert(end[0] == text[text.len() - 3]);
            assert(end[1] == text[text.len() - 2]);
            assert(end[2] == text[text.len() - 1]);
        }
    }
}

/// Leaving out blanks behind a backslash leaves all else as it is: other escapes, and characters that
/// are not a backslash. Three quotes in a row cannot stand there.
pub proof fn law_all_else_is_kept_in_blocks(c: char, rest: Seq<char>)
    ensures
        without_escaped_blanks(Seq::empty()) == Some(Seq::<char>::empty()),
        without_escaped_blanks(seq!['\\']) is None,
        !ends_a_line(c) && !is_inline_blank(c) ==> without_escaped_blanks(seq!['\\', c] + rest)
            == then_read(seq!['\\', c], without_escaped_blanks(rest)),
        c != '\\' ==> without_escaped_blanks(seq![c] + rest) == (if c == '"' && rest.len() >= 2
            && rest[0] == '"' && rest[1] == '"' {
            None
        } else {
            then_read(seq![c], without_escaped_blanks(rest))
        }),
{
    let escape = seq!['\\', c] + rest;
    assert(escape[0] == '\\' && escape[1] == c);
    assert(escape.take(2) =~= seq!['\\', c]);
    assert(escape.skip(2) =~= rest);
    let plain = seq![c] + rest;
    assert(plain[0] == c);
    if rest.len() > 0 {
        assert(plain[1] == rest[0]);
    }
    if rest.len() > 1 {
        assert(plain[2] == rest[1]);
    }
    assert(plain.take(1) =~= seq![c]);
    assert(plain.skip(1) =~= rest);
}

/// Lines go on where they were cut off.
proof fn lemma_lines_continue(text: Seq<char>, current: Seq<char>)
    requires
        forall|i: int| 0 <= i < text.len() ==> !ends_a_line(#[trigger] text[i]),
    ensures
        lines_from(text, current) == seq![current + text],
    decreases text.len(),
{
    if text.len() > 0 {
        assert(!ends_a_line(text[0]));
        assert(break_len(text) == 0);
        assert forall|i: int| 0 <= i < text.skip(1).len() implies !ends_a_line(
            #[trigger] text.skip(1)[i],
        ) by {
            assert(!ends_a_line(text[i + 1]));
        }
        lemma_lines_continue(text.skip(1), current.push(text[0]));
        assert(current.push(text[0]) + text.skip(1) =~= current + text);
    } else {
        assert(current + text =~= current);
    }
}

/// Lines before the end of a line and lines after it are independent.
proof fn lemma_lines_split(
    before: Seq<char>,
    current: Seq<char>,
    end: Seq<char>,
    after: Seq<char>,
)
    requires
        forall|i: int| 0 <= i < before.len() ==> !ends_a_line(#[trigger] before[i]),
        end == seq!['\u{d}', '\u{a}'] || (end.len() == 1 && ends_a_line(end[0]) && !(end[0]
            == '\u{d}' && after.len() > 0 && after[0] == '\u{a}')),
    ensures
        lines_from(before + end + after, current) == seq![current + before] + lines_from(
            after,
            Seq::empty(),
        ),
    decreases before.len(),
{
    let text = before + end + after;
    if before.len() > 0 {
        assert(text[0] == before[0]);
        assert(!ends_a_line(before[0]));
        assert(break_len(text) == 0);
        let rest = before.skip(1);
        assert forall|i: int| 0 <= i < rest.len() implies !ends_a_line(#[trigger] rest[i]) by {
            assert(!ends_a_line(before[i + 1]));
        }
        lemma_lines_split(rest, current.push(before[0]), end, after);
        assert(text.skip(1) =~= rest + end + after);
        assert(current.push(before[0]) + rest =~= current + before);
    } else {
        assert(text =~= end + after);
        assert(text[0] == end[0]);
        if end.len() == 1 && text.len() > 1 {
            assert(text[1] == after[0]);
        } else if end.len() == 2 {
            assert(text[1] == end[1]);
        }
        assert(break_len(text) == end.len());
        assert(text.skip(end.len() as int) =~= after);
        assert(current + before =~= current);
    }
}

/// Text without the end of a line is one line. Text is cut at the end of its first line, which is one
/// of the characters that end a line or a carriage return with a line feed, and what comes behind is
/// cut into lines in the same way.
pub proof fn law_text_is_cut_into_lines(line: Seq<char>, end: Seq<char>, after: Seq<char>)
    requires
        forall|i: int| 0 <= i < line.len() ==> !ends_a_line(#[trigger] line[i]),
        end == seq!['\u{d}', '\u{a}'] || (end.len() == 1 && ends_a_line(end[0]) && !(end[0]
            == '\u{d}' && after.len() > 0 && after[0] == '\u{a}')),
    ensures
        lines(line) == seq![line],
        lines(line + end + after) == seq![line] + lines(after),
{
    lemma_lines_continue(line, Seq::empty());
    lemma_lines_split(line, Seq::empty(), end, after);
    assert(Seq::<char>::empty() + line =~= line);
}

/// A line of a block loses the blanks that the last line of the block consists of, and has to start
/// with them, unless it is blank altogether; then nothing is left of it. Lines are put together with a
/// line feed between them.
pub proof fn law_lines_lose_their_indentation(
    before: Seq<Seq<char>>,
    line: Seq<char>,
    indent: Seq<char>,
)
    ensures
        dedented_lines(Seq::empty(), indent) == Some(Seq::<char>::empty()),
        dedented_lines(before.push(line), indent) == (match dedented_lines(before, indent) {
            Some(text) => {
                let left = if forall|i: int| 0 <= i < line.len() ==> is_inline_blank(
                    #[trigger] line[i],
                ) {
                    Some(Seq::<char>::empty())
                } else if indent.len() <= line.len() && line.take(indent.len() as int) == indent {
                    Some(line.skip(indent.len() as int))
                } else {
                    None
                };
                match left {
                    Some(left) => Some(
                        if before.len() == 0 {
                            left
                        } else {
                            text + seq!['\u{a}'] + left
                        },
                    ),
                    None => None,
                }
            },
            None => None,
        }),
{
    assert(before.push(line).drop_last() =~= before);
    assert(before.push(line).last() == line);
    lemma_all_space(line);
}

/// What a line of blanks is.
proof fn lemma_all_space(line: Seq<char>)
    ensures
        all_space(line) <==> forall|i: int| 0 <= i < line.len() ==> is_inline_blank(
            #[trigger] line[i],
        ),
{
    assert forall|c: char| #[trigger] is_space(c) == is_inline_blank(c) by {}
    if all_space(line) {
        assert forall|i: int| 0 <= i < line.len() implies is_inline_blank(#[trigger] line[i]) by {
            assert(is_space(line[i]));
        }
    } else {
        let i = choose|i: int| 0 <= i < line.len() && !is_space(#[trigger] line[i]);
        assert(!is_inline_blank(line[i]));
    }
}

/// A block starts with the end of a line. Its last line is blank and gives the indentation; the lines
/// between the first and the last are its text.
pub proof fn law_blocks_are_read_by_their_lines(text: Seq<char>)
    ensures
        block_text(text) == (if text.len() > 0 && ends_a_line(text[0]) && (forall|i: int|
            0 <= i < lines(text).last().len() ==> is_inline_blank(
                #[trigger] lines(text).last()[i],
            )) {
            dedented_lines(
                lines(text).subrange(1, lines(text).len() - 1),
                lines(text).last(),
            )
        } else {
            None
        }),
{
    lemma_all_space(lines(text).last());
}

/// `n` number signs.
pub open spec fn number_signs(n: nat) -> Seq<char> {
    Seq::new(n, |i: int| '#')
}

/// `n` quotes.
pub open spec fn quotes_in_a_row(n: nat) -> Seq<char> {
    Seq::new(n, |i: int| '"')
}

/// A raw string: `n` number signs and `quotes` quotes, the body, the quotes and the number signs.
pub open spec fn raw_text(n: nat, quotes: nat, body: Seq<char>) -> Seq<char> {
    number_signs(n) + (quotes_in_a_row(quotes) + body + quotes_in_a_row(quotes) + number_signs(n))
}

/// The delimiter that would end a raw string stands in its body: `quotes` quotes and `n` number signs.
pub open spec fn is_closed_in(body: Seq<char>, quotes: nat, n: nat) -> bool {
    exists|i: int|
        0 <= i && i + quotes + n <= body.len() && #[trigger] body.subrange(i, i + quotes + n)
            == quotes_in_a_row(quotes) + number_signs(n)
}

/// A character that may not stand in a raw string stands in it.
pub open spec fn holds_a_banned_character(body: Seq<char>) -> bool {
    exists|i: int| 0 <= i < body.len() && is_banned(#[trigger] body[i])
}

/// The number signs in front of a raw string.
proof fn lemma_signs_in_front(n: nat, rest: Seq<char>)
    requires
        rest.len() > 0,
        rest[0] != '#',
    ensures
        run(number_signs(n) + rest, Class::Hash) == n,
        n > 0 ==> !is_bare_name(number_signs(n) + rest) && (number_signs(n) + rest)[0] == '#',
{
    let text = number_signs(n) + rest;
    assert forall|i: int| 0 <= i < n implies Class::Hash.has(#[trigger] text[i]) by {
        assert(text[i] == number_signs(n)[i]);
    }
    lemma_run_from(text, n as int, Class::Hash);
    assert(text.skip(n as int) =~= rest);
    assert(run(rest, Class::Hash) == 0);
    if n > 0 {
        assert(text[0] == number_signs(n)[0]);
        assert(!is_name_char(text[0]));
    }
}

/// Where the characters of a raw string stand.
proof fn lemma_raw_text(n: nat, quotes: nat, body: Seq<char>)
    ensures
        ({
            let text = raw_text(n, quotes, body);
            let first = n + quotes;
            let last = first + body.len();
            &&& text.len() == last + quotes + n
            &&& forall|i: int| 0 <= i < n ==> #[trigger] text[i] == '#'
            &&& forall|i: int| n <= i < first ==> #[trigger] text[i] == '"'
            &&& forall|i: int| first <= i < last ==> #[trigger] text[i] == body[i - first]
            &&& forall|i: int| last <= i < last + quotes ==> #[trigger] text[i] == '"'
            &&& forall|i: int| last + quotes <= i < text.len() ==> #[trigger] text[i] == '#'
            &&& text.subrange(first as int, last as int) == body
        }),
{
    let text = raw_text(n, quotes, body);
    let first = n + quotes;
    assert(text.subrange(first as int, (first + body.len()) as int) =~= body);
}

/// Where the closing delimiter stands in a raw string before its end, it stands in the body.
proof fn lemma_closed_in_body(n: nat, quotes: nat, body: Seq<char>, i: int)
    requires
        n > 0,
        quotes > 0,
        0 <= i < body.len(),
    ensures
        closes(raw_text(n, quotes, body).skip(n + quotes + i), quotes as int, n as int) <==> i
            + quotes + n <= body.len() && body.subrange(i, i + quotes + n) == quotes_in_a_row(
            quotes,
        ) + number_signs(n),
{
    let text = raw_text(n, quotes, body);
    let first = (n + quotes) as int;
    let last = first + body.len();
    let here = text.skip(first + i);
    let delimiter = quotes_in_a_row(quotes) + number_signs(n);
    lemma_raw_text(n, quotes, body);
    if closes(here, quotes as int, n as int) {
        if i + quotes + n > body.len() {
            // One of the number signs would have to be a quote of the delimiter at the end.
            if i + quotes <= body.len() {
                let k = body.len() - i;
                assert(here[k] == text[last]);
                assert(here[k] == '#');
                assert(text[last] == '"');
            } else {
                let k = quotes as int;
                assert(here[k] == text[first + i + k]);
                assert(here[k] == '#');
                assert(text[first + i + k] == '"');
            }
        }
        let part = body.subrange(i, i + quotes + n);
        assert forall|k: int| 0 <= k < quotes + n implies part[k] == delimiter[k] by {
            assert(here[k] == text[first + i + k]);
            assert(text[first + i + k] == body[i + k]);
        }
        assert(part =~= delimiter);
    } else if i + quotes + n <= body.len() && body.subrange(i, i + quotes + n) == delimiter {
        let part = body.subrange(i, i + quotes + n);
        assert forall|k: int| 0 <= k < quotes implies #[trigger] here[k] == '"' by {
            assert(part[k] == delimiter[k]);
            assert(here[k] == text[first + i + k]);
            assert(text[first + i + k] == body[i + k]);
        }
        assert forall|k: int| quotes <= k < quotes + n implies #[trigger] here[k] == '#' by {
            assert(part[k] == delimiter[k]);
            assert(here[k] == text[first + i + k]);
            assert(text[first + i + k] == body[i + k]);
        }
        assert(closes(here, quotes as int, n as int));
    }
}

/// The body of a raw string can be read unless its delimiter or a banned character stands in it.
proof fn lemma_raw_body(n: nat, quotes: nat, body: Seq<char>)
    requires
        n > 0,
        quotes > 0,
    ensures
        raw_body(raw_text(n, quotes, body), quotes as int, n as int) == (if is_closed_in(
            body,
            quotes,
            n,
        ) || holds_a_banned_character(body) {
            None
        } else {
            Some(body)
        }),
{
    let text = raw_text(n, quotes, body);
    let first = (n + quotes) as int;
    let last = first + body.len();
    lemma_raw_text(n, quotes, body);
    let tail = text.skip(last);
    assert forall|k: int| 0 <= k < quotes implies #[trigger] tail[k] == '"' by {
        assert(tail[k] == text[last + k]);
    }
    assert forall|k: int| quotes <= k < quotes + n implies #[trigger] tail[k] == '#' by {
        assert(tail[k] == text[last + k]);
    }
    assert(closes(tail, quotes as int, n as int));
    if is_closed_in(body, quotes, n) {
        let i = choose|i: int|
            0 <= i && i + quotes + n <= body.len() && #[trigger] body.subrange(i, i + quotes + n)
                == quotes_in_a_row(quotes) + number_signs(n);
        lemma_closed_in_body(n, quotes, body, i);
        assert(closes(text.skip(first + i), quotes as int, n as int));
    } else if holds_a_banned_character(body) {
        let i = choose|i: int| 0 <= i < body.len() && is_banned(#[trigger] body[i]);
        assert(text[first + i] == body[i]);
        let here = text.skip(first + i);
        assert(is_forbidden(text[first + i]));
    } else {
        assert forall|i: int| first <= i < last implies !closes(
            #[trigger] text.skip(i),
            quotes as int,
            n as int,
        ) && !is_forbidden(text[i]) by {
            lemma_closed_in_body(n, quotes, body, i - first);
            assert(text[i] == body[i - first]);
            if closes(text.skip(i), quotes as int, n as int) {
                let at = i - first;
                assert(body.subrange(at, at + quotes + n) == quotes_in_a_row(quotes)
                    + number_signs(n));
            }
            assert(!is_banned(body[i - first]));
        }
    }
}

/// A raw string on one line is read as what stands between its delimiters: number signs and a quote,
/// and a quote and as many number signs. The delimiter itself, the end of a line and banned
/// characters cannot stand there.
pub proof fn law_raw_strings_are_read(n: nat, body: Seq<char>)
    requires
        n > 0,
        body != seq!['"'],
        !(body.len() >= 2 && body[0] == '"' && body[1] == '"'),
    ensures
        string_value(raw_text(n, 1, body)) == (if is_closed_in(body, 1, n)
            || holds_a_banned_character(body) || (exists|i: int|
            0 <= i < body.len() && ends_a_line(#[trigger] body[i])) {
            None
        } else {
            Some(body)
        }),
{
    let text = raw_text(n, 1, body);
    lemma_raw_text(n, 1, body);
    lemma_raw_body(n, 1, body);
    let rest = quotes_in_a_row(1) + body + quotes_in_a_row(1) + number_signs(n);
    assert(rest[0] == '"');
    lemma_signs_in_front(n, rest);
    let marked = text.skip(n as int);
    assert(text[n as int] == '"');
    assert(!opens_block(marked)) by {
        if opens_block(marked) {
            assert(marked[1] == text[n as int + 1]);
            assert(marked[2] == text[n as int + 2]);
            if body.len() == 0 {
                assert(text[n as int + 2] == '#');
            } else if body.len() == 1 {
                assert(text[n as int + 1] == body[0]);
                assert(body =~= seq!['"']);
            } else {
                assert(text[n as int + 1] == body[0]);
                assert(text[n as int + 2] == body[1]);
            }
        }
    }
    assert forall|c: char| #[trigger] is_newline(c) == ends_a_line(c) by {}
    if exists|i: int| 0 <= i < body.len() && ends_a_line(#[trigger] body[i]) {
        let i = choose|i: int| 0 <= i < body.len() && ends_a_line(#[trigger] body[i]);
        assert(is_newline(body[i]));
    }
}

/// A raw string on several lines is read line by line. Its delimiter and banned characters cannot
/// stand there.
pub proof fn law_raw_blocks_are_read(n: nat, body: Seq<char>)
    requires
        n > 0,
    ensures
        string_value(raw_text(n, 3, body)) == (if is_closed_in(body, 3, n)
            || holds_a_banned_character(body) {
            None
        } else {
            block_text(body)
        }),
{
    let text = raw_text(n, 3, body);
    lemma_raw_text(n, 3, body);
    lemma_raw_body(n, 3, body);
    let rest = quotes_in_a_row(3) + body + quotes_in_a_row(3) + number_signs(n);
    assert(rest[0] == '"');
    lemma_signs_in_front(n, rest);
    let marked = text.skip(n as int);
    assert(marked[0] == text[n as int]);
    assert(marked[1] == text[n as int + 1]);
    assert(marked[2] == text[n as int + 2]);
}

/// What starts with a number sign and is a string is a raw string on one line or on several, and on
/// several if three quotes stand behind the number signs.
pub proof fn law_raw_strings_have_their_delimiters(text: Seq<char>)
    requires
        text.len() > 0,
        text[0] == '#',
        string_value(text) is Some,
    ensures
        exists|n: nat, quotes: nat, body: Seq<char>|
            n > 0 && (quotes == 1 || quotes == 3) && text == #[trigger] raw_text(n, quotes, body)
                && (quotes == 1 ==> body != seq!['"'] && !(body.len() >= 2 && body[0] == '"'
                && body[1] == '"')),
{
    assert(!is_bare_name(text)) by {
        assert(!is_name_char(text[0]));
    }
    let n = run(text, Class::Hash);
    lemma_run(text, Class::Hash);
    let quotes: nat = if opens_block(text.skip(n as int)) {
        3
    } else {
        1
    };
    let first = (n + quotes) as int;
    let last = text.len() - first;
    assert(raw_body(text, quotes as int, n as int) is Some);
    let body = text.subrange(first, last);
    let whole = raw_text(n, quotes, body);
    lemma_raw_text(n, quotes, body);
    let tail = text.skip(last);
    assert forall|i: int| 0 <= i < text.len() implies text[i] == whole[i] by {
        if i < n {
            assert(Class::Hash.has(text[i]));
        } else if i < first {
            assert(text.skip(n as int)[i - n] == text[i]);
        } else if i >= last {
            assert(tail[i - last] == text[i]);
        }
    }
    assert(text =~= whole);
    if quotes == 1 {
        let marked = text.skip(n as int);
        assert(marked[0] == text[n as int]);
        assert(body.len() >= 1 ==> marked[1] == body[0]);
        assert(body.len() >= 2 ==> marked[2] == body[1]);
        assert(body.len() == 1 ==> marked[2] == text[n as int + 2]);
    }
}

} // verus!
