//! Reading strings as the grammar in `strings` says.
use crate::scan::{hex, lemma_run, run, run_at, Class};
use crate::strings::{
    all_space, block_text, break_len, closes, dedented, dedented_lines, element, hex_value,
    lemma_dedented_prefix, lemma_element, lemma_prepend, lemma_prepend_twice, lines, lines_from,
    named_escape, numbered_escape, opens_block, optional_char, prepend, quoted_value, raw_body,
    raw_value, string_value, unescaped, without_escaped_blanks,
};
use crate::syntax::{
    bare_name, blank, forbidden, is_forbidden, is_newline, is_space, newline, space,
};
use vstd::prelude::*;
use vstd::slice::{slice_subrange, slice_to_vec};

verus! {

/// Makes a `char` of its number, as [`char::from_u32`] does: `None` for a number that is above
/// U+10FFFF or in the surrogate range, and otherwise the character with that number.
pub assume_specification[ char::from_u32 ](i: u32) -> (result: Option<char>)
    ensures
        result == (if i <= 0x10ffff && !(0xd800 <= i <= 0xdfff) {
            Some(i as char)
        } else {
            None::<char>
        }),
;

/// What the character after a backslash makes of the two.
fn named(c: char) -> (result: Option<char>)
    ensures
        result == named_escape(c),
{
    match c {
        'n' => Some('\u{a}'),
        'r' => Some('\u{d}'),
        't' => Some('\u{9}'),
        'b' => Some('\u{8}'),
        'f' => Some('\u{c}'),
        's' => Some(' '),
        '"' => Some('"'),
        '\\' => Some('\\'),
        _ => None,
    }
}

/// Reads a character escaped by its number.
fn numbered(text: &[char]) -> (result: Option<(Option<char>, usize)>)
    ensures
        match result {
            Some((c, n)) => numbered_escape(text@) == Some((c, n as int)),
            None => numbered_escape(text@) is None,
        },
{
    if text.len() < 3 || text[2] != '{' {
        return None;
    }
    let n: usize = run_at(text, 3, Class::Hex);
    if n < 1 || n > 6 || text.len() - n <= 3 || text[n + 3] != '}' {
        return None;
    }
    let ghost digits = text@.subrange(3, n + 3);
    let mut value: u32 = 0;
    let mut i: usize = 0;
    proof {
        lemma_run(text@.skip(3), Class::Hex);
    }
    while i < n
        invariant
            n <= 6,
            i <= n,
            n + 3 < text@.len(),
            digits == text@.subrange(3, n + 3),
            forall|j: int| 0 <= j < n ==> Class::Hex.has(#[trigger] text@.skip(3)[j]),
            value == hex_value(digits.take(i as int)),
            i == 0 ==> value < 1,
            i == 1 ==> value < 0x10,
            i == 2 ==> value < 0x100,
            i == 3 ==> value < 0x1000,
            i == 4 ==> value < 0x1_0000,
            i == 5 ==> value < 0x10_0000,
            i == 6 ==> value < 0x100_0000,
        decreases n - i,
    {
        assert(Class::Hex.has(text@.skip(3)[i as int]));
        assert(digits.take(i + 1).drop_last() =~= digits.take(i as int));
        assert(digits.take(i + 1).last() == text@[i + 3]);
        match hex(text[i + 3]) {
            Some(digit) => {
                value = value * 16 + digit;
            },
            None => {},
        }
        i = i + 1;
    }
    assert(digits.take(n as int) =~= digits);
    match char::from_u32(value) {
        Some(c) => Some((Some(c), n + 4)),
        None => None,
    }
}

/// Reads the first element of a string body.
fn first_element(text: &[char], one_line: bool) -> (result: Option<(Option<char>, usize)>)
    requires
        text@.len() > 0,
    ensures
        match result {
            Some((c, n)) => element(text@, one_line) == Some((c, n as int)) && 0 < n
                <= text@.len(),
            None => element(text@, one_line) is None,
        },
{
    proof {
        lemma_element(text@, one_line);
    }
    let c: char = text[0];
    if c == '\\' {
        if text.len() < 2 {
            None
        } else {
            match named(text[1]) {
                Some(c) => Some((Some(c), 2)),
                None => {
                    if text[1] == 'u' {
                        numbered(text)
                    } else if blank(text[1]) {
                        let n: usize = run_at(text, 1, Class::Blank);
                        Some((None, 1 + n))
                    } else {
                        None
                    }
                },
            }
        }
    } else if forbidden(c) || (one_line && (c == '"' || newline(c))) {
        None
    } else {
        Some((Some(c), 1))
    }
}

/// A reading result by its characters.
pub open spec fn reading(result: Option<Vec<char>>) -> Option<Seq<char>> {
    match result {
        Some(chars) => Some(chars@),
        None => None,
    }
}

/// Reads the body of a quoted string.
fn unescape(text: &[char], one_line: bool) -> (result: Option<Vec<char>>)
    ensures
        reading(result) == unescaped(text@, one_line),
{
    let mut out: Vec<char> = Vec::new();
    let mut i: usize = 0;
    proof {
        assert(text@.skip(0) =~= text@);
        lemma_prepend(Seq::empty(), unescaped(text@, one_line));
    }
    while i < text.len()
        invariant
            i <= text@.len(),
            unescaped(text@, one_line) == prepend(out@, unescaped(text@.skip(i as int), one_line)),
        decreases text@.len() - i,
    {
        let rest: &[char] = slice_subrange(text, i, text.len());
        assert(rest@ =~= text@.skip(i as int));
        match first_element(rest, one_line) {
            Some((c, n)) => {
                proof {
                    assert(rest@.skip(n as int) =~= text@.skip(i + n));
                    lemma_prepend_twice(
                        out@,
                        optional_char(c),
                        unescaped(text@.skip(i + n), one_line),
                    );
                }
                match c {
                    Some(c) => {
                        proof {
                            assert(out@ + seq![c] =~= out@.push(c));
                        }
                        out.push(c);
                    },
                    None => {
                        assert(out@ + optional_char(c) =~= out@);
                    },
                }
                i = i + n;
            },
            None => {
                return None;
            },
        }
    }
    assert(text@.skip(i as int) =~= Seq::empty());
    assert(out@ + Seq::<char>::empty() =~= out@);
    Some(out)
}

/// How many characters the line break at `from` takes.
fn break_at(text: &[char], from: usize) -> (n: usize)
    requires
        from <= text@.len(),
    ensures
        n == break_len(text@.skip(from as int)),
        from + n <= text@.len(),
{
    if text.len() - from >= 2 && text[from] == '\u{d}' && text[from + 1] == '\u{a}' {
        2
    } else if text.len() - from >= 1 && newline(text[from]) {
        1
    } else {
        0
    }
}

/// What lines hold.
pub open spec fn line_views(lines: Seq<Vec<char>>) -> Seq<Seq<char>> {
    lines.map_values(|line: Vec<char>| line@)
}

/// Splits `text` into lines.
fn split_lines(text: &[char]) -> (result: Vec<Vec<char>>)
    ensures
        line_views(result@) == lines(text@),
        result@.len() > 0,
        break_len(text@) > 0 ==> result@.len() > 1,
{
    let mut done: Vec<Vec<char>> = Vec::new();
    let mut current: Vec<char> = Vec::new();
    let mut i: usize = 0;
    proof {
        assert(text@.skip(0) =~= text@);
        assert(line_views(done@) + lines_from(text@, current@) =~= lines(text@));
    }
    while i < text.len()
        invariant
            i <= text@.len(),
            line_views(done@) + lines_from(text@.skip(i as int), current@) == lines(text@),
            i > 0 && break_len(text@) > 0 ==> done@.len() > 0,
        decreases text@.len() - i,
    {
        let ghost rest = text@.skip(i as int);
        let ghost before = done@;
        let n: usize = break_at(text, i);
        if n > 0 {
            let ghost ended = current@;
            proof {
                assert(rest.skip(n as int) =~= text@.skip(i + n));
            }
            done.push(current);
            current = Vec::new();
            proof {
                assert(line_views(done@) =~= line_views(before).push(ended));
                assert(line_views(done@) + lines_from(text@.skip(i + n), current@)
                    =~= line_views(before) + (seq![ended] + lines_from(
                    text@.skip(i + n),
                    Seq::empty(),
                )));
            }
            i = i + n;
        } else {
            proof {
                assert(rest.skip(1) =~= text@.skip(i + 1));
            }
            current.push(text[i]);
            i = i + 1;
        }
    }
    let ghost before = done@;
    let ghost ended = current@;
    proof {
        assert(text@.skip(i as int) =~= Seq::empty());
    }
    done.push(current);
    assert(line_views(done@) =~= line_views(before) + seq![ended]);
    done
}

/// Whether a line holds spaces only.
fn only_space(line: &[char]) -> (yes: bool)
    ensures
        yes == all_space(line@),
{
    let mut i: usize = 0;
    while i < line.len()
        invariant
            i <= line@.len(),
            forall|j: int| 0 <= j < i ==> is_space(#[trigger] line@[j]),
        decreases line@.len() - i,
    {
        if !space(line[i]) {
            assert(!is_space(line@[i as int]));
            return false;
        }
        i = i + 1;
    }
    true
}

/// Whether `line` starts with `indent`.
fn starts_with(line: &[char], indent: &[char]) -> (yes: bool)
    ensures
        yes == (indent@.len() <= line@.len() && line@.take(indent@.len() as int) == indent@),
{
    if indent.len() > line.len() {
        return false;
    }
    let mut i: usize = 0;
    while i < indent.len()
        invariant
            indent@.len() <= line@.len(),
            i <= indent@.len(),
            forall|j: int| 0 <= j < i ==> line@[j] == indent@[j],
        decreases indent@.len() - i,
    {
        if line[i] != indent[i] {
            assert(line@.take(indent@.len() as int)[i as int] != indent@[i as int]);
            return false;
        }
        i = i + 1;
    }
    assert(line@.take(indent@.len() as int) =~= indent@);
    true
}

/// Appends a line without its indentation; tells whether the line has that indentation.
fn push_dedented(out: &mut Vec<char>, line: &[char], indent: &[char]) -> (done: bool)
    ensures
        done == (dedented(line@, indent@) is Some),
        dedented(line@, indent@) matches Some(rest) ==> final(out)@ == old(out)@ + rest,
{
    if only_space(line) {
        assert(out@ + Seq::<char>::empty() =~= out@);
        return true;
    }
    if !starts_with(line, indent) {
        return false;
    }
    let ghost rest = line@.skip(indent@.len() as int);
    let mut i: usize = indent.len();
    assert(out@ =~= old(out)@ + rest.take(0));
    while i < line.len()
        invariant
            indent@.len() <= i <= line@.len(),
            rest == line@.skip(indent@.len() as int),
            out@ == old(out)@ + rest.take(i - indent@.len()),
        decreases line@.len() - i,
    {
        proof {
            assert(rest.take(i + 1 - indent@.len()) =~= rest.take(i - indent@.len()).push(
                line@[i as int],
            ));
        }
        out.push(line[i]);
        assert(out@ =~= old(out)@ + rest.take(i + 1 - indent@.len()));
        i = i + 1;
    }
    assert(rest.take(rest.len() as int) =~= rest);
    true
}

/// Reads the text of a string on several lines.
fn block(text: &[char]) -> (result: Option<Vec<char>>)
    ensures
        reading(result) == block_text(text@),
{
    let first_break: usize = break_at(text, 0);
    assert(text@.skip(0) =~= text@);
    if first_break == 0 {
        return None;
    }
    let all: Vec<Vec<char>> = split_lines(text);
    let ghost views = line_views(all@);
    let last: usize = all.len() - 1;
    let indent: &[char] = all[last].as_slice();
    assert(views[last as int] == indent@);
    if !only_space(indent) {
        return None;
    }
    let ghost body = views.subrange(1, last as int);
    let mut out: Vec<char> = Vec::new();
    let mut i: usize = 1;
    assert(body.take(0) =~= Seq::empty());
    while i < last
        invariant
            1 <= i <= last,
            last + 1 == all@.len(),
            views == line_views(all@),
            views == lines(text@),
            break_len(text@) > 0,
            indent@ == views.last(),
            all_space(indent@),
            body == views.subrange(1, last as int),
            dedented_lines(body.take(i - 1), indent@) == Some(out@),
        decreases last - i,
    {
        let ghost before = out@;
        proof {
            assert(body.take(i as int).drop_last() =~= body.take(i - 1));
            assert(body.take(i as int).last() == all@[i as int]@);
        }
        if i > 1 {
            out.push('\u{a}');
            assert(out@ =~= before + seq!['\u{a}']);
        } else {
            assert(body.take(i - 1) =~= Seq::empty());
        }
        if !push_dedented(&mut out, all[i].as_slice(), indent) {
            proof {
                lemma_dedented_prefix(body, indent@, i as int);
            }
            return None;
        }
        proof {
            if i == 1 {
                assert(out@ =~= dedented(all@[1]@, indent@)->0);
            }
        }
        i = i + 1;
    }
    assert(body.take(last - 1) =~= body);
    Some(out)
}

/// Whether three quotes stand in `text` at `from`.
fn block_opens(text: &[char], from: usize) -> (yes: bool)
    requires
        from <= text@.len(),
    ensures
        yes == opens_block(text@.skip(from as int)),
{
    text.len() - from >= 3 && text[from] == '"' && text[from + 1] == '"' && text[from + 2] == '"'
}

/// Reads the body of a quoted string on several lines up to its escaped runs of blanks.
fn drop_escaped_blanks(text: &[char]) -> (result: Option<Vec<char>>)
    ensures
        reading(result) == without_escaped_blanks(text@),
{
    let mut out: Vec<char> = Vec::new();
    let mut i: usize = 0;
    proof {
        assert(text@.skip(0) =~= text@);
        lemma_prepend(Seq::empty(), without_escaped_blanks(text@));
    }
    while i < text.len()
        invariant
            i <= text@.len(),
            without_escaped_blanks(text@) == prepend(
                out@,
                without_escaped_blanks(text@.skip(i as int)),
            ),
        decreases text@.len() - i,
    {
        let ghost rest = text@.skip(i as int);
        if text[i] == '\\' {
            if text.len() - i < 2 {
                return None;
            }
            if blank(text[i + 1]) {
                assert(rest.skip(1) =~= text@.skip(i + 1));
                let n: usize = run_at(text, i + 1, Class::Blank);
                assert(rest.skip(1 + n) =~= text@.skip(i + 1 + n));
                i = i + 1 + n;
            } else {
                proof {
                    assert(rest.skip(2) =~= text@.skip(i + 2));
                    lemma_prepend_twice(
                        out@,
                        rest.take(2),
                        without_escaped_blanks(text@.skip(i + 2)),
                    );
                    assert(out@ + rest.take(2) =~= out@.push(text@[i as int]).push(text@[i + 1]));
                }
                out.push(text[i]);
                out.push(text[i + 1]);
                i = i + 2;
            }
        } else if block_opens(text, i) {
            return None;
        } else {
            proof {
                assert(rest.skip(1) =~= text@.skip(i + 1));
                lemma_prepend_twice(out@, rest.take(1), without_escaped_blanks(text@.skip(i + 1)));
                assert(out@ + rest.take(1) =~= out@.push(text@[i as int]));
            }
            out.push(text[i]);
            i = i + 1;
        }
    }
    assert(text@.skip(i as int) =~= Seq::empty());
    assert(out@ + Seq::<char>::empty() =~= out@);
    Some(out)
}

/// Reads a text that starts with a quote.
fn read_quoted(text: &[char]) -> (result: Option<Vec<char>>)
    ensures
        reading(result) == quoted_value(text@),
{
    let n: usize = text.len();
    assert(text@.skip(0) =~= text@);
    if block_opens(text, 0) {
        if n < 6 || !block_opens(text, n - 3) {
            return None;
        }
        match drop_escaped_blanks(slice_subrange(text, 3, n - 3)) {
            Some(resolved) => match block(resolved.as_slice()) {
                Some(body) => unescape(body.as_slice(), false),
                None => None,
            },
            None => None,
        }
    } else if n >= 2 && text[n - 1] == '"' {
        unescape(slice_subrange(text, 1, n - 1), true)
    } else {
        None
    }
}

/// Whether `quotes` quotes and `marks` number signs stand in `text` at `from`.
fn closes_at(text: &[char], from: usize, quotes: usize, marks: usize) -> (yes: bool)
    requires
        from <= text@.len(),
        quotes + marks <= text@.len(),
    ensures
        yes == closes(text@.skip(from as int), quotes as int, marks as int),
{
    let ghost rest = text@.skip(from as int);
    let length: usize = text.len();
    let total: usize = quotes + marks;
    if length - from < total {
        return false;
    }
    let mut i: usize = 0;
    while i < total
        invariant
            i <= total,
            total == quotes + marks,
            from + total <= text.len(),
            rest == text@.skip(from as int),
            forall|j: int| 0 <= j < i && j < quotes ==> #[trigger] rest[j] == '"',
            forall|j: int| quotes <= j < i ==> #[trigger] rest[j] == '#',
        decreases total - i,
    {
        let c: char = text[from + i];
        assert(rest[i as int] == c);
        if i < quotes {
            if c != '"' {
                return false;
            }
        } else if c != '#' {
            return false;
        }
        i = i + 1;
    }
    true
}

/// Finds the body of a raw string between its delimiters.
fn find_raw_body<'a>(text: &'a [char], quotes: usize, marks: usize) -> (result: Option<&'a [char]>)
    requires
        quotes + marks <= text@.len(),
    ensures
        match result {
            Some(body) => raw_body(text@, quotes as int, marks as int) == Some(body@),
            None => raw_body(text@, quotes as int, marks as int) is None,
        },
{
    let length: usize = text.len();
    let first: usize = quotes + marks;
    if length - first < first {
        return None;
    }
    let last: usize = length - first;
    if !closes_at(text, last, quotes, marks) {
        return None;
    }
    let mut i: usize = first;
    while i < last
        invariant
            first == quotes + marks,
            last == text@.len() - first,
            first <= i <= last,
            forall|j: int|
                first <= j < i ==> !closes(#[trigger] text@.skip(j), quotes as int, marks as int)
                    && !is_forbidden(text@[j]),
        decreases last - i,
    {
        let closed: bool = closes_at(text, i, quotes, marks);
        if closed || forbidden(text[i]) {
            assert(closes(text@.skip(i as int), quotes as int, marks as int) || is_forbidden(
                text@[i as int],
            ));
            return None;
        }
        assert forall|j: int| first <= j < i + 1 implies !closes(
            #[trigger] text@.skip(j),
            quotes as int,
            marks as int,
        ) && !is_forbidden(text@[j]) by {
            if j == i {
                assert(text@.skip(j) == text@.skip(i as int));
            }
        }
        i = i + 1;
    }
    Some(slice_subrange(text, first, last))
}

/// Reads a text that starts with number signs.
fn read_raw(text: &[char]) -> (result: Option<Vec<char>>)
    ensures
        reading(result) == raw_value(text@),
{
    assert(text@.skip(0) =~= text@);
    let marks: usize = run_at(text, 0, Class::Hash);
    if marks == 0 || text.len() <= marks || text[marks] != '"' {
        return None;
    }
    if block_opens(text, marks) {
        return match find_raw_body(text, 3, marks) {
            Some(body) => block(body),
            None => None,
        };
    }
    match find_raw_body(text, 1, marks) {
        Some(body) => {
            let mut out: Vec<char> = Vec::new();
            let mut i: usize = 0;
            while i < body.len()
                invariant
                    i <= body@.len(),
                    raw_body(text@, 1, marks as int) == Some(body@),
                    marks == run(text@, Class::Hash),
                    marks > 0,
                    !opens_block(text@.skip(marks as int)),
                    out@ == body@.take(i as int),
                    forall|j: int| 0 <= j < i ==> !is_newline(#[trigger] body@[j]),
                decreases body@.len() - i,
            {
                if newline(body[i]) {
                    assert(is_newline(body@[i as int]));
                    return None;
                }
                assert(body@.take(i + 1) =~= body@.take(i as int).push(body@[i as int]));
                out.push(body[i]);
                i = i + 1;
            }
            assert(body@.take(i as int) =~= body@);
            Some(out)
        },
        None => None,
    }
}

/// Reads a string.
pub(crate) fn read_string(text: &[char]) -> (result: Option<Vec<char>>)
    ensures
        reading(result) == string_value(text@),
{
    if bare_name(text) {
        Some(slice_to_vec(text))
    } else if text.len() > 0 && text[0] == '"' {
        read_quoted(text)
    } else {
        read_raw(text)
    }
}

} // verus!
