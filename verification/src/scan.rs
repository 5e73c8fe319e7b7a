//! Runs of characters of one class.
use crate::syntax::{blank, digit, is_blank, is_digit};
use vstd::prelude::*;

verus! {

/// A class of characters that are read as a run.
#[derive(Debug, Clone, Copy, PartialEq, Eq, Structural)]
pub enum Class {
    /// Spaces and newlines.
    Blank,
    /// Hexadecimal digits.
    Hex,
    /// Number signs.
    Hash,
    /// Decimal digits, and the underscores that may stand between them.
    Figure,
}

impl Class {
    /// The class holds `c`.
    pub open spec fn has(self, c: char) -> bool {
        match self {
            Class::Blank => is_blank(c),
            Class::Hex => hex_digit(c) is Some,
            Class::Hash => c == '#',
            Class::Figure => is_digit(c) || c == '_',
        }
    }

    /// Whether the class holds `c`.
    fn holds(self, c: char) -> (yes: bool)
        ensures
            yes == self.has(c),
    {
        match self {
            Class::Blank => blank(c),
            Class::Hex => hex(c).is_some(),
            Class::Hash => c == '#',
            Class::Figure => digit(c) || c == '_',
        }
    }
}

/// The value of a hexadecimal digit.
pub open spec fn hex_digit(c: char) -> Option<nat> {
    if '0' <= c <= '9' {
        Some((c as nat - '0' as nat) as nat)
    } else if 'a' <= c <= 'f' {
        Some((c as nat - 'a' as nat + 10) as nat)
    } else if 'A' <= c <= 'F' {
        Some((c as nat - 'A' as nat + 10) as nat)
    } else {
        None
    }
}

/// The value of a hexadecimal digit.
pub(crate) fn hex(c: char) -> (value: Option<u32>)
    ensures
        match value {
            Some(value) => hex_digit(c) == Some(value as nat) && value < 16,
            None => hex_digit(c) is None,
        },
{
    if '0' <= c && c <= '9' {
        Some(c as u32 - '0' as u32)
    } else if 'a' <= c && c <= 'f' {
        Some(c as u32 - 'a' as u32 + 10)
    } else if 'A' <= c && c <= 'F' {
        Some(c as u32 - 'A' as u32 + 10)
    } else {
        None
    }
}

/// The number of characters of `class` at the start of `text`.
pub open spec fn run(text: Seq<char>, class: Class) -> nat
    decreases text.len(),
{
    if text.len() > 0 && class.has(text[0]) {
        1 + run(text.skip(1), class)
    } else {
        0
    }
}

/// A run is no longer than the text, its characters are of the class, and the next is not.
pub proof fn lemma_run(text: Seq<char>, class: Class)
    ensures
        run(text, class) <= text.len(),
        forall|i: int| 0 <= i < run(text, class) ==> class.has(#[trigger] text[i]),
        run(text, class) < text.len() ==> !class.has(text[run(text, class) as int]),
    decreases text.len(),
{
    if text.len() > 0 && class.has(text[0]) {
        let rest = text.skip(1);
        lemma_run(rest, class);
        assert forall|i: int| 0 <= i < run(text, class) implies class.has(#[trigger] text[i]) by {
            if i > 0 {
                assert(class.has(rest[i - 1]));
            }
        }
    }
}

/// A run that is known to reach `n` is `n` and what is left of it.
pub proof fn lemma_run_from(text: Seq<char>, n: int, class: Class)
    requires
        0 <= n <= text.len(),
        forall|i: int| 0 <= i < n ==> class.has(#[trigger] text[i]),
    ensures
        run(text, class) == n + run(text.skip(n), class),
    decreases n,
{
    if n > 0 {
        let rest = text.skip(1);
        assert forall|i: int| 0 <= i < n - 1 implies class.has(#[trigger] rest[i]) by {
            assert(class.has(text[i + 1]));
        }
        lemma_run_from(rest, n - 1, class);
        assert(rest.skip(n - 1) =~= text.skip(n));
    } else {
        assert(text.skip(0) =~= text);
    }
}

/// How many characters of `class` stand in `text` from `from` on.
pub(crate) fn run_at(text: &[char], from: usize, class: Class) -> (n: usize)
    requires
        from <= text@.len(),
    ensures
        n == run(text@.skip(from as int), class),
        from + n <= text@.len(),
{
    let mut i: usize = from;
    while i < text.len() && class.holds(text[i])
        invariant
            from <= i <= text@.len(),
            forall|j: int| 0 <= j < i - from ==> class.has(#[trigger] text@.skip(from as int)[j]),
        decreases text@.len() - i,
    {
        i = i + 1;
    }
    proof {
        lemma_run_from(text@.skip(from as int), i - from, class);
        assert(text@.skip(from as int).skip(i - from) =~= text@.skip(i as int));
    }
    i - from
}

} // verus!
