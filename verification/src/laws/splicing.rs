//! What splicing edits into a source changes, and what it leaves alone.
use crate::edit::{
    all_sound, application, end_before, fault, faulty, first_fault, spliced, spliced_up_to,
    EditView,
};
use crate::error::{EditErrorKind, ErrorView};
use crate::span::covers;
use crate::text::lemma_encode_injective;
use vstd::prelude::*;
use vstd::utf8::{encode_utf8, is_char_boundary};

verus! {

/// By how many bytes an edit makes the text longer.
pub open spec fn growth(edit: EditView) -> int {
    encode_utf8(edit.replacement).len() - edit.span.length
}

/// By how many bytes the first `n` edits make the text longer.
pub open spec fn growth_of_first(edits: Seq<EditView>, n: int) -> int
    decreases n,
{
    if n <= 0 {
        0
    } else {
        growth_of_first(edits, n - 1) + growth(edits[n - 1])
    }
}

/// By how many bytes the edits that end at or before offset `at` make the text longer.
pub open spec fn growth_before(edits: Seq<EditView>, at: int) -> int
    decreases edits.len(),
{
    if edits.len() == 0 {
        0
    } else {
        growth_before(edits.drop_last(), at) + (if edits.last().span.past() <= at {
            growth(edits.last())
        } else {
            0
        })
    }
}

/// No edit replaces the byte at offset `at`.
pub open spec fn untouched(edits: Seq<EditView>, at: int) -> bool {
    forall|i: int| 0 <= i < edits.len() ==> !covers((#[trigger] edits[i]).span, at)
}

/// Edits that can be applied are ordered.
pub proof fn lemma_sound_in_order(source: Seq<char>, edits: Seq<EditView>, i: int, j: int)
    requires
        all_sound(source, edits),
        0 <= i < j < edits.len(),
    ensures
        edits[i].span.past() <= edits[j].span.first(),
    decreases j - i,
{
    assert(!faulty(source, edits, j));
    if i < j - 1 {
        lemma_sound_in_order(source, edits, i, j - 1);
        assert(!faulty(source, edits, j - 1));
    }
}

/// How long the spliced text is up to the end of the `n`-th edit.
proof fn lemma_spliced_len(source: Seq<char>, edits: Seq<EditView>, n: int)
    requires
        all_sound(source, edits),
        0 <= n <= edits.len(),
    ensures
        spliced_up_to(encode_utf8(source), edits, n).len() == end_before(edits, n) + growth_of_first(
            edits,
            n,
        ),
        0 <= end_before(edits, n) <= encode_utf8(source).len(),
    decreases n,
{
    if n > 0 {
        lemma_spliced_len(source, edits, n - 1);
        assert(!faulty(source, edits, n - 1));
    }
}

/// What the source up to an edit turns into is where the spliced text starts.
proof fn lemma_spliced_prefix(bytes: Seq<u8>, edits: Seq<EditView>, n: int, m: int)
    requires
        0 <= n <= m <= edits.len(),
    ensures
        spliced_up_to(bytes, edits, n).len() <= spliced_up_to(bytes, edits, m).len(),
        forall|i: int|
            0 <= i < spliced_up_to(bytes, edits, n).len() ==> spliced_up_to(bytes, edits, m)[i]
                == #[trigger] spliced_up_to(bytes, edits, n)[i],
        forall|i: int|
            0 <= i < spliced_up_to(bytes, edits, n).len() ==> spliced(bytes, edits)[i]
                == #[trigger] spliced_up_to(bytes, edits, n)[i],
        spliced_up_to(bytes, edits, n).len() <= spliced(bytes, edits).len(),
    decreases edits.len() - n,
{
    if n < edits.len() {
        let here = spliced_up_to(bytes, edits, n);
        let next = spliced_up_to(bytes, edits, n + 1);
        let reached = if n < m {
            m
        } else {
            edits.len() as int
        };
        lemma_spliced_prefix(bytes, edits, n + 1, reached);
        assert forall|i: int| 0 <= i < here.len() implies spliced_up_to(bytes, edits, reached)[i]
            == #[trigger] here[i] && spliced(bytes, edits)[i] == here[i] by {
            assert(next[i] == here[i]);
        }
    }
}

/// Where the kept bytes after the `k`-th edit end: at the next edit, or at the end.
spec fn gap_end(bytes: Seq<u8>, edits: Seq<EditView>, k: int) -> int {
    if k < edits.len() {
        edits[k].span.first()
    } else {
        bytes.len() as int
    }
}

/// What lies between two edits is in the spliced text.
proof fn lemma_gap_kept(source: Seq<char>, edits: Seq<EditView>, k: int, at: int)
    requires
        all_sound(source, edits),
        0 <= k <= edits.len(),
        end_before(edits, k) <= at < gap_end(encode_utf8(source), edits, k),
    ensures
        0 <= at + growth_of_first(edits, k) < spliced(encode_utf8(source), edits).len(),
        spliced(encode_utf8(source), edits)[at + growth_of_first(edits, k)] == encode_utf8(
            source,
        )[at],
        k < edits.len() ==> at + growth_of_first(edits, k) < spliced_up_to(
            encode_utf8(source),
            edits,
            k + 1,
        ).len(),
        spliced_up_to(encode_utf8(source), edits, k).len() <= at + growth_of_first(edits, k),
{
    let bytes = encode_utf8(source);
    lemma_spliced_len(source, edits, k);
    let before = spliced_up_to(bytes, edits, k);
    let index = at + growth_of_first(edits, k);
    if k < edits.len() {
        assert(!faulty(source, edits, k));
        lemma_spliced_prefix(bytes, edits, k + 1, edits.len() as int);
        let after = spliced_up_to(bytes, edits, k + 1);
        assert(after[index] == bytes[at]);
    } else {
        assert(spliced(bytes, edits)[index] == bytes[at]);
    }
}

/// The number of edits that start at or before offset `at`.
spec fn started(edits: Seq<EditView>, at: int) -> int
    decreases edits.len(),
{
    if edits.len() == 0 {
        0
    } else if edits.last().span.first() <= at {
        edits.len() as int
    } else {
        started(edits.drop_last(), at)
    }
}

/// An untouched byte lies between the edits that start before it and those that start after it.
proof fn lemma_gap_of(source: Seq<char>, edits: Seq<EditView>, at: int)
    requires
        all_sound(source, edits),
        untouched(edits, at),
        0 <= at < encode_utf8(source).len(),
    ensures
        0 <= started(edits, at) <= edits.len(),
        end_before(edits, started(edits, at)) <= at < gap_end(
            encode_utf8(source),
            edits,
            started(edits, at),
        ),
        growth_before(edits, at) == growth_of_first(edits, started(edits, at)),
    decreases edits.len(),
{
    if edits.len() > 0 {
        let last = edits.len() - 1;
        let before = edits.drop_last();
        assert(all_sound(source, before)) by {
            assert forall|i: int| 0 <= i < before.len() implies !#[trigger] faulty(
                source,
                before,
                i,
            ) by {
                assert(!faulty(source, edits, i));
            }
        }
        assert(untouched(before, at)) by {
            assert forall|i: int| 0 <= i < before.len() implies !covers(
                (#[trigger] before[i]).span,
                at,
            ) by {
                assert(!covers(edits[i].span, at));
            }
        }
        lemma_gap_of(source, before, at);
        assert(!faulty(source, edits, last));
        assert(!covers(edits[last].span, at));
        lemma_growth_of_prefix(edits, started(before, at));
        if edits[last].span.first() <= at {
            assert(edits[last].span.past() <= at);
            // Every edit has then ended, so each has been counted.
            assert forall|i: int| 0 <= i < before.len() implies (
            #[trigger] before[i]).span.first() <= at by {
                lemma_sound_in_order(source, edits, i, last);
            }
            lemma_all_started(before, at);
            lemma_growth_of_prefix(edits, last);
        } else {
            assert(gap_end(encode_utf8(source), edits, started(edits, at)) > at);
        }
    }
}

/// If every edit starts at or before an offset, all of them do.
proof fn lemma_all_started(edits: Seq<EditView>, at: int)
    requires
        forall|i: int| 0 <= i < edits.len() ==> (#[trigger] edits[i]).span.first() <= at,
    ensures
        started(edits, at) == edits.len(),
{
    if edits.len() > 0 {
        assert(edits[edits.len() - 1].span.first() <= at);
    }
}

/// The last edit does not matter to those before it.
proof fn lemma_growth_of_prefix(edits: Seq<EditView>, n: int)
    requires
        0 <= n < edits.len(),
    ensures
        growth_of_first(edits.drop_last(), n) == growth_of_first(edits, n),
    decreases n,
{
    if n > 0 {
        lemma_growth_of_prefix(edits, n - 1);
    }
}

/// Every byte that no edit replaces is in the new text, moved by as much as the edits before it
/// made the text longer.
pub proof fn law_untouched_bytes_survive(
    source: Seq<char>,
    edits: Seq<EditView>,
    text: Seq<char>,
    at: int,
)
    requires
        application(source, edits, Ok(text)),
        0 <= at < encode_utf8(source).len(),
        untouched(edits, at),
    ensures
        0 <= at + growth_before(edits, at) < encode_utf8(text).len(),
        encode_utf8(text)[at + growth_before(edits, at)] == encode_utf8(source)[at],
{
    lemma_gap_of(source, edits, at);
    lemma_gap_kept(source, edits, started(edits, at), at);
}

/// Bytes that no edit replaces stay in order.
pub proof fn law_untouched_bytes_keep_order(
    source: Seq<char>,
    edits: Seq<EditView>,
    text: Seq<char>,
    a: int,
    b: int,
)
    requires
        application(source, edits, Ok(text)),
        0 <= a < b < encode_utf8(source).len(),
        untouched(edits, a),
        untouched(edits, b),
    ensures
        a + growth_before(edits, a) < b + growth_before(edits, b),
{
    lemma_gap_of(source, edits, a);
    lemma_gap_of(source, edits, b);
    lemma_gap_kept(source, edits, started(edits, a), a);
    lemma_gap_kept(source, edits, started(edits, b), b);
    let i = started(edits, a);
    let j = started(edits, b);
    if i < j {
        lemma_spliced_prefix(encode_utf8(source), edits, i + 1, j);
    } else if j < i {
        if j < i - 1 {
            lemma_sound_in_order(source, edits, j, i - 1);
        }
        assert(!faulty(source, edits, j));
        assert(!faulty(source, edits, i - 1));
    }
}

/// The replacement of each edit is in the new text, where the edit starts, moved by as much as the
/// edits before it made the text longer.
pub proof fn law_replacements_stand(
    source: Seq<char>,
    edits: Seq<EditView>,
    text: Seq<char>,
    k: int,
)
    requires
        application(source, edits, Ok(text)),
        0 <= k < edits.len(),
    ensures
        crate::text::occurs_at(
            encode_utf8(text),
            edits[k].span.first() + growth_of_first(edits, k),
            encode_utf8(edits[k].replacement),
        ),
{
    let bytes = encode_utf8(source);
    let start = edits[k].span.first() + growth_of_first(edits, k);
    let replacement = encode_utf8(edits[k].replacement);
    assert(!faulty(source, edits, k));
    lemma_spliced_len(source, edits, k);
    lemma_spliced_len(source, edits, k + 1);
    lemma_spliced_prefix(bytes, edits, k + 1, edits.len() as int);
    let upto = spliced_up_to(bytes, edits, k + 1);
    assert(upto.len() == start + replacement.len());
    assert forall|i: int| 0 <= i < replacement.len() implies encode_utf8(text)[start + i]
        == replacement[i] by {
        assert(upto[start + i] == replacement[i]);
    }
    assert(encode_utf8(text).subrange(start, start + replacement.len()) =~= replacement);
}

/// The new text is as much longer than the source as the edits make it.
pub proof fn law_length_of_result(source: Seq<char>, edits: Seq<EditView>, text: Seq<char>)
    requires
        application(source, edits, Ok(text)),
    ensures
        encode_utf8(text).len() == encode_utf8(source).len() + growth_of_first(
            edits,
            edits.len() as int,
        ),
{
    lemma_spliced_len(source, edits, edits.len() as int);
}

/// Without edits the text is the source.
pub proof fn law_no_edits_change_nothing(source: Seq<char>, result: Result<Seq<char>, ErrorView>)
    requires
        application(source, Seq::empty(), result),
    ensures
        result == Ok::<Seq<char>, ErrorView>(source),
{
    let none = Seq::<EditView>::empty();
    match result {
        Ok(text) => {
            let bytes = encode_utf8(source);
            assert(spliced(bytes, none) =~= bytes);
            lemma_encode_injective(text, source);
        },
        Err(error) => {
            let i = choose|i: int| #[trigger] first_fault(source, none, i);
            assert(0 <= i < none.len());
        },
    }
}

/// One edit replaces its span and nothing else: what stands before it and after it stays.
pub proof fn law_one_edit(source: Seq<char>, edit: EditView, text: Seq<char>)
    requires
        application(source, seq![edit], Ok(text)),
    ensures
        encode_utf8(text) == encode_utf8(source).take(edit.span.first()) + encode_utf8(
            edit.replacement,
        ) + encode_utf8(source).skip(edit.span.past()),
{
    let edits = seq![edit];
    let bytes = encode_utf8(source);
    assert(!faulty(source, edits, 0));
    reveal_with_fuel(spliced_up_to, 2);
    assert(spliced(bytes, edits) =~= bytes.take(edit.span.first()) + encode_utf8(edit.replacement)
        + bytes.skip(edit.span.past()));
}

/// What applying edits to a source gives is one thing only: one text, or one error.
pub proof fn law_one_result(
    source: Seq<char>,
    edits: Seq<EditView>,
    a: Result<Seq<char>, ErrorView>,
    b: Result<Seq<char>, ErrorView>,
)
    requires
        application(source, edits, a),
        application(source, edits, b),
    ensures
        a == b,
{
    match (a, b) {
        (Ok(x), Ok(y)) => {
            lemma_encode_injective(x, y);
        },
        (Err(x), Err(y)) => {
            let i = choose|i: int| #[trigger]
                first_fault(source, edits, i) && x == fault(source, edits, i);
            let j = choose|j: int| #[trigger]
                first_fault(source, edits, j) && y == fault(source, edits, j);
            if i < j {
                assert(!faulty(source, edits, i));
            } else if j < i {
                assert(!faulty(source, edits, j));
            }
        },
        (Ok(_), Err(_)) => {
            let i = choose|i: int| #[trigger] first_fault(source, edits, i);
            assert(!faulty(source, edits, i));
        },
        (Err(_), Ok(_)) => {
            let i = choose|i: int| #[trigger] first_fault(source, edits, i);
            assert(!faulty(source, edits, i));
        },
    }
}

/// The edit at `i` lies in the source, between character boundaries, and does not start before the
/// previous one ends.
pub open spec fn in_place(source: Seq<char>, edits: Seq<EditView>, i: int) -> bool {
    let bytes = encode_utf8(source);
    let start = edits[i].span.offset as int;
    let end = edits[i].span.offset + edits[i].span.length;
    &&& end <= bytes.len()
    &&& is_char_boundary(bytes, start)
    &&& is_char_boundary(bytes, end)
    &&& i > 0 ==> edits[i - 1].span.offset + edits[i - 1].span.length <= start
}

/// Edits can be applied exactly if each of them is in place. Otherwise the first that is not is
/// reported: as cutting a character in two if that is all that is wrong with it, and else as not
/// matching the source.
pub proof fn law_edits_in_place_are_applied(
    source: Seq<char>,
    edits: Seq<EditView>,
    result: Result<Seq<char>, ErrorView>,
)
    requires
        application(source, edits, result),
    ensures
        result is Ok <==> forall|i: int| 0 <= i < edits.len() ==> #[trigger] in_place(
            source,
            edits,
            i,
        ),
        result matches Err(error) ==> exists|i: int|
            {
                &&& 0 <= i < edits.len()
                &&& !#[trigger] in_place(source, edits, i)
                &&& forall|j: int| 0 <= j < i ==> #[trigger] in_place(source, edits, j)
                &&& error.span == edits[i].span
                &&& error.input == source
                &&& error.other_span is None
                &&& error.label == Some("invalid edit span"@)
                &&& if edits[i].span.offset + edits[i].span.length > encode_utf8(source).len() || (i
                    > 0 && edits[i - 1].span.offset + edits[i - 1].span.length
                    > edits[i].span.offset) {
                    &&& error.kind == EditErrorKind::MismatchedSource
                    &&& error.message == "Edit span is out of bounds or overlaps another edit."@
                    &&& error.help == Some("Only apply edits produced from this exact source."@)
                } else {
                    &&& error.kind == EditErrorKind::InvalidUtf8
                    &&& error.message == "Edit span does not lie on a UTF-8 boundary."@
                    &&& error.help is None
                }
            },
{
    assert forall|i: int| 0 <= i < edits.len() implies #[trigger] faulty(source, edits, i)
        == !in_place(source, edits, i) by {}
    match result {
        Ok(_) => {
            assert forall|i: int| 0 <= i < edits.len() implies #[trigger] in_place(
                source,
                edits,
                i,
            ) by {
                assert(!faulty(source, edits, i));
            }
        },
        Err(error) => {
            let i = choose|i: int| #[trigger]
                first_fault(source, edits, i) && error == fault(source, edits, i);
            assert(faulty(source, edits, i));
            assert(!in_place(source, edits, i));
            assert forall|j: int| 0 <= j < i implies #[trigger] in_place(source, edits, j) by {
                assert(!faulty(source, edits, j));
            }
        },
    }
}

/// What comes before does not depend on what comes last.
proof fn lemma_spliced_without_last(bytes: Seq<u8>, edits: Seq<EditView>, last: EditView, n: int)
    requires
        0 <= n <= edits.len(),
    ensures
        spliced_up_to(bytes, edits.push(last), n) == spliced_up_to(bytes, edits, n),
        end_before(edits.push(last), n) == end_before(edits, n),
    decreases n,
{
    if n > 0 {
        lemma_spliced_without_last(bytes, edits, last, n - 1);
    }
}

/// Applying one more edit, behind all others, changes what the others give in one place: from the end
/// of the text, what the source has from the start of that edit on is replaced by its replacement and
/// what the source has from its end on.
pub proof fn law_one_more_edit(
    source: Seq<char>,
    edits: Seq<EditView>,
    last: EditView,
    before: Seq<char>,
    text: Seq<char>,
)
    requires
        application(source, edits, Ok(before)),
        application(source, edits.push(last), Ok(text)),
    ensures
        ({
            let bytes = encode_utf8(source);
            let kept = encode_utf8(before).len() - (bytes.len() - last.span.offset);
            &&& 0 <= kept <= encode_utf8(before).len()
            &&& encode_utf8(text) == encode_utf8(before).take(kept) + encode_utf8(last.replacement)
                + bytes.skip(last.span.offset + last.span.length)
            &&& encode_utf8(before).skip(kept) == bytes.skip(last.span.offset as int)
        }),
{
    let bytes = encode_utf8(source);
    let all = edits.push(last);
    let n = edits.len() as int;
    lemma_spliced_without_last(bytes, edits, last, n);
    assert(!faulty(source, all, n));
    assert(all[n] == last);
    lemma_spliced_len(source, edits, n);
    let head = spliced_up_to(bytes, edits, n);
    let end = end_before(edits, n);
    let start = last.span.offset as int;
    let old_text = encode_utf8(before);
    assert(old_text == head + bytes.subrange(end, bytes.len() as int));
    let kept = old_text.len() - (bytes.len() - start);
    assert(old_text.take(kept) =~= head + bytes.subrange(end, start));
    assert(old_text.skip(kept) =~= bytes.skip(start));
    assert(spliced(bytes, all) =~= old_text.take(kept) + encode_utf8(last.replacement) + bytes.skip(
        start + last.span.length,
    ));
}

} // verus!
