//! What the models of the library's types say of their fields.
use crate::checksum::fnv1a64_of;
use crate::edit::{edit_views, result_view, SourceEdit};
use crate::error::{optional_str, optional_text, EditError, ErrorView};
use crate::span::SourceSpan;
use crate::tree::{KdlIdentifier, KdlValue, ValueView};
use std::ops::Range;
use vstd::prelude::*;
use vstd::std_specs::convert::FromSpec;

verus! {

/// A list of edits is seen edit by edit, each by its kind, its span and its replacement.
pub proof fn law_edits_are_seen_as_they_are(edits: Seq<SourceEdit>, i: int)
    requires
        0 <= i < edits.len(),
    ensures
        edit_views(edits).len() == edits.len(),
        edit_views(edits)[i].kind == edits[i].kind,
        edit_views(edits)[i].span == edits[i].span,
        edit_views(edits)[i].replacement == edits[i].replacement@,
        edits[i]@ == edit_views(edits)[i],
{
}

/// An error is seen by its own fields and texts.
pub proof fn law_errors_are_seen_as_they_are(error: EditError)
    ensures
        error@.input == error.input@,
        error@.kind == error.kind,
        error@.span == error.span,
        error@.other_span == error.other_span,
        error@.message == error.inner.message@,
        error@.label is Some == error.inner.label is Some,
        error.inner.label matches Some(label) ==> error@.label == Some(label@),
        error@.help is Some == error.inner.help is Some,
        error.inner.help matches Some(help) ==> error@.help == Some(help@),
{
}

/// A text that may be absent is seen as the text, or as absent.
pub proof fn law_absent_texts_are_seen_as_absent(owned: String, borrowed: &str)
    ensures
        optional_text(Some(owned)) == Some(owned@),
        optional_text(None) is None,
        optional_str(Some(borrowed)) == Some(borrowed@),
        optional_str(None) is None,
{
}

/// A result is seen by its text or its error.
pub proof fn law_results_are_seen_as_they_are(text: String, error: EditError)
    ensures
        result_view(Ok(text)) == Ok::<Seq<char>, ErrorView>(text@),
        result_view(Err(error)) == Err::<Seq<char>, ErrorView>(error@),
{
}

/// A value is seen as what it is, and two values that are seen alike are of one kind and content.
pub proof fn law_values_are_seen_as_they_are(text: String, number: i128, truth: bool)
    ensures
        KdlValue::String(text)@ == ValueView::String(text@),
        KdlValue::Integer(number)@ == ValueView::Integer(number as int),
        KdlValue::Float(text)@ == ValueView::Float(text@),
        KdlValue::Bool(truth)@ == ValueView::Bool(truth),
        KdlValue::Null@ == ValueView::Null,
{
}

/// A text, a number or a truth value becomes the value that it is, and a text the name that it is,
/// without a spelling of its own.
pub proof fn law_conversions_keep_what_is_converted(text: String, number: i128, truth: bool)
    ensures
        <KdlValue as FromSpec<String>>::obeys_from_spec(),
        <KdlValue as FromSpec<String>>::from_spec(text) == KdlValue::String(text),
        <KdlValue as FromSpec<i128>>::obeys_from_spec(),
        <KdlValue as FromSpec<i128>>::from_spec(number) == KdlValue::Integer(number),
        <KdlValue as FromSpec<bool>>::obeys_from_spec(),
        <KdlValue as FromSpec<bool>>::from_spec(truth) == KdlValue::Bool(truth),
        <KdlIdentifier as FromSpec<String>>::obeys_from_spec(),
        <KdlIdentifier as FromSpec<String>>::from_spec(text).value == text,
        <KdlIdentifier as FromSpec<String>>::from_spec(text).repr is None,
{
}

/// A range becomes the span that starts where it starts and ends where it ends; one that ends before
/// it starts becomes an empty span.
pub proof fn law_ranges_become_spans(range: Range<usize>)
    ensures
        <SourceSpan as FromSpec<Range<usize>>>::obeys_from_spec(),
        ({
            let span = <SourceSpan as FromSpec<Range<usize>>>::from_spec(range);
            &&& span.offset == range.start
            &&& range.start <= range.end ==> span.offset + span.length == range.end
            &&& range.end <= range.start ==> span.length == 0
            &&& span.first() == span.offset
            &&& span.past() == span.offset + span.length
            &&& span.fits()
        }),
{
}

/// A span starts at its offset, ends its length further on, and fits if that is a `usize`.
pub proof fn law_spans_are_seen_as_they_are(span: SourceSpan)
    ensures
        span.first() == span.offset,
        span.past() == span.offset + span.length,
        span.fits() <==> span.offset + span.length <= usize::MAX,
{
}

/// Each byte takes the checksum of the bytes before it one step further: it is mixed in by exclusive
/// or, and the result is multiplied by the prime of the checksum, without what does not fit 64 bits.
pub proof fn law_checksums_take_byte_after_byte(data: Seq<u8>, byte: u8)
    ensures
        fnv1a64_of(Seq::empty()) == 0xcbf29ce484222325,
        fnv1a64_of(data.push(byte)) == ((fnv1a64_of(data) ^ (byte as u64)) * 0x100000001b3)
            % 0x1_0000_0000_0000_0000,
{
    assert(data.push(byte).drop_last() =~= data);
}

} // verus!
