//! Which nodes and entries a source has, and what operations on them replace.
use crate::anchor::{bounds_of, value_span_of};
use crate::edit::{EditKind, EditView};
use crate::error::{EditErrorKind, ErrorView};
use crate::operation::{
    argument_change, deletion, lemma_first_conflict, planned, property_change, renaming, revaluing,
    PlanView,
};
use crate::strings::string_value;
use crate::text::lemma_encode_empty;
use crate::tree::{argument_at, last_property, KdlEntry, KdlIdentifier, KdlNode, ValueView};
use crate::value::{rendered_name, rendered_string, rendered_value, value_of};
use vstd::prelude::*;
use vstd::utf8::{encode_utf8, is_char_boundary};

verus! {

/// The bytes of the source from the leading trivia of `node` to its terminator are those that were
/// recorded: leading trivia, the node itself (between character boundaries), and the terminator; and
/// in the node, at a place that is not empty, the name.
pub open spec fn is_recorded(source: Seq<char>, node: KdlNode) -> bool {
    let bytes = encode_utf8(source);
    let start = node.span.offset as int;
    let end = node.span.offset + node.span.length;
    let name_start = node.name.span.offset as int;
    let name_end = node.name.span.offset + node.name.span.length;
    let name = match node.name.repr {
        Some(repr) => repr@,
        None => rendered_string(node.name.value@),
    };
    node.format matches Some(format) && {
        let leading = encode_utf8(format.leading@);
        let terminator = encode_utf8(format.terminator@);
        &&& leading.len() <= start
        &&& end + terminator.len() <= bytes.len()
        &&& bytes.subrange(start - leading.len(), start) == leading
        &&& bytes.subrange(start, end) == encode_utf8(format.body@)
        &&& bytes.subrange(end, end + terminator.len()) == terminator
        &&& is_char_boundary(bytes, start)
        &&& is_char_boundary(bytes, end)
        &&& start <= name_start < name_end <= end
        &&& bytes.subrange(name_start, name_end) == encode_utf8(name)
    }
}

/// A node is located exactly if the source has the bytes that were recorded of it, and its bounds are
/// where those begin and end. Any other node is refused as not matching the source.
pub proof fn law_nodes_are_located_exactly(source: Seq<char>, node: KdlNode)
    requires
        encode_utf8(source).len() <= usize::MAX,
    ensures
        bounds_of(source, node) is Ok <==> is_recorded(source, node),
        bounds_of(source, node) matches Ok(bounds) ==> {
            &&& bounds.body_start == node.span.offset
            &&& bounds.body_end == node.span.offset + node.span.length
            &&& node.format matches Some(format) && {
                &&& bounds.leading_start + encode_utf8(format.leading@).len() == node.span.offset
                &&& bounds.terminator_end == node.span.offset + node.span.length + encode_utf8(
                    format.terminator@,
                ).len()
            }
        },
        bounds_of(source, node) matches Err(error) ==> error.kind
            == EditErrorKind::MismatchedSource && error.span == node.span && error.input == source,
{
    let bytes = encode_utf8(source);
    let spelling = rendered_name(node.name);
    lemma_encode_empty(spelling);
    if is_recorded(source, node) {
        let end = node.span.offset + node.span.length;
        let name_end = node.name.span.offset + node.name.span.length;
        assert(bytes.subrange(node.span.offset as int, end).len() == node.span.length);
        assert(bytes.subrange(node.name.span.offset as int, name_end).len()
            == node.name.span.length);
    }
}

/// The value of `entry` ends the entry, is not empty, and both it and the whole entry are what the
/// source has where they were recorded to stand.
pub open spec fn is_recorded_entry(source: Seq<char>, entry: KdlEntry) -> bool {
    let bytes = encode_utf8(source);
    let start = entry.span.offset as int;
    let end = entry.span.offset + entry.span.length;
    entry.format matches Some(format) && {
        let value = encode_utf8(format.value_repr@);
        &&& 0 < value.len() <= entry.span.length
        &&& end <= bytes.len()
        &&& bytes.subrange(end - value.len(), end) == value
        &&& bytes.subrange(start, end) == encode_utf8(format.text@)
    }
}

/// A value is located exactly if the source has the bytes that were recorded of its entry, and its
/// span is that of its literal, at the end of the entry. Any other entry is refused as not matching
/// the source.
pub proof fn law_values_are_located_exactly(source: Seq<char>, entry: KdlEntry)
    requires
        encode_utf8(source).len() <= usize::MAX,
    ensures
        value_span_of(source, entry) is Ok <==> is_recorded_entry(source, entry),
        value_span_of(source, entry) matches Ok(span) ==> {
            &&& span.offset + span.length == entry.span.offset + entry.span.length
            &&& entry.format matches Some(format) && span.length == encode_utf8(
                format.value_repr@,
            ).len()
        },
        value_span_of(source, entry) matches Err(error) ==> error.kind
            == EditErrorKind::MismatchedSource && error.span == entry.span && error.input
            == source,
{
    if is_recorded_entry(source, entry) {
        let bytes = encode_utf8(source);
        let end = entry.span.offset + entry.span.length;
        assert(bytes.subrange(entry.span.offset as int, end).len() == entry.span.length);
    }
}

/// No edit of the plan replaces a byte between two offsets.
pub open spec fn is_free(plan: PlanView, start: int, end: int) -> bool {
    forall|i: int|
        0 <= i < plan.edits.len() ==> end <= (#[trigger] plan.edits[i]).span.offset
            || plan.edits[i].span.offset + plan.edits[i].span.length <= start
}

/// What is free does not conflict.
proof fn lemma_free(plan: PlanView, edit: EditView)
    requires
        is_free(
            plan,
            edit.span.offset as int,
            edit.span.offset + edit.span.length,
        ),
    ensures
        planned(plan, Ok(edit)) is Ok,
{
    lemma_first_conflict(plan.edits, edit.span);
}

/// Every node whose recorded bytes the source has can be deleted, whatever its size, and no other.
/// What is removed starts with its leading trivia and ends with its terminator, and nothing is put in
/// its place. A plan that has no edit in that range takes the deletion.
pub proof fn law_recorded_nodes_can_be_deleted(plan: PlanView, node: KdlNode)
    requires
        encode_utf8(plan.source).len() <= usize::MAX,
    ensures
        deletion(plan.source, node) is Ok <==> is_recorded(plan.source, node),
        deletion(plan.source, node) matches Ok(edit) ==> {
            &&& edit.kind == EditKind::DeleteNode
            &&& edit.replacement == Seq::<char>::empty()
            &&& node.format matches Some(format) && {
                &&& edit.span.offset + encode_utf8(format.leading@).len() == node.span.offset
                &&& edit.span.offset + edit.span.length == node.span.offset + node.span.length
                    + encode_utf8(format.terminator@).len()
            }
            &&& is_free(plan, edit.span.offset as int, edit.span.offset + edit.span.length)
                ==> planned(plan, deletion(plan.source, node)) is Ok
        },
        deletion(plan.source, node) matches Err(error) ==> error.kind
            == EditErrorKind::MismatchedSource,
{
    law_nodes_are_located_exactly(plan.source, node);
    if let Ok(edit) = deletion(plan.source, node) {
        if is_free(plan, edit.span.offset as int, edit.span.offset + edit.span.length) {
            lemma_free(plan, edit);
        }
    }
}

/// Every node whose recorded bytes the source has can be given any name whose spelling reads as that
/// name, and no other node and no other name. What is replaced is the span of the old name, by the
/// spelling that the new name has of its own or else the one that it is written with. A plan that has
/// no edit in that range takes the renaming.
pub proof fn law_recorded_nodes_can_be_renamed(plan: PlanView, node: KdlNode, name: KdlIdentifier)
    requires
        encode_utf8(plan.source).len() <= usize::MAX,
    ensures
        ({
            let spelling = match name.repr {
                Some(repr) => repr@,
                None => rendered_string(name.value@),
            };
            let result = renaming(plan.source, node, name);
            &&& result is Ok <==> is_recorded(plan.source, node) && string_value(spelling) == Some(
                name.value@,
            )
            &&& result matches Ok(edit) ==> {
                &&& edit.kind == EditKind::NodeName
                &&& edit.span == node.name.span
                &&& edit.replacement == spelling
                &&& is_free(plan, edit.span.offset as int, edit.span.offset + edit.span.length)
                    ==> planned(plan, result) is Ok
            }
            &&& result matches Err(error) ==> if is_recorded(plan.source, node) {
                error.kind == EditErrorKind::InvalidReplacement && error.span == node.name.span
            } else {
                error.kind == EditErrorKind::MismatchedSource && error.span == node.span
            }
        }),
{
    law_nodes_are_located_exactly(plan.source, node);
    if let Ok(edit) = renaming(plan.source, node, name) {
        if is_free(plan, edit.span.offset as int, edit.span.offset + edit.span.length) {
            lemma_free(plan, edit);
        }
    }
}

/// Every entry whose recorded bytes the source has can be given any value that reads back as itself,
/// and no other entry and no other value. What is replaced is the literal at the end of the entry, by
/// how the value is written. A plan that has no edit in that range takes the change.
pub proof fn law_recorded_entries_can_be_set(
    plan: PlanView,
    entry: KdlEntry,
    value: ValueView,
    kind: EditKind,
)
    requires
        encode_utf8(plan.source).len() <= usize::MAX,
    ensures
        ({
            let result = revaluing(plan.source, entry, value, kind);
            &&& result is Ok <==> is_recorded_entry(plan.source, entry) && value_of(
                rendered_value(value),
            ) == Some(value)
            &&& result matches Ok(edit) ==> {
                &&& edit.kind == kind
                &&& edit.replacement == rendered_value(value)
                &&& edit.span.offset + edit.span.length == entry.span.offset + entry.span.length
                &&& entry.format matches Some(format) && edit.span.length == encode_utf8(
                    format.value_repr@,
                ).len()
                &&& is_free(plan, edit.span.offset as int, edit.span.offset + edit.span.length)
                    ==> planned(plan, result) is Ok
            }
            &&& result matches Err(error) ==> if is_recorded_entry(plan.source, entry) {
                error.kind == EditErrorKind::InvalidReplacement && (entry.format matches Some(format)
                    ==> error.span.length == encode_utf8(format.value_repr@).len())
            } else {
                error.kind == EditErrorKind::MismatchedSource && error.span == entry.span
            }
        }),
{
    law_values_are_located_exactly(plan.source, entry);
    if let Ok(edit) = revaluing(plan.source, entry, value, kind) {
        if is_free(plan, edit.span.offset as int, edit.span.offset + edit.span.length) {
            lemma_free(plan, edit);
        }
    }
}

/// Setting an argument of a node whose recorded bytes the source has is setting the value of that
/// argument, and is refused as not found if there is none.
pub proof fn law_arguments_of_recorded_nodes_can_be_set(
    source: Seq<char>,
    node: KdlNode,
    index: nat,
    value: ValueView,
)
    requires
        encode_utf8(source).len() <= usize::MAX,
        is_recorded(source, node),
    ensures
        match argument_at(node.entries@, index) {
            Some(entry) => argument_change(source, node, index, value) == revaluing(
                source,
                entry,
                value,
                EditKind::Argument,
            ),
            None => argument_change(source, node, index, value) matches Err(error) && error.kind
                == EditErrorKind::NotFound && error.span == node.name.span,
        },
{
    law_nodes_are_located_exactly(source, node);
}

/// Setting a property of a node whose recorded bytes the source has is setting the value of that
/// property, and is refused as not found if there is none.
pub proof fn law_properties_of_recorded_nodes_can_be_set(
    source: Seq<char>,
    node: KdlNode,
    key: Seq<char>,
    value: ValueView,
)
    requires
        encode_utf8(source).len() <= usize::MAX,
        is_recorded(source, node),
    ensures
        match last_property(node.entries@, key) {
            Some(entry) => property_change(source, node, key, value) == revaluing(
                source,
                entry,
                value,
                EditKind::Property,
            ),
            None => property_change(source, node, key, value) matches Err(error) && error.kind
                == EditErrorKind::NotFound && error.span == node.name.span,
        },
{
    law_nodes_are_located_exactly(source, node);
}

/// A node that the source does not have takes part in no operation: each is refused with the error
/// that locating it gives.
pub proof fn law_unrecorded_nodes_are_refused(
    source: Seq<char>,
    node: KdlNode,
    name: KdlIdentifier,
    index: nat,
    key: Seq<char>,
    value: ValueView,
)
    requires
        encode_utf8(source).len() <= usize::MAX,
        !is_recorded(source, node),
    ensures
        bounds_of(source, node) matches Err(error) && {
            &&& error.kind == EditErrorKind::MismatchedSource
            &&& renaming(source, node, name) == Err::<EditView, ErrorView>(error)
            &&& argument_change(source, node, index, value) == Err::<EditView, ErrorView>(error)
            &&& property_change(source, node, key, value) == Err::<EditView, ErrorView>(error)
            &&& deletion(source, node) == Err::<EditView, ErrorView>(error)
        },
{
    law_nodes_are_located_exactly(source, node);
}

} // verus!
