//! What errors say.
use crate::anchor::{bounds_of, value_span_of};
use crate::edit::{kind_text, EditKind};
use crate::error::{EditErrorKind, ErrorView};
use crate::laws::locating::{
    is_recorded, is_recorded_entry, law_nodes_are_located_exactly, law_values_are_located_exactly,
};
use crate::operation::{
    applied, argument_change, no_property, property_change, renaming, revaluing, PlanView,
};
use crate::span::SourceSpan;
use crate::strings::string_value;
use crate::tree::{argument_at, last_property, KdlEntry, KdlIdentifier, KdlNode, ValueView};
use crate::validate::{debug_form, no_name, no_value};
use crate::value::{rendered_name, rendered_value, value_of};
use vstd::prelude::*;
use vstd::utf8::{encode_utf8, is_char_boundary};

verus! {

/// An error that speaks of one span of a source.
pub open spec fn report(
    input: Seq<char>,
    kind: EditErrorKind,
    span: SourceSpan,
    message: Seq<char>,
    label: Seq<char>,
    help: Option<Seq<char>>,
) -> ErrorView {
    ErrorView { input, kind, span, other_span: None, message, label: Some(label), help }
}

/// The error for a node or an entry that is not where it was recorded to be.
pub open spec fn misplaced_report(
    input: Seq<char>,
    span: SourceSpan,
    message: Seq<char>,
) -> ErrorView {
    report(
        input,
        EditErrorKind::MismatchedSource,
        span,
        message,
        "recorded span"@,
        Some(
            "This node or entry was parsed from a different source (or the source changed). Re-parse and rebuild the plan."@,
        ),
    )
}

/// A node is refused with the first that is wrong with it: its span is not one of the source; it was
/// not parsed; its leading trivia is longer than what comes before it, or another text; its
/// terminator is another text; so is the node itself, or else its name.
pub proof fn law_what_is_wrong_with_a_node_is_said(source: Seq<char>, node: KdlNode)
    requires
        encode_utf8(source).len() <= usize::MAX,
    ensures
        bounds_of(source, node) matches Err(error) ==> ({
            let bytes = encode_utf8(source);
            let start = node.span.offset as int;
            let end = node.span.offset + node.span.length;
            if end > bytes.len() || !is_char_boundary(bytes, start) || !is_char_boundary(bytes, end) {
                error == misplaced_report(
                    source,
                    node.span,
                    "Node span is outside the source bounds."@,
                )
            } else if node.format is None {
                error == report(
                    source,
                    EditErrorKind::MismatchedSource,
                    node.span,
                    "Node does not carry original formatting, so it cannot be located."@,
                    "node"@,
                    Some("Only nodes obtained by parsing a document can be edited positionally."@),
                )
            } else {
                let leading = encode_utf8(node.format->0.leading@);
                let terminator = encode_utf8(node.format->0.terminator@);
                if leading.len() > start {
                    error == misplaced_report(
                        source,
                        node.span,
                        "Node's recorded leading trivia extends before the start of the source."@,
                    )
                } else if bytes.subrange(start - leading.len(), start) != leading {
                    error == misplaced_report(
                        source,
                        node.span,
                        "Node's leading trivia does not match the source at its span."@,
                    )
                } else if end + terminator.len() > bytes.len() || bytes.subrange(
                    end,
                    end + terminator.len(),
                ) != terminator {
                    error == misplaced_report(
                        source,
                        node.span,
                        "Node's terminator does not match the source at its span."@,
                    )
                } else if bytes.subrange(start, end) != encode_utf8(node.format->0.body@) {
                    error == misplaced_report(
                        source,
                        node.span,
                        "Node's recorded text does not match the source at its span."@,
                    )
                } else {
                    error == misplaced_report(
                        source,
                        node.span,
                        "Node's recorded name does not match the source at its span."@,
                    )
                }
            }
        }),
{
    law_nodes_are_located_exactly(source, node);
}

/// An entry is refused with the first that is wrong with it: it was not parsed; there is no literal;
/// the literal is longer than the entry; the literal is not what the source has at the end of the
/// entry; or the entry is another text.
pub proof fn law_what_is_wrong_with_an_entry_is_said(source: Seq<char>, entry: KdlEntry)
    requires
        encode_utf8(source).len() <= usize::MAX,
    ensures
        value_span_of(source, entry) matches Err(error) ==> ({
            let bytes = encode_utf8(source);
            let end = entry.span.offset + entry.span.length;
            let help = "Only entries obtained by parsing a document can be edited positionally."@;
            if entry.format is None {
                error == report(
                    source,
                    EditErrorKind::MismatchedSource,
                    entry.span,
                    "Entry does not carry original source text, so it cannot be located."@,
                    "entry"@,
                    Some(help),
                )
            } else {
                let literal = encode_utf8(entry.format->0.value_repr@);
                if literal.len() == 0 {
                    error == report(
                        source,
                        EditErrorKind::MismatchedSource,
                        entry.span,
                        "Entry has no recorded value representation, so it cannot be located."@,
                        "entry"@,
                        Some(help),
                    )
                } else if entry.span.length < literal.len() {
                    error == misplaced_report(
                        source,
                        entry.span,
                        "Entry span is shorter than its recorded value representation."@,
                    )
                } else if end > bytes.len() || bytes.subrange(end - literal.len(), end) != literal {
                    error == misplaced_report(
                        source,
                        entry.span,
                        "Entry's recorded value does not match the source at its span."@,
                    )
                } else {
                    error == misplaced_report(
                        source,
                        entry.span,
                        "Entry's recorded text does not match the source at its span."@,
                    )
                }
            }
        }),
{
    law_values_are_located_exactly(source, entry);
}

/// What is not found is asked for at the name of the node: an argument by its index in decimal, a
/// property by its key as the standard library quotes it.
pub proof fn law_what_is_not_found_is_said(
    source: Seq<char>,
    node: KdlNode,
    index: nat,
    key: Seq<char>,
    quoted: Seq<char>,
    value: ValueView,
)
    requires
        encode_utf8(source).len() <= usize::MAX,
        is_recorded(source, node),
    ensures
        argument_at(node.entries@, index) is None ==> (argument_change(
            source,
            node,
            index,
            value,
        ) matches Err(error) && error == report(
            source,
            EditErrorKind::NotFound,
            node.name.span,
            "Node has no argument at index "@ + rendered_value(ValueView::Integer(index as int))
                + "."@,
            "node"@,
            Some("Argument indices are zero-based and count only positional values."@),
        )),
        last_property(node.entries@, key) is None ==> (property_change(
            source,
            node,
            key,
            value,
        ) matches Err(error) && error == no_property(source, node, debug_form(key))),
        no_property(source, node, quoted) == report(
            source,
            EditErrorKind::NotFound,
            node.name.span,
            "Node has no property named "@ + quoted + "."@,
            "node"@,
            Some(
                "Only existing properties can be updated positionally; add new ones via the tree API."@,
            ),
        ),
{
    law_nodes_are_located_exactly(source, node);
}

/// What is wrong with a new name or value is said at what it was to replace: that its spelling cannot
/// be read, with the spelling as the standard library quotes it, or that it reads as another.
pub proof fn law_what_is_wrong_with_a_replacement_is_said(
    source: Seq<char>,
    node: KdlNode,
    name: KdlIdentifier,
    entry: KdlEntry,
    value: ValueView,
    kind: EditKind,
    span: SourceSpan,
    quoted: Seq<char>,
)
    requires
        encode_utf8(source).len() <= usize::MAX,
    ensures
        is_recorded(source, node) ==> (renaming(source, node, name) matches Err(error)
            ==> match string_value(rendered_name(name)) {
            None => error == no_name(source, node.name.span, debug_form(rendered_name(name))),
            Some(_) => error == report(
                source,
                EditErrorKind::InvalidReplacement,
                node.name.span,
                "Replacement node name did not round-trip to the expected value."@,
                "node name"@,
                None,
            ),
        }),
        is_recorded_entry(source, entry) ==> (revaluing(
            source,
            entry,
            value,
            kind,
        ) matches Err(error) ==> ({
            let literal = encode_utf8(entry.format->0.value_repr@).len() as int;
            let at = SourceSpan {
                offset: (entry.span.offset + entry.span.length - literal) as usize,
                length: literal as usize,
            };
            match value_of(rendered_value(value)) {
                None => error == no_value(source, at, debug_form(rendered_value(value))),
                Some(_) => error == report(
                    source,
                    EditErrorKind::InvalidReplacement,
                    at,
                    "Replacement value did not round-trip to the expected value."@,
                    "replacement value"@,
                    None,
                ),
            }
        })),
        no_name(source, span, quoted) == report(
            source,
            EditErrorKind::InvalidReplacement,
            span,
            quoted + " is not a valid KDL identifier."@,
            "node name"@,
            Some("Use a value that renders as a valid KDL node name."@),
        ),
        no_value(source, span, quoted) == report(
            source,
            EditErrorKind::InvalidReplacement,
            span,
            quoted + " is not a valid KDL value."@,
            "replacement value"@,
            None,
        ),
{
    law_nodes_are_located_exactly(source, node);
    law_values_are_located_exactly(source, entry);
}

/// A plan that is applied to another text says so of the whole of its own source.
pub proof fn law_stale_sources_are_reported(
    plan: PlanView,
    source: Seq<char>,
    result: Result<Seq<char>, ErrorView>,
)
    requires
        encode_utf8(plan.source).len() <= usize::MAX,
        source != plan.source,
        applied(plan, source, result),
    ensures
        result matches Err(error) && error.span.offset == 0 && error.span.length == encode_utf8(
            plan.source,
        ).len() && error == report(
            plan.source,
            EditErrorKind::StaleSource,
            error.span,
            "Cannot apply an edit plan to a different source version than the one it was planned against."@,
            "plan was built against this text"@,
            Some("Re-parse the current source and rebuild the edit plan before applying it."@),
        ),
{
}

/// What each kind of operation is called.
pub proof fn law_kinds_are_named()
    ensures
        kind_text(EditKind::NodeName) == "update node name"@,
        kind_text(EditKind::Argument) == "update argument"@,
        kind_text(EditKind::Property) == "update property"@,
        kind_text(EditKind::DeleteNode) == "delete node"@,
{
}

} // verus!
