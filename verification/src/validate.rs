//! Checking that replacement text reads back as what it replaces with.
use crate::error::{EditError, EditErrorKind, ErrorView};
use crate::span::SourceSpan;
use crate::strings::string_value;
use crate::text::same_text;
use crate::tree::{KdlIdentifier, KdlValue, ValueView};
use crate::value::{read_name, read_value, value_of};
use std::sync::Arc;
use vstd::prelude::*;
use vstd::string::StringExecFns;

verus! {

/// A text in the form in which `Debug` of the standard library writes it: between quotes, with
/// escapes for the characters that do not print.
pub uninterp spec fn debug_form(text: Seq<char>) -> Seq<char>;

/// Writes `text` through `Debug`, by the `{:?}` of `format!`. The result is the form that is named
/// `debug_form`; which characters it escapes is not stated.
#[verifier::external_body]
pub(crate) fn debug_text(text: &str) -> (quoted: String)
    ensures
        quoted@ == debug_form(text@),
{
    format!("{text:?}")
}

/// What the error for replacement text that does not stand for what it should says.
pub open spec fn invalid_replacement(
    source: Seq<char>,
    span: SourceSpan,
    message: Seq<char>,
    label: Seq<char>,
    help: Option<Seq<char>>,
) -> ErrorView {
    ErrorView {
        input: source,
        kind: EditErrorKind::InvalidReplacement,
        span,
        other_span: None,
        message,
        label: Some(label),
        help,
    }
}

/// What the error for a spelling that is not a name says; `quoted` is the spelling, quoted.
pub open spec fn no_name(source: Seq<char>, span: SourceSpan, quoted: Seq<char>) -> ErrorView {
    invalid_replacement(
        source,
        span,
        quoted + " is not a valid KDL identifier."@,
        "node name"@,
        Some("Use a value that renders as a valid KDL node name."@),
    )
}

/// What the error for a spelling that is not a value says; `quoted` is the spelling, quoted.
pub open spec fn no_value(source: Seq<char>, span: SourceSpan, quoted: Seq<char>) -> ErrorView {
    invalid_replacement(
        source,
        span,
        quoted + " is not a valid KDL value."@,
        "replacement value"@,
        None,
    )
}

/// What is wrong with `rendered` as a spelling of the name `expected`, if anything: it is not a
/// string, or it is another one.
pub open spec fn name_fault(
    source: Seq<char>,
    span: SourceSpan,
    rendered: Seq<char>,
    expected: Seq<char>,
) -> Option<ErrorView> {
    match string_value(rendered) {
        None => Some(no_name(source, span, debug_form(rendered))),
        Some(value) => if value != expected {
            Some(
                invalid_replacement(
                    source,
                    span,
                    "Replacement node name did not round-trip to the expected value."@,
                    "node name"@,
                    None,
                ),
            )
        } else {
            None
        },
    }
}

/// What is wrong with `rendered` as a spelling of `expected`, if anything: it is not a value, or it
/// is another one.
pub open spec fn value_fault(
    source: Seq<char>,
    span: SourceSpan,
    rendered: Seq<char>,
    expected: ValueView,
) -> Option<ErrorView> {
    match value_of(rendered) {
        None => Some(no_value(source, span, debug_form(rendered))),
        Some(value) => if value != expected {
            Some(
                invalid_replacement(
                    source,
                    span,
                    "Replacement value did not round-trip to the expected value."@,
                    "replacement value"@,
                    None,
                ),
            )
        } else {
            None
        },
    }
}

/// The error for a spelling that is not a name, with the spelling as it is to be quoted.
pub fn not_a_name(source: &str, span: SourceSpan, quoted: &str) -> (error: EditError)
    ensures
        error@ == no_name(source@, span, quoted@),
{
    let mut message: String = quoted.to_owned();
    message.append(" is not a valid KDL identifier.");
    EditError::new(
        Arc::new(source.to_owned()),
        EditErrorKind::InvalidReplacement,
        span,
        None,
        message,
        Some("node name"),
        Some("Use a value that renders as a valid KDL node name."),
    )
}

/// The error for a spelling that is not a value, with the spelling as it is to be quoted.
pub fn not_a_value(source: &str, span: SourceSpan, quoted: &str) -> (error: EditError)
    ensures
        error@ == no_value(source@, span, quoted@),
{
    let mut message: String = quoted.to_owned();
    message.append(" is not a valid KDL value.");
    EditError::new(
        Arc::new(source.to_owned()),
        EditErrorKind::InvalidReplacement,
        span,
        None,
        message,
        Some("replacement value"),
        None,
    )
}

/// Checks that `rendered` is a spelling of the name `expected`.
pub(crate) fn validate_identifier(
    source: &str,
    span: SourceSpan,
    rendered: &str,
    expected: &KdlIdentifier,
) -> (result: Result<(), EditError>)
    ensures
        match result {
            Ok(_) => name_fault(source@, span, rendered@, expected.value@) is None,
            Err(error) => name_fault(source@, span, rendered@, expected.value@) == Some(error@),
        },
{
    match read_name(rendered) {
        None => Err(not_a_name(source, span, debug_text(rendered).as_str())),
        Some(parsed) => {
            if !same_text(parsed.as_str(), expected.value()) {
                return Err(
                    EditError::new(
                        Arc::new(source.to_owned()),
                        EditErrorKind::InvalidReplacement,
                        span,
                        None,
                        "Replacement node name did not round-trip to the expected value.".to_owned(),
                        Some("node name"),
                        None,
                    ),
                );
            }
            Ok(())
        },
    }
}

/// Checks that `rendered` is a spelling of `expected`.
pub(crate) fn validate_value(
    source: &str,
    span: SourceSpan,
    rendered: &str,
    expected: &KdlValue,
) -> (result: Result<(), EditError>)
    ensures
        match result {
            Ok(_) => value_fault(source@, span, rendered@, expected@) is None,
            Err(error) => value_fault(source@, span, rendered@, expected@) == Some(error@),
        },
{
    match read_value(rendered) {
        None => Err(not_a_value(source, span, debug_text(rendered).as_str())),
        Some(parsed) => {
            if !parsed.same(expected) {
                return Err(
                    EditError::new(
                        Arc::new(source.to_owned()),
                        EditErrorKind::InvalidReplacement,
                        span,
                        None,
                        "Replacement value did not round-trip to the expected value.".to_owned(),
                        Some("replacement value"),
                        None,
                    ),
                );
            }
            Ok(())
        },
    }
}

} // verus!
