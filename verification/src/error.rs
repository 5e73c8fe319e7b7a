//! What can go wrong while a plan is built or applied.
use crate::span::SourceSpan;
use std::sync::Arc;
use vstd::prelude::*;

verus! {

/// The category of an [`EditError`].
#[derive(Debug, Clone, Copy, PartialEq, Eq, Structural)]
#[non_exhaustive]
pub enum EditErrorKind {
    /// A span fell outside the source or did not line up with its node.
    MismatchedSource,
    /// The requested node/argument/property could not be located.
    NotFound,
    /// The replacement text did not parse back into the expected value.
    InvalidReplacement,
    /// Two edits in the same plan touched overlapping byte ranges.
    OverlappingEdits,
    /// A plan was applied to a source that was not the one it was built from.
    StaleSource,
    /// A computed byte range did not lie on a UTF-8 boundary.
    InvalidUtf8,
}

/// The texts of an [`EditError`].
#[derive(Debug, Clone, Eq, PartialEq)]
pub struct EditErrorInner {
    /// The message for a reader.
    pub message: String,
    /// What to write at the primary span.
    pub label: Option<String>,
    /// What a reader can do about it.
    pub help: Option<String>,
}

/// Errors that can happen while building or applying an `EditPlan`.
///
/// Each error keeps the source string it relates to plus a [`SourceSpan`] pointing at the
/// offending bytes, so that it can be pretty printed with the source around it.
#[derive(Debug, Clone, Eq, PartialEq)]
pub struct EditError {
    /// The source string the failing plan was built from.
    pub input: Arc<String>,
    /// What went wrong.
    pub kind: EditErrorKind,
    /// Primary span the error is about.
    pub span: SourceSpan,
    /// Optional second span (for example, the edit an earlier one collides with).
    pub other_span: Option<SourceSpan>,
    /// The texts that go with it.
    pub inner: Box<EditErrorInner>,
}

/// What an [`EditError`] says.
pub struct ErrorView {
    /// The source that the error relates to.
    pub input: Seq<char>,
    /// What went wrong.
    pub kind: EditErrorKind,
    /// Where it went wrong.
    pub span: SourceSpan,
    /// The span that `span` is at odds with.
    pub other_span: Option<SourceSpan>,
    /// The message for a reader.
    pub message: Seq<char>,
    /// What to write at `span`.
    pub label: Option<Seq<char>>,
    /// What a reader can do about it.
    pub help: Option<Seq<char>>,
}

/// The characters of a text that may be absent.
pub open spec fn optional_text(text: Option<String>) -> Option<Seq<char>> {
    match text {
        Some(text) => Some(text@),
        None => None,
    }
}

/// The characters of a borrowed text that may be absent.
pub open spec fn optional_str(text: Option<&str>) -> Option<Seq<char>> {
    match text {
        Some(text) => Some(text@),
        None => None,
    }
}

impl View for EditError {
    type V = ErrorView;

    open spec fn view(&self) -> ErrorView {
        ErrorView {
            input: self.input@,
            kind: self.kind,
            span: self.span,
            other_span: self.other_span,
            message: self.inner.message@,
            label: optional_text(self.inner.label),
            help: optional_text(self.inner.help),
        }
    }
}

/// A span of the source together with the text to show at it.
#[derive(Debug, Clone, Eq, PartialEq)]
pub struct LabeledSpan {
    /// The text to show.
    pub label: String,
    /// Where to show it.
    pub span: SourceSpan,
}

impl LabeledSpan {
    /// The text to show.
    pub fn label(&self) -> (label: &str)
        ensures
            label@ == self.label@,
    {
        self.label.as_str()
    }

    /// Where to show it.
    pub fn span(&self) -> (span: SourceSpan)
        ensures
            span == self.span,
    {
        self.span
    }
}

fn owned(text: Option<&str>) -> (copy: Option<String>)
    ensures
        optional_text(copy) == optional_str(text),
{
    match text {
        Some(text) => Some(text.to_owned()),
        None => None,
    }
}

impl EditError {
    pub(crate) fn new(
        input: Arc<String>,
        kind: EditErrorKind,
        span: SourceSpan,
        other_span: Option<SourceSpan>,
        message: String,
        label: Option<&str>,
        help: Option<&str>,
    ) -> (error: Self)
        ensures
            error@ == (ErrorView {
                input: input@,
                kind,
                span,
                other_span,
                message: message@,
                label: optional_str(label),
                help: optional_str(help),
            }),
    {
        EditError {
            input,
            kind,
            span,
            other_span,
            inner: Box::new(EditErrorInner { message, label: owned(label), help: owned(help) }),
        }
    }

    /// The human readable diagnostic message.
    pub fn message(&self) -> (message: &str)
        ensures
            message@ == self@.message,
    {
        self.inner.message.as_str()
    }

    /// The label for the primary span, if any.
    pub fn label(&self) -> (label: Option<&str>)
        ensures
            optional_str(label) == self@.label,
    {
        match &self.inner.label {
            Some(label) => Some(label.as_str()),
            None => None,
        }
    }

    /// The help text, if any.
    pub fn help(&self) -> (help: Option<&str>)
        ensures
            optional_str(help) == self@.help,
    {
        match &self.inner.help {
            Some(help) => Some(help.as_str()),
            None => None,
        }
    }

    /// The spans to point at in the source: the primary span under its label (or under "here"
    /// when it has none), then the span of the edit it collides with, if there is one.
    pub fn labels(&self) -> (labels: Vec<LabeledSpan>)
        ensures
            labels.len() == (if self@.other_span is Some { 2nat } else { 1nat }),
            labels[0].span == self@.span,
            labels[0].label@ == (match self@.label {
                Some(label) => label,
                None => "here"@,
            }),
            self@.other_span matches Some(other) ==> {
                &&& labels[1].span == other
                &&& labels[1].label@ == "conflicts with this edit"@
            },
    {
        let label: String = match &self.inner.label {
            Some(label) => label.clone(),
            None => "here".to_owned(),
        };
        let mut spans: Vec<LabeledSpan> = Vec::new();
        spans.push(LabeledSpan { label, span: self.span });
        if let Some(other) = self.other_span {
            spans.push(LabeledSpan { label: "conflicts with this edit".to_owned(), span: other });
        }
        spans
    }
}

/// What the error for a node or entry that does not line up with the source says.
pub open spec fn mismatch(source: Seq<char>, span: SourceSpan, message: Seq<char>) -> ErrorView {
    ErrorView {
        input: source,
        kind: EditErrorKind::MismatchedSource,
        span,
        other_span: None,
        message,
        label: Some("recorded span"@),
        help: Some(
            "This node or entry was parsed from a different source (or the source changed). Re-parse and rebuild the plan."@,
        ),
    }
}

/// The error for a node or entry that does not line up with the source.
pub(crate) fn mismatched(source: &str, span: SourceSpan, message: &str) -> (error: EditError)
    ensures
        error@ == mismatch(source@, span, message@),
{
    EditError::new(
        Arc::new(source.to_owned()),
        EditErrorKind::MismatchedSource,
        span,
        None,
        message.to_owned(),
        Some("recorded span"),
        Some(
            "This node or entry was parsed from a different source (or the source changed). Re-parse and rebuild the plan.",
        ),
    )
}

} // verus!
