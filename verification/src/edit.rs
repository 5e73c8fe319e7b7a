//! Single replacements, and splicing them into a source.
use crate::anchor::lies_in;
use crate::error::{EditError, EditErrorKind, ErrorView};
use crate::span::SourceSpan;
use crate::text::{between, byte_len, lemma_encode_concat};
use std::sync::Arc;
use vstd::prelude::*;
use vstd::string::StringExecFns;
use vstd::utf8::{
    encode_utf8, encode_utf8_valid_utf8, is_char_boundary, is_char_boundary_start_end_of_seq,
};

verus! {

/// The high level operation a [`SourceEdit`] was created from.
///
/// This is primarily useful for diagnostics and for tooling that wants to report what a plan is
/// about to do.
#[derive(Debug, Clone, Copy, PartialEq, Eq, Structural)]
#[non_exhaustive]
pub enum EditKind {
    /// A node name is being changed.
    NodeName,
    /// A positional argument is being changed.
    Argument,
    /// A property value is being changed.
    Property,
    /// A node (and its own trivia/terminator) is being removed.
    DeleteNode,
}

/// What a kind of operation is called.
pub open spec fn kind_text(kind: EditKind) -> Seq<char> {
    match kind {
        EditKind::NodeName => "update node name"@,
        EditKind::Argument => "update argument"@,
        EditKind::Property => "update property"@,
        EditKind::DeleteNode => "delete node"@,
    }
}

impl EditKind {
    /// What the operation is called.
    pub fn to_string(&self) -> (text: String)
        ensures
            text@ == kind_text(*self),
    {
        match self {
            EditKind::NodeName => "update node name".to_owned(),
            EditKind::Argument => "update argument".to_owned(),
            EditKind::Property => "update property".to_owned(),
            EditKind::DeleteNode => "delete node".to_owned(),
        }
    }
}

/// A single, byte-accurate replacement inside a source string.
///
/// A `SourceEdit` replaces the bytes in `span` with `replacement`. An empty `replacement` is a
/// deletion. The spans produced by an `EditPlan` are guaranteed not to overlap.
///
/// Spans are byte offsets into the source string the plan was created from.
#[derive(Debug, PartialEq, Eq)]
pub struct SourceEdit {
    /// What kind of high level operation produced this edit.
    pub kind: EditKind,
    /// Byte span in the original source that is replaced.
    pub span: SourceSpan,
    /// Text that is substituted for `span`.
    pub replacement: String,
}

/// What a [`SourceEdit`] says.
pub struct EditView {
    /// What kind of operation it is.
    pub kind: EditKind,
    /// Which bytes are replaced.
    pub span: SourceSpan,
    /// By what.
    pub replacement: Seq<char>,
}

impl View for SourceEdit {
    type V = EditView;

    open spec fn view(&self) -> EditView {
        EditView { kind: self.kind, span: self.span, replacement: self.replacement@ }
    }
}

impl Clone for SourceEdit {
    fn clone(&self) -> (copy: Self)
        ensures
            copy@ == self@,
    {
        SourceEdit { kind: self.kind, span: self.span, replacement: self.replacement.clone() }
    }
}

/// What a list of edits says.
pub open spec fn edit_views(edits: Seq<SourceEdit>) -> Seq<EditView> {
    edits.map_values(|edit: SourceEdit| edit@)
}

impl SourceEdit {
    /// The kind of operation this edit performs.
    pub fn kind(&self) -> (kind: EditKind)
        ensures
            kind == self@.kind,
    {
        self.kind
    }

    /// The byte span replaced by this edit.
    pub fn span(&self) -> (span: SourceSpan)
        ensures
            span == self@.span,
    {
        self.span
    }

    /// Start byte offset (inclusive) of this edit.
    pub fn start(&self) -> (start: usize)
        ensures
            start == self@.span.first(),
    {
        self.span.offset
    }

    /// End byte offset (exclusive) of this edit.
    pub fn end(&self) -> (end: usize)
        requires
            self@.span.fits(),
        ensures
            end == self@.span.past(),
    {
        self.span.offset + self.span.length
    }

    /// The text substituted for the original span.
    pub fn replacement(&self) -> (replacement: &str)
        ensures
            replacement@ == self@.replacement,
    {
        self.replacement.as_str()
    }

    /// `true` if the edit removes bytes without inserting any.
    pub fn is_deletion(&self) -> (deletion: bool)
        ensures
            deletion == (self@.replacement.len() == 0),
    {
        self.replacement.as_str().is_empty()
    }
}

/// Where the edit before the one at `i` ends; the start of the source if there is none.
pub open spec fn end_before(edits: Seq<EditView>, i: int) -> int {
    if i <= 0 {
        0
    } else {
        edits[i - 1].span.past()
    }
}

/// The edit at `i` starts before the previous one ends, or ends outside the source.
pub open spec fn misplaced(source: Seq<char>, edits: Seq<EditView>, i: int) -> bool {
    ||| edits[i].span.first() < end_before(edits, i)
    ||| edits[i].span.past() > encode_utf8(source).len()
}

/// The edit at `i` cannot be applied: it is misplaced or cuts a character in two.
pub open spec fn faulty(source: Seq<char>, edits: Seq<EditView>, i: int) -> bool {
    ||| misplaced(source, edits, i)
    ||| !lies_in(edits[i].span, source)
}

/// Every edit can be applied.
pub open spec fn all_sound(source: Seq<char>, edits: Seq<EditView>) -> bool {
    forall|i: int| 0 <= i < edits.len() ==> !#[trigger] faulty(source, edits, i)
}

/// The edit at `i` is the first that cannot be applied.
pub open spec fn first_fault(source: Seq<char>, edits: Seq<EditView>, i: int) -> bool {
    &&& 0 <= i < edits.len()
    &&& faulty(source, edits, i)
    &&& forall|j: int| 0 <= j < i ==> !#[trigger] faulty(source, edits, j)
}

/// What the error for the edit at `i` says.
pub open spec fn fault(source: Seq<char>, edits: Seq<EditView>, i: int) -> ErrorView {
    if misplaced(source, edits, i) {
        ErrorView {
            input: source,
            kind: EditErrorKind::MismatchedSource,
            span: edits[i].span,
            other_span: None,
            message: "Edit span is out of bounds or overlaps another edit."@,
            label: Some("invalid edit span"@),
            help: Some("Only apply edits produced from this exact source."@),
        }
    } else {
        ErrorView {
            input: source,
            kind: EditErrorKind::InvalidUtf8,
            span: edits[i].span,
            other_span: None,
            message: "Edit span does not lie on a UTF-8 boundary."@,
            label: Some("invalid edit span"@),
            help: None,
        }
    }
}

/// The bytes that the source up to the end of the `n`-th edit turns into: what lies between two
/// edits is kept, what lies under an edit is replaced.
pub open spec fn spliced_up_to(bytes: Seq<u8>, edits: Seq<EditView>, n: int) -> Seq<u8>
    decreases n,
{
    if n <= 0 {
        Seq::empty()
    } else {
        spliced_up_to(bytes, edits, n - 1) + bytes.subrange(
            end_before(edits, n - 1),
            edits[n - 1].span.first(),
        ) + encode_utf8(edits[n - 1].replacement)
    }
}

/// The bytes that the whole source turns into.
pub open spec fn spliced(bytes: Seq<u8>, edits: Seq<EditView>) -> Seq<u8> {
    spliced_up_to(bytes, edits, edits.len() as int) + bytes.subrange(
        end_before(edits, edits.len() as int),
        bytes.len() as int,
    )
}

/// What applying `edits` to `source` gives: the spliced text if every edit can be applied, and
/// otherwise the error for the first that cannot.
pub open spec fn application(
    source: Seq<char>,
    edits: Seq<EditView>,
    result: Result<Seq<char>, ErrorView>,
) -> bool {
    match result {
        Ok(text) => {
            &&& all_sound(source, edits)
            &&& encode_utf8(text) == spliced(encode_utf8(source), edits)
        },
        Err(error) => exists|i: int| #[trigger]
            first_fault(source, edits, i) && error == fault(source, edits, i),
    }
}

/// A result by what its text or its error says.
pub open spec fn result_view(result: Result<String, EditError>) -> Result<Seq<char>, ErrorView> {
    match result {
        Ok(text) => Ok(text@),
        Err(error) => Err(error@),
    }
}

/// Applies a slice of non-overlapping [`SourceEdit`]s to `source`.
///
/// This is a convenience for callers that obtain edits from `EditPlan::edits` (for example to hand
/// them to another tool) and later want to splice them back in. Edits must be non-overlapping and
/// relative to `source`; the spans are validated before splicing.
pub fn apply_edits(source: &str, edits: &[SourceEdit]) -> (result: Result<String, EditError>)
    ensures
        application(source@, edit_views(edits@), result_view(result)),
{
    let ghost views = edit_views(edits@);
    let ghost bytes = encode_utf8(source@);
    proof {
        encode_utf8_valid_utf8(source@);
        is_char_boundary_start_end_of_seq(bytes);
    }
    let length: usize = byte_len(source);
    let mut out: String = String::new();
    let mut cursor: usize = 0;
    let mut i: usize = 0;
    while i < edits.len()
        invariant
            i <= edits.len(),
            views == edit_views(edits@),
            bytes == encode_utf8(source@),
            length == bytes.len(),
            forall|j: int| 0 <= j < i ==> !#[trigger] faulty(source@, views, j),
            cursor == end_before(views, i as int),
            cursor <= length,
            is_char_boundary(bytes, cursor as int),
            encode_utf8(out@) == spliced_up_to(bytes, views, i as int),
        decreases edits.len() - i,
    {
        let edit: &SourceEdit = &edits[i];
        assert(views[i as int] == edit@);
        let start: usize = edit.start();
        if start < cursor || start > length || edit.span.length > length - start {
            proof {
                assert(first_fault(source@, views, i as int));
            }
            return Err(
                EditError::new(
                    Arc::new(source.to_owned()),
                    EditErrorKind::MismatchedSource,
                    edit.span,
                    None,
                    "Edit span is out of bounds or overlaps another edit.".to_owned(),
                    Some("invalid edit span"),
                    Some("Only apply edits produced from this exact source."),
                ),
            );
        }
        let end: usize = edit.end();
        if !source.is_char_boundary(start) || !source.is_char_boundary(end) {
            proof {
                assert(first_fault(source@, views, i as int));
            }
            return Err(
                EditError::new(
                    Arc::new(source.to_owned()),
                    EditErrorKind::InvalidUtf8,
                    edit.span,
                    None,
                    "Edit span does not lie on a UTF-8 boundary.".to_owned(),
                    Some("invalid edit span"),
                    None,
                ),
            );
        }
        let kept: &str = between(source, cursor, start);
        proof {
            lemma_encode_concat(out@, kept@);
            lemma_encode_concat(out@ + kept@, edit@.replacement);
        }
        out.append(kept);
        out.append(edit.replacement.as_str());
        cursor = end;
        i = i + 1;
    }
    let kept: &str = between(source, cursor, length);
    proof {
        lemma_encode_concat(out@, kept@);
    }
    out.append(kept);
    Ok(out)
}

} // verus!
