//! Where a node or a value stands in the source, checked against the source itself.
use crate::error::{mismatch, mismatched, EditError, EditErrorKind, ErrorView};
use crate::span::SourceSpan;
use crate::text::{
    byte_len, lemma_encode_empty, lemma_occurrence_on_boundaries, occurs_at, stands_at,
};
use crate::tree::{KdlEntry, KdlNode};
use crate::value::rendered_name;
use std::sync::Arc;
use vstd::prelude::*;
use vstd::utf8::{encode_utf8, is_char_boundary};

verus! {

/// The exact byte range a node occupies, including the trivia that belongs to that node.
#[derive(Debug, Clone, Copy)]
pub struct NodeBounds {
    /// Where the leading trivia starts.
    pub leading_start: usize,
    /// Where the node itself starts.
    pub body_start: usize,
    /// Where the node itself ends.
    pub body_end: usize,
    /// Where the terminator ends.
    pub terminator_end: usize,
}

/// What the error for a node or entry that was not parsed says.
pub open spec fn unparsed(
    source: Seq<char>,
    span: SourceSpan,
    message: Seq<char>,
    label: Seq<char>,
    help: Seq<char>,
) -> ErrorView {
    ErrorView {
        input: source,
        kind: EditErrorKind::MismatchedSource,
        span,
        other_span: None,
        message,
        label: Some(label),
        help: Some(help),
    }
}

/// `text` is what `source` has at `span`, no more and no less.
pub open spec fn fills(source: Seq<char>, span: SourceSpan, text: Seq<char>) -> bool {
    &&& encode_utf8(text).len() == span.length
    &&& occurs_at(encode_utf8(source), span.first(), encode_utf8(text))
}

/// The name of `node` is what `source` has at the span of the name, and stands in the node.
pub open spec fn name_stands(source: Seq<char>, node: KdlNode) -> bool {
    &&& rendered_name(node.name).len() > 0
    &&& node.span.first() <= node.name.span.first()
    &&& node.name.span.past() <= node.span.past()
    &&& fills(source, node.name.span, rendered_name(node.name))
}

/// `node` stands in `source` as it was parsed: its text is what the source has at its span, its
/// name stands in that text, its leading trivia right before it, and its terminator right after it.
pub open spec fn stands_in(source: Seq<char>, node: KdlNode) -> bool {
    let bytes = encode_utf8(source);
    &&& node.format matches Some(format) && {
        let leading = encode_utf8(format.leading@);
        &&& fills(source, node.span, format.body@)
        &&& is_char_boundary(bytes, node.span.first())
        &&& is_char_boundary(bytes, node.span.past())
        &&& occurs_at(bytes, node.span.first() - leading.len(), leading)
        &&& occurs_at(bytes, node.span.past(), encode_utf8(format.terminator@))
    }
    &&& name_stands(source, node)
}

/// Where `node` stands in `source`: its span lies in the source on character boundaries, its
/// leading trivia stands right before the span, its terminator right after it, its own text is what
/// the source has at the span, and its name is what the source has at the span of the name.
pub open spec fn bounds_of(source: Seq<char>, node: KdlNode) -> Result<NodeBounds, ErrorView> {
    let bytes = encode_utf8(source);
    let start = node.span.first();
    let end = node.span.past();
    if end > bytes.len() || !is_char_boundary(bytes, start) || !is_char_boundary(bytes, end) {
        Err(mismatch(source, node.span, "Node span is outside the source bounds."@))
    } else {
        match node.format {
            None => Err(
                unparsed(
                    source,
                    node.span,
                    "Node does not carry original formatting, so it cannot be located."@,
                    "node"@,
                    "Only nodes obtained by parsing a document can be edited positionally."@,
                ),
            ),
            Some(format) => {
                let leading = encode_utf8(format.leading@);
                let terminator = encode_utf8(format.terminator@);
                if leading.len() > start {
                    Err(
                        mismatch(
                            source,
                            node.span,
                            "Node's recorded leading trivia extends before the start of the source."@,
                        ),
                    )
                } else if !occurs_at(bytes, start - leading.len(), leading) {
                    Err(
                        mismatch(
                            source,
                            node.span,
                            "Node's leading trivia does not match the source at its span."@,
                        ),
                    )
                } else if !occurs_at(bytes, end, terminator) {
                    Err(
                        mismatch(
                            source,
                            node.span,
                            "Node's terminator does not match the source at its span."@,
                        ),
                    )
                } else if !fills(source, node.span, format.body@) {
                    Err(
                        mismatch(
                            source,
                            node.span,
                            "Node's recorded text does not match the source at its span."@,
                        ),
                    )
                } else if !name_stands(source, node) {
                    Err(
                        mismatch(
                            source,
                            node.span,
                            "Node's recorded name does not match the source at its span."@,
                        ),
                    )
                } else {
                    Ok(
                        NodeBounds {
                            leading_start: (start - leading.len()) as usize,
                            body_start: start as usize,
                            body_end: end as usize,
                            terminator_end: (end + terminator.len()) as usize,
                        },
                    )
                }
            },
        }
    }
}

/// What a located node stands on: its bounds are character boundaries of the source, and so are the
/// ends of its name, which is not empty.
pub proof fn lemma_located(source: Seq<char>, node: KdlNode)
    requires
        encode_utf8(source).len() <= usize::MAX,
    ensures
        bounds_of(source, node) matches Ok(bounds) ==> {
            &&& bounds.lie_in(source)
            &&& lies_in(node.name.span, source)
            &&& node.name.span.fits()
            &&& node.name.span.length > 0
        },
{
    if bounds_of(source, node) is Ok {
        let format = node.format->0;
        let leading = encode_utf8(format.leading@);
        let name = rendered_name(node.name);
        lemma_encode_empty(format.leading@);
        lemma_encode_empty(name);
        lemma_occurrence_on_boundaries(source, node.span.first() - leading.len(), format.leading@);
        lemma_occurrence_on_boundaries(source, node.span.past(), format.terminator@);
        lemma_occurrence_on_boundaries(source, node.name.span.first(), name);
    }
}

/// Whether `text` is what `source` has at `span`.
fn filled_by(source: &str, span: SourceSpan, text: &str) -> (filled: bool)
    ensures
        filled == fills(source@, span, text@),
{
    byte_len(text) == span.length && stands_at(source, span.offset, text)
}

/// Whether the name of `node` is what `source` has at its span, and stands in the node.
fn name_found(source: &str, node: &KdlNode) -> (found: bool)
    requires
        node.span.fits(),
    ensures
        found == name_stands(source@, *node),
{
    let span = node.name.span;
    let spelling: String = node.name.to_string();
    proof {
        lemma_encode_empty(spelling@);
    }
    byte_len(spelling.as_str()) > 0 && filled_by(source, span, spelling.as_str())
        && node.span.offset <= span.offset && byte_len(source) >= span.length && span.offset
        <= byte_len(source) - span.length && span.offset + span.length <= node.span.offset
        + node.span.length
}

impl NodeBounds {
    /// The four offsets are in order, with the node itself not empty, and are character boundaries
    /// of `source`.
    pub open spec fn lie_in(self, source: Seq<char>) -> bool {
        let bytes = encode_utf8(source);
        &&& self.leading_start <= self.body_start < self.body_end <= self.terminator_end
        &&& self.terminator_end <= bytes.len()
        &&& is_char_boundary(bytes, self.leading_start as int)
        &&& is_char_boundary(bytes, self.body_start as int)
        &&& is_char_boundary(bytes, self.body_end as int)
        &&& is_char_boundary(bytes, self.terminator_end as int)
    }

    /// Locates `node` in `source`.
    ///
    /// The node's text, its name, leading trivia and terminator must all be the exact bytes that the
    /// source has where they are recorded to stand. This is what rejects nodes parsed from a different
    /// source or an older version.
    pub fn compute(source: &str, node: &KdlNode) -> (result: Result<Self, EditError>)
        ensures
            match result {
                Ok(bounds) => bounds_of(source@, *node) == Ok::<_, ErrorView>(bounds)
                    && bounds.lie_in(source@),
                Err(error) => bounds_of(source@, *node) == Err::<NodeBounds, _>(error@),
            },
    {
        let length: usize = byte_len(source);
        let span = node.span;
        let body_start: usize = span.offset;
        let body_end: usize = match body_start.checked_add(span.length) {
            Some(body_end) => body_end,
            None => {
                return Err(mismatched(source, span, "Node span is outside the source bounds."));
            },
        };
        if body_end > length || !source.is_char_boundary(body_start) || !source.is_char_boundary(
            body_end,
        ) {
            return Err(mismatched(source, span, "Node span is outside the source bounds."));
        }
        let format = match &node.format {
            Some(format) => format,
            None => {
                return Err(
                    EditError::new(
                        Arc::new(source.to_owned()),
                        EditErrorKind::MismatchedSource,
                        span,
                        None,
                        "Node does not carry original formatting, so it cannot be located.".to_owned(),
                        Some("node"),
                        Some("Only nodes obtained by parsing a document can be edited positionally."),
                    ),
                );
            },
        };
        let leading: &str = format.leading.as_str();
        let terminator: &str = format.terminator.as_str();
        let leading_start: usize = match body_start.checked_sub(byte_len(leading)) {
            Some(leading_start) => leading_start,
            None => {
                return Err(
                    mismatched(
                        source,
                        span,
                        "Node's recorded leading trivia extends before the start of the source.",
                    ),
                );
            },
        };
        if !stands_at(source, leading_start, leading) {
            return Err(
                mismatched(
                    source,
                    span,
                    "Node's leading trivia does not match the source at its span.",
                ),
            );
        }
        if !stands_at(source, body_end, terminator) {
            return Err(
                mismatched(source, span, "Node's terminator does not match the source at its span."),
            );
        }
        if !filled_by(source, span, format.body.as_str()) {
            return Err(
                mismatched(
                    source,
                    span,
                    "Node's recorded text does not match the source at its span.",
                ),
            );
        }
        if !name_found(source, node) {
            return Err(
                mismatched(
                    source,
                    span,
                    "Node's recorded name does not match the source at its span.",
                ),
            );
        }
        let terminator_end: usize = body_end + byte_len(terminator);
        proof {
            lemma_located(source@, *node);
        }
        Ok(NodeBounds { leading_start, body_start, body_end, terminator_end })
    }

    /// Range to remove when deleting the node: leading trivia + body + terminator.
    pub(crate) fn delete_span(self) -> (span: SourceSpan)
        requires
            self.leading_start <= self.terminator_end,
        ensures
            span == deleted(self),
    {
        (self.leading_start..self.terminator_end).into()
    }
}

/// The range that deleting a node removes.
pub open spec fn deleted(bounds: NodeBounds) -> SourceSpan {
    SourceSpan {
        offset: bounds.leading_start,
        length: (bounds.terminator_end - bounds.leading_start) as usize,
    }
}

/// Where the value of `entry` stands in `source`: the literal that it was written with is not empty
/// and is what the source has at the end of the entry's span, and the text of the whole entry is what
/// the source has at that span.
pub open spec fn value_span_of(source: Seq<char>, entry: KdlEntry) -> Result<SourceSpan, ErrorView> {
    let bytes = encode_utf8(source);
    match entry.format {
        None => Err(
            unparsed(
                source,
                entry.span,
                "Entry does not carry original source text, so it cannot be located."@,
                "entry"@,
                "Only entries obtained by parsing a document can be edited positionally."@,
            ),
        ),
        Some(format) => {
            let repr = encode_utf8(format.value_repr@);
            if repr.len() == 0 {
                Err(
                    unparsed(
                        source,
                        entry.span,
                        "Entry has no recorded value representation, so it cannot be located."@,
                        "entry"@,
                        "Only entries obtained by parsing a document can be edited positionally."@,
                    ),
                )
            } else if entry.span.length < repr.len() {
                Err(
                    mismatch(
                        source,
                        entry.span,
                        "Entry span is shorter than its recorded value representation."@,
                    ),
                )
            } else if !occurs_at(bytes, entry.span.past() - repr.len(), repr) {
                Err(
                    mismatch(
                        source,
                        entry.span,
                        "Entry's recorded value does not match the source at its span."@,
                    ),
                )
            } else if !fills(source, entry.span, format.text@) {
                Err(
                    mismatch(
                        source,
                        entry.span,
                        "Entry's recorded text does not match the source at its span."@,
                    ),
                )
            } else {
                Ok(
                    SourceSpan {
                        offset: (entry.span.past() - repr.len()) as usize,
                        length: repr.len() as usize,
                    },
                )
            }
        },
    }
}

/// `span` lies in `source` and starts and ends on character boundaries.
pub open spec fn lies_in(span: SourceSpan, source: Seq<char>) -> bool {
    let bytes = encode_utf8(source);
    &&& span.past() <= bytes.len()
    &&& is_char_boundary(bytes, span.first())
    &&& is_char_boundary(bytes, span.past())
}

/// What a located value stands on: its span is not empty and ends on character boundaries.
pub proof fn lemma_value_located(source: Seq<char>, entry: KdlEntry)
    requires
        encode_utf8(source).len() <= usize::MAX,
    ensures
        value_span_of(source, entry) matches Ok(span) ==> {
            &&& lies_in(span, source)
            &&& span.fits()
            &&& span.length > 0
        },
{
    if value_span_of(source, entry) is Ok {
        let repr = entry.format->0.value_repr@;
        lemma_encode_empty(repr);
        lemma_occurrence_on_boundaries(source, entry.span.past() - encode_utf8(repr).len(), repr);
    }
}

/// Resolves the byte span of an entry's value literal.
///
/// The entry span covers `key=value` (or just the value for an argument) and never includes
/// leading/trailing whitespace, and the exact source text of the value is `value_repr`. The value
/// therefore occupies the trailing `value_repr.len()` bytes of the entry span. This holds for
/// plain, quoted and raw strings (including multiline ones), numbers, keywords and typed values.
pub(crate) fn value_span(source: &str, entry: &KdlEntry) -> (result: Result<SourceSpan, EditError>)
    ensures
        match result {
            Ok(span) => value_span_of(source@, *entry) == Ok::<_, ErrorView>(span),
            Err(error) => value_span_of(source@, *entry) == Err::<SourceSpan, _>(error@),
        },
{
    let format = match &entry.format {
        Some(format) => format,
        None => {
            return Err(
                EditError::new(
                    Arc::new(source.to_owned()),
                    EditErrorKind::MismatchedSource,
                    entry.span,
                    None,
                    "Entry does not carry original source text, so it cannot be located.".to_owned(),
                    Some("entry"),
                    Some("Only entries obtained by parsing a document can be edited positionally."),
                ),
            );
        },
    };
    let repr: &str = format.value_repr.as_str();
    let length: usize = byte_len(repr);
    if length == 0 {
        return Err(
            EditError::new(
                Arc::new(source.to_owned()),
                EditErrorKind::MismatchedSource,
                entry.span,
                None,
                "Entry has no recorded value representation, so it cannot be located.".to_owned(),
                Some("entry"),
                Some("Only entries obtained by parsing a document can be edited positionally."),
            ),
        );
    }
    let span = entry.span;
    if span.length < length {
        return Err(
            mismatched(
                source,
                span,
                "Entry span is shorter than its recorded value representation.",
            ),
        );
    }
    let available: usize = byte_len(source);
    if span.length > available || span.offset > available - span.length || !stands_at(
        source,
        span.offset + (span.length - length),
        repr,
    ) {
        return Err(
            mismatched(
                source,
                span,
                "Entry's recorded value does not match the source at its span.",
            ),
        );
    }
    if !filled_by(source, span, format.text.as_str()) {
        return Err(
            mismatched(
                source,
                span,
                "Entry's recorded text does not match the source at its span.",
            ),
        );
    }
    let end: usize = span.offset + span.length;
    let start: usize = end - length;
    Ok((start..end).into())
}

} // verus!
