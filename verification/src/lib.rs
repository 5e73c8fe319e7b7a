//! Positional, trivia-preserving edits of KDL sources.
//!
//! An [`EditPlan`] is created from the exact source string that was parsed and turns high level
//! operations on a node (renaming it, changing an argument or property, or deleting it) into a set
//! of non-overlapping byte [`SourceEdit`]s. [`EditPlan::apply`] splices those edits into a copy of
//! the source, leaving every byte that belongs to untouched trivia completely alone.
//!
//! Every operation is verified against the source it belongs to:
//!
//! * the span of the node or entry being edited must still point at the exact original bytes, so a
//!   node from a different parse (or a different source version) is rejected with an [`EditError`]
//!   instead of silently editing the wrong place;
//! * the plan refuses overlapping or containing edits rather than guessing which order to apply
//!   them in;
//! * replacement values are rendered and read back, which guarantees that they are valid KDL.
pub mod anchor;
pub mod checksum;
pub mod edit;
pub mod error;
pub mod laws;
pub mod number;
pub mod operation;
pub mod plan;
pub mod reader;
pub mod scan;
pub mod span;
pub mod strings;
pub mod syntax;
pub mod text;
pub mod tree;
pub mod validate;
pub mod value;

pub use anchor::NodeBounds;
pub use checksum::fnv1a64;
pub use edit::{apply_edits, EditKind, SourceEdit};
pub use error::{EditError, EditErrorInner, EditErrorKind, LabeledSpan};
pub use plan::EditPlan;
pub use span::SourceSpan;
pub use tree::{KdlEntry, KdlEntryFormat, KdlIdentifier, KdlNode, KdlNodeFormat, KdlValue};
