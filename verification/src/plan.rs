//! Plans of edits to a single source.
use crate::anchor::{value_span, NodeBounds};
use crate::checksum::{fnv1a64, fnv1a64_of};
use crate::edit::{application, apply_edits, edit_views, result_view, EditKind, SourceEdit};
use crate::error::{EditError, EditErrorKind, ErrorView};
use crate::number::push_decimal;
use crate::operation::{
    applied, argument_change, deletion, first_conflict, lemma_conflict_in_prefix,
    lemma_deletion_is_plannable, lemma_plan_is_sound, lemma_planned_keeps,
    lemma_renaming_is_plannable, lemma_revaluing_is_plannable, no_property, place_for, plannable,
    planned, property_change, renaming, revaluing, well_planned, PlanView,
};
use crate::span::{spans_overlap, SourceSpan};
use crate::text::{byte_len, same_text};
use crate::tree::{KdlEntry, KdlIdentifier, KdlNode, KdlValue};
use crate::validate::{debug_text, validate_identifier, validate_value};
use std::sync::Arc;
use vstd::prelude::*;
use vstd::string::StringExecFns;
use vstd::utf8::encode_utf8;

verus! {

/// A plan of non-overlapping, trivia-preserving edits to a single KDL source.
///
/// A plan is always created with [`EditPlan::new`], which binds it to the exact source string the
/// document was parsed from. High level operations are added one at a time; each one is verified
/// against that source. Call [`EditPlan::edits`] to inspect the resulting [`SourceEdit`]s, or
/// [`EditPlan::apply`] to splice them into a copy of the source.
///
/// The plan borrows neither the document nor its nodes: it records byte spans and rendered
/// replacement text. Nodes are looked up by reference only at the time an operation is added, which
/// makes it safe to keep planning even after the original tree is dropped or mutated.
#[derive(Debug)]
pub struct EditPlan {
    source: Arc<String>,
    source_hash: u64,
    edits: Vec<SourceEdit>,
}

impl View for EditPlan {
    type V = PlanView;

    closed spec fn view(&self) -> PlanView {
        PlanView { source: self.source@, edits: edit_views(self.edits@) }
    }
}

impl Clone for EditPlan {
    fn clone(&self) -> (copy: Self)
        ensures
            copy@ == self@,
            well_planned(copy@),
    {
        proof {
            use_type_invariant(self);
        }
        let edits: Vec<SourceEdit> = self.edits.clone();
        assert(edit_views(edits@) =~= edit_views(self.edits@));
        EditPlan { source: self.source.clone(), source_hash: self.source_hash, edits }
    }
}

/// Converts a value to its own type, by `From<T> for T` of the standard library: the argument comes
/// back unchanged. The functions of a plan that take an `Into` reach it for a value that needs no
/// conversion.
pub assume_specification<T>[ <T as core::convert::From<T>>::from ](t: T) -> (ret: T)
    ensures
        ret == t,
;

/// Puts a value into an `Arc`, by `From<T> for Arc<T>` of the standard library: what the `Arc` points
/// to is the value. [`EditPlan::new`] reaches it for a `String`.
pub assume_specification<T>[ <Arc<T> as core::convert::From<T>>::from ](t: T) -> (ret: Arc<T>)
    ensures
        *ret == t,
;

/// The error for a property that the node does not have, with its key as it is to be quoted.
pub fn property_not_found(source: &str, node: &KdlNode, quoted: &str) -> (error: EditError)
    ensures
        error@ == no_property(source@, *node, quoted@),
{
    let mut message: String = "Node has no property named ".to_owned();
    message.append(quoted);
    message.append(".");
    EditError::new(
        Arc::new(source.to_owned()),
        EditErrorKind::NotFound,
        node.name().span(),
        None,
        message,
        Some("node"),
        Some("Only existing properties can be updated positionally; add new ones via the tree API."),
    )
}

impl EditPlan {
    /// The plan is one that [`EditPlan::new`] and the operations can lead to: the checksum it keeps is
    /// that of its source, each edit lies in the source, and ends before the next one starts.
    #[verifier::type_invariant]
    spec fn wf(self) -> bool {
        &&& self.source_hash == fnv1a64_of(encode_utf8(self.source@))
        &&& well_planned(self@)
    }

    /// Creates an empty plan bound to `source`.
    ///
    /// `source` must be the exact string the KDL document (and every node or entry passed to later
    /// operations) was parsed from.
    pub fn new<S: Into<Arc<String>>>(source: S) -> (plan: Self)
        ensures
            exists|text: Arc<String>| #[trigger]
                call_ensures(S::into, (source,), text) && plan@.source == text@,
            plan@.edits.len() == 0,
            well_planned(plan@),
    {
        let source: Arc<String> = source.into();
        let bytes: &[u8] = source.as_str().as_bytes();
        assert(bytes@.len() == bytes.len());
        let source_hash: u64 = fnv1a64(bytes);
        EditPlan { source, source_hash, edits: Vec::new() }
    }

    /// The source string the plan is bound to.
    pub fn source(&self) -> (source: &str)
        ensures
            source@ == self@.source,
    {
        self.source.as_str()
    }

    /// The edits recorded so far, ordered by their position in the source.
    pub fn edits(&self) -> (edits: &[SourceEdit])
        ensures
            edit_views(edits@) == self@.edits,
            well_planned(self@),
    {
        proof {
            use_type_invariant(self);
        }
        self.edits.as_slice()
    }

    /// Consumes the plan and returns its edits, ordered by position.
    pub fn into_edits(self) -> (edits: Vec<SourceEdit>)
        ensures
            edit_views(edits@) == self@.edits,
            well_planned(self@),
    {
        proof {
            use_type_invariant(&self);
        }
        self.edits
    }

    /// Whether no edits have been recorded.
    pub fn is_empty(&self) -> (empty: bool)
        ensures
            empty == (self@.edits.len() == 0),
    {
        self.edits.len() == 0
    }

    /// Number of recorded edits.
    pub fn len(&self) -> (count: usize)
        ensures
            count == self@.edits.len(),
    {
        self.edits.len()
    }

    fn push(&mut self, edit: SourceEdit) -> (result: Result<&mut Self, EditError>)
        requires
            plannable(old(self)@.source, edit@),
        ensures
            match result {
                Ok(plan) => {
                    &&& planned(old(self)@, Ok(edit@)) == Ok::<_, ErrorView>(plan@)
                    &&& well_planned(plan@)
                    &&& *final(self) == *final(plan)
                },
                Err(error) => {
                    &&& planned(old(self)@, Ok(edit@)) == Err::<PlanView, _>(error@)
                    &&& *final(self) == *old(self)
                },
            },
    {
        proof {
            use_type_invariant(&*self);
        }
        let ghost views = edit_views(self.edits@);
        let mut i: usize = 0;
        assert(views.take(0) =~= Seq::empty());
        while i < self.edits.len()
            invariant
                i <= self.edits@.len(),
                *self == *old(self),
                views == edit_views(self.edits@),
                self@.edits == views,
                first_conflict(views.take(i as int), edit.span) is None,
            decreases self.edits@.len() - i,
        {
            let existing: &SourceEdit = &self.edits[i];
            proof {
                assert(views[i as int] == existing@);
                assert(views.take(i + 1).drop_last() =~= views.take(i as int));
                assert(views.take(i + 1).last() == existing@);
            }
            if spans_overlap(existing.span, edit.span) {
                proof {
                    lemma_conflict_in_prefix(views, edit.span, i + 1);
                }
                let mut message: String = "Refusing to apply overlapping edits (".to_owned();
                message.append(edit.kind.to_string().as_str());
                message.append(" overlaps a previous ");
                message.append(existing.kind.to_string().as_str());
                message.append(").");
                return Err(
                    EditError::new(
                        self.source.clone(),
                        EditErrorKind::OverlappingEdits,
                        edit.span,
                        Some(existing.span),
                        message,
                        Some("this edit"),
                        Some(
                            "Split the changes across multiple plans, or remove one of the edits. Containment and crossing edits are never reordered automatically.",
                        ),
                    ),
                );
            }
            i = i + 1;
        }
        assert(views.take(i as int) =~= views);
        let mut at: usize = self.edits.len();
        assert(views.take(at as int) =~= views);
        while at > 0 && self.edits[at - 1].span.offset > edit.span.offset
            invariant
                at <= self.edits@.len(),
                *self == *old(self),
                views == edit_views(self.edits@),
                place_for(views, edit@.span.first()) == place_for(
                    views.take(at as int),
                    edit@.span.first(),
                ),
            decreases at,
        {
            proof {
                assert(views.take(at as int).last() == self.edits@[at - 1]@);
                assert(views.take(at as int).drop_last() =~= views.take(at - 1));
            }
            at = at - 1;
        }
        proof {
            if at > 0 {
                assert(views.take(at as int).last() == self.edits@[at - 1]@);
            }
            assert(place_for(views, edit@.span.first()) == at);
            lemma_planned_keeps(old(self)@, edit@);
        }
        let mut edits: Vec<SourceEdit> = Vec::new();
        std::mem::swap(&mut edits, &mut self.edits);
        edits.insert(at, edit);
        assert(edit_views(edits@) =~= views.insert(at as int, edit@));
        self.edits = edits;
        Ok(self)
    }

    fn set_entry_value(
        &mut self,
        entry: &KdlEntry,
        value: KdlValue,
        kind: EditKind,
    ) -> (result: Result<&mut Self, EditError>)
        ensures
            match result {
                Ok(plan) => {
                    &&& planned(old(self)@, revaluing(old(self)@.source, *entry, value@, kind))
                        == Ok::<_, ErrorView>(plan@)
                    &&& well_planned(plan@)
                    &&& *final(self) == *final(plan)
                },
                Err(error) => {
                    &&& planned(old(self)@, revaluing(old(self)@.source, *entry, value@, kind))
                        == Err::<PlanView, _>(error@)
                    &&& *final(self) == *old(self)
                },
            },
    {
        let rendered: String = value.to_string();
        let span: SourceSpan = match value_span(self.source.as_str(), entry) {
            Ok(span) => span,
            Err(error) => {
                return Err(error);
            },
        };
        match validate_value(self.source.as_str(), span, rendered.as_str(), &value) {
            Ok(_) => {},
            Err(error) => {
                return Err(error);
            },
        }
        proof {
            use_type_invariant(&*self);
            lemma_revaluing_is_plannable(self@.source, *entry, value@, kind);
        }
        self.push(SourceEdit { kind, span, replacement: rendered })
    }

    /// Rename a node, replacing only its name identifier token.
    ///
    /// The node's type annotation, arguments, properties, children and all surrounding trivia are
    /// left untouched. `name` is rendered the same way the tree renderer would render it (quoting it
    /// when necessary).
    pub fn set_node_name<N: Into<KdlIdentifier>>(&mut self, node: &KdlNode, name: N) -> (result:
        Result<&mut Self, EditError>)
        ensures
            exists|name_given: KdlIdentifier| #[trigger]
                call_ensures(N::into, (name,), name_given) && match result {
                    Ok(plan) => {
                        &&& planned(old(self)@, renaming(old(self)@.source, *node, name_given))
                            == Ok::<_, ErrorView>(plan@)
                        &&& well_planned(plan@)
                        &&& *final(self) == *final(plan)
                    },
                    Err(error) => {
                        &&& planned(old(self)@, renaming(old(self)@.source, *node, name_given))
                            == Err::<PlanView, _>(error@)
                        &&& *final(self) == *old(self)
                    },
                },
    {
        let name: KdlIdentifier = name.into();
        match NodeBounds::compute(self.source.as_str(), node) {
            Ok(_) => {},
            Err(error) => {
                return Err(error);
            },
        }
        let rendered: String = name.to_string();
        match validate_identifier(
            self.source.as_str(),
            node.name().span(),
            rendered.as_str(),
            &name,
        ) {
            Ok(_) => {},
            Err(error) => {
                return Err(error);
            },
        }
        proof {
            use_type_invariant(&*self);
            lemma_renaming_is_plannable(self@.source, *node, name);
        }
        self.push(
            SourceEdit {
                kind: EditKind::NodeName,
                span: node.name().span(),
                replacement: rendered,
            },
        )
    }

    /// Replace the value of a positional argument, indexed from zero.
    ///
    /// Only the value literal itself is replaced. An existing type annotation, the whitespace before
    /// the entry and all comments are preserved.
    pub fn set_argument<V: Into<KdlValue>>(
        &mut self,
        node: &KdlNode,
        index: usize,
        value: V,
    ) -> (result: Result<&mut Self, EditError>)
        ensures
            exists|value_given: KdlValue| #[trigger]
                call_ensures(V::into, (value,), value_given) && match result {
                    Ok(plan) => {
                        &&& planned(
                            old(self)@,
                            argument_change(
                                old(self)@.source,
                                *node,
                                index as nat,
                                value_given@,
                            ),
                        ) == Ok::<_, ErrorView>(plan@)
                        &&& well_planned(plan@)
                        &&& *final(self) == *final(plan)
                    },
                    Err(error) => {
                        &&& planned(
                            old(self)@,
                            argument_change(
                                old(self)@.source,
                                *node,
                                index as nat,
                                value_given@,
                            ),
                        ) == Err::<PlanView, _>(error@)
                        &&& *final(self) == *old(self)
                    },
                },
    {
        let value: KdlValue = value.into();
        match NodeBounds::compute(self.source.as_str(), node) {
            Ok(_) => {},
            Err(error) => {
                return Err(error);
            },
        }
        match node.argument(index) {
            Some(entry) => self.set_entry_value(entry, value, EditKind::Argument),
            None => {
                let mut message: String = "Node has no argument at index ".to_owned();
                push_decimal(&mut message, index as u128);
                message.append(".");
                Err(
                    EditError::new(
                        self.source.clone(),
                        EditErrorKind::NotFound,
                        node.name().span(),
                        None,
                        message,
                        Some("node"),
                        Some("Argument indices are zero-based and count only positional values."),
                    ),
                )
            },
        }
    }

    /// Replace the value of the property named `key`.
    ///
    /// As with the tree API, the *last* property with that name is the one addressed. Only the value
    /// literal is replaced; the key, `=`, type annotation and trivia are preserved.
    pub fn set_property<V: Into<KdlValue>>(
        &mut self,
        node: &KdlNode,
        key: &str,
        value: V,
    ) -> (result: Result<&mut Self, EditError>)
        ensures
            exists|value_given: KdlValue| #[trigger]
                call_ensures(V::into, (value,), value_given) && match result {
                    Ok(plan) => {
                        &&& planned(
                            old(self)@,
                            property_change(old(self)@.source, *node, key@, value_given@),
                        ) == Ok::<_, ErrorView>(plan@)
                        &&& well_planned(plan@)
                        &&& *final(self) == *final(plan)
                    },
                    Err(error) => {
                        &&& planned(
                            old(self)@,
                            property_change(old(self)@.source, *node, key@, value_given@),
                        ) == Err::<PlanView, _>(error@)
                        &&& *final(self) == *old(self)
                    },
                },
    {
        let value: KdlValue = value.into();
        match NodeBounds::compute(self.source.as_str(), node) {
            Ok(_) => {},
            Err(error) => {
                return Err(error);
            },
        }
        match node.property(key) {
            Some(entry) => self.set_entry_value(entry, value, EditKind::Property),
            None => Err(
                property_not_found(self.source.as_str(), node, debug_text(key).as_str()),
            ),
        }
    }

    /// Delete a node.
    ///
    /// The removed range is exactly what removing the node through the tree API would discard: the
    /// node's own leading trivia, the whole node and its terminator (including a trailing comment or
    /// a CRLF newline). The terminator that separates it from the following node and any document
    /// trailing trivia are preserved.
    pub fn delete_node(&mut self, node: &KdlNode) -> (result: Result<&mut Self, EditError>)
        ensures
            match result {
                Ok(plan) => {
                    &&& planned(old(self)@, deletion(old(self)@.source, *node)) == Ok::<
                        _,
                        ErrorView,
                    >(plan@)
                    &&& well_planned(plan@)
                    &&& *final(self) == *final(plan)
                },
                Err(error) => {
                    &&& planned(old(self)@, deletion(old(self)@.source, *node)) == Err::<
                        PlanView,
                        _,
                    >(error@)
                    &&& *final(self) == *old(self)
                },
            },
    {
        let bounds: NodeBounds = match NodeBounds::compute(self.source.as_str(), node) {
            Ok(bounds) => bounds,
            Err(error) => {
                return Err(error);
            },
        };
        proof {
            use_type_invariant(&*self);
            lemma_deletion_is_plannable(self@.source, *node);
        }
        self.push(
            SourceEdit {
                kind: EditKind::DeleteNode,
                span: bounds.delete_span(),
                replacement: String::new(),
            },
        )
    }

    /// Applies the recorded edits to `source`, returning the new text.
    ///
    /// `source` must be identical (byte for byte) to the string the plan was created from. Length and
    /// checksum tell most other versions apart at once, and the texts themselves are compared where
    /// these agree, so applying a plan to a different version of the document fails with
    /// [`EditErrorKind::StaleSource`] instead of producing corrupt output.
    pub fn apply(&self, source: &str) -> (result: Result<String, EditError>)
        ensures
            applied(self@, source@, result_view(result)),
            source@ == self@.source ==> result is Ok,
            source@ != self@.source ==> (result matches Err(error) && error.kind
                == EditErrorKind::StaleSource),
    {
        proof {
            use_type_invariant(self);
        }
        let length: usize = byte_len(self.source.as_str());
        if byte_len(source) != length || fnv1a64(source.as_bytes()) != self.source_hash
            || !same_text(source, self.source.as_str()) {
            return Err(
                EditError::new(
                    self.source.clone(),
                    EditErrorKind::StaleSource,
                    (0..length).into(),
                    None,
                    "Cannot apply an edit plan to a different source version than the one it was planned against.".to_owned(),
                    Some("plan was built against this text"),
                    Some(
                        "Re-parse the current source and rebuild the edit plan before applying it.",
                    ),
                ),
            );
        }
        proof {
            lemma_plan_is_sound(self@);
        }
        apply_edits(source, self.edits.as_slice())
    }

    /// Applies the recorded edits to the plan's own bound source.
    pub fn apply_to_source(&self) -> (result: Result<String, EditError>)
        ensures
            application(self@.source, self@.edits, result_view(result)),
            result is Ok,
    {
        proof {
            use_type_invariant(self);
            lemma_plan_is_sound(self@);
        }
        apply_edits(self.source.as_str(), self.edits.as_slice())
    }
}

} // verus!
