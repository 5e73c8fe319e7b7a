//! What the operations of a plan do to it.
use crate::anchor::{
    bounds_of, deleted, lemma_located, lemma_value_located, lies_in, value_span_of,
};
use crate::edit::{
    all_sound, application, faulty, first_fault, kind_text, EditKind, EditView,
};
use crate::error::{EditErrorKind, ErrorView};
use crate::number::decimal;
use crate::span::{overlapping, SourceSpan};
use crate::tree::{argument_at, last_property, KdlEntry, KdlIdentifier, KdlNode, ValueView};
use crate::validate::{debug_form, name_fault, value_fault};
use crate::value::{rendered_name, rendered_value};
use vstd::prelude::*;
use vstd::utf8::encode_utf8;

verus! {

/// What an `EditPlan` says: which source it is bound to, and the edits in it.
pub struct PlanView {
    /// The source that the plan is bound to.
    pub source: Seq<char>,
    /// The edits, in the order of their positions.
    pub edits: Seq<EditView>,
}

/// Each edit replaces something and ends before the next one starts.
pub open spec fn sequenced(edits: Seq<EditView>) -> bool {
    &&& forall|i: int| 0 <= i < edits.len() ==> (#[trigger] edits[i]).span.length > 0
    &&& forall|i: int, j: int|
        0 <= i < j < edits.len() ==> (#[trigger] edits[i]).span.past() <= (
        #[trigger] edits[j]).span.first()
}

/// An edit that a plan for `source` can hold: it replaces something, and what it replaces lies in
/// the source, between character boundaries.
pub open spec fn plannable(source: Seq<char>, edit: EditView) -> bool {
    &&& edit.span.length > 0
    &&& edit.span.fits()
    &&& lies_in(edit.span, source)
}

/// What holds of every plan: each edit lies in the source and ends before the next one starts, and
/// offsets into the source fit a `usize`.
pub open spec fn well_planned(plan: PlanView) -> bool {
    &&& encode_utf8(plan.source).len() <= usize::MAX
    &&& sequenced(plan.edits)
    &&& forall|i: int|
        0 <= i < plan.edits.len() ==> plannable(plan.source, #[trigger] plan.edits[i])
}

/// Where an edit that starts at `start` goes: after the last edit that starts no later.
pub open spec fn place_for(edits: Seq<EditView>, start: int) -> int
    decreases edits.len(),
{
    if edits.len() == 0 {
        0
    } else if edits.last().span.first() <= start {
        edits.len() as int
    } else {
        place_for(edits.drop_last(), start)
    }
}

/// The first edit that overlaps `span`, if any.
pub open spec fn first_conflict(edits: Seq<EditView>, span: SourceSpan) -> Option<int>
    decreases edits.len(),
{
    if edits.len() == 0 {
        None
    } else if first_conflict(edits.drop_last(), span) is Some {
        first_conflict(edits.drop_last(), span)
    } else if overlapping(edits.last().span, span) {
        Some(edits.len() - 1)
    } else {
        None
    }
}

/// What the error for an edit that overlaps an earlier one says.
pub open spec fn overlap(source: Seq<char>, edit: EditView, existing: EditView) -> ErrorView {
    ErrorView {
        input: source,
        kind: EditErrorKind::OverlappingEdits,
        span: edit.span,
        other_span: Some(existing.span),
        message: "Refusing to apply overlapping edits ("@ + kind_text(edit.kind)
            + " overlaps a previous "@ + kind_text(existing.kind) + ")."@,
        label: Some("this edit"@),
        help: Some(
            "Split the changes across multiple plans, or remove one of the edits. Containment and crossing edits are never reordered automatically."@,
        ),
    }
}

/// What the error for an argument or a property that the node does not have says.
pub open spec fn not_found(
    source: Seq<char>,
    node: KdlNode,
    message: Seq<char>,
    help: Seq<char>,
) -> ErrorView {
    ErrorView {
        input: source,
        kind: EditErrorKind::NotFound,
        span: node.name.span,
        other_span: None,
        message,
        label: Some("node"@),
        help: Some(help),
    }
}

/// What the error for a property that the node does not have says; `quoted` is its key, quoted.
pub open spec fn no_property(source: Seq<char>, node: KdlNode, quoted: Seq<char>) -> ErrorView {
    not_found(
        source,
        node,
        "Node has no property named "@ + quoted + "."@,
        "Only existing properties can be updated positionally; add new ones via the tree API."@,
    )
}

/// What the error for applying a plan to another source than its own says.
pub open spec fn stale(source: Seq<char>) -> ErrorView {
    ErrorView {
        input: source,
        kind: EditErrorKind::StaleSource,
        span: SourceSpan { offset: 0, length: encode_utf8(source).len() as usize },
        other_span: None,
        message: "Cannot apply an edit plan to a different source version than the one it was planned against."@,
        label: Some("plan was built against this text"@),
        help: Some("Re-parse the current source and rebuild the edit plan before applying it."@),
    }
}

/// The edit that renames `node`: its name token is replaced by how `name` is written.
pub open spec fn renaming(source: Seq<char>, node: KdlNode, name: KdlIdentifier) -> Result<
    EditView,
    ErrorView,
> {
    match bounds_of(source, node) {
        Err(error) => Err(error),
        Ok(_) => match name_fault(source, node.name.span, rendered_name(name), name.value@) {
            Some(error) => Err(error),
            None => Ok(
                EditView {
                    kind: EditKind::NodeName,
                    span: node.name.span,
                    replacement: rendered_name(name),
                },
            ),
        },
    }
}

/// The edit that gives `entry` another value: its value literal is replaced by how `value` is
/// written.
pub open spec fn revaluing(
    source: Seq<char>,
    entry: KdlEntry,
    value: ValueView,
    kind: EditKind,
) -> Result<EditView, ErrorView> {
    match value_span_of(source, entry) {
        Err(error) => Err(error),
        Ok(span) => match value_fault(source, span, rendered_value(value), value) {
            Some(error) => Err(error),
            None => Ok(EditView { kind, span, replacement: rendered_value(value) }),
        },
    }
}

/// The edit that gives the argument at `index` another value.
pub open spec fn argument_change(
    source: Seq<char>,
    node: KdlNode,
    index: nat,
    value: ValueView,
) -> Result<EditView, ErrorView> {
    match bounds_of(source, node) {
        Err(error) => Err(error),
        Ok(_) => match argument_at(node.entries@, index) {
            None => Err(
                not_found(
                    source,
                    node,
                    "Node has no argument at index "@ + decimal(index) + "."@,
                    "Argument indices are zero-based and count only positional values."@,
                ),
            ),
            Some(entry) => revaluing(source, entry, value, EditKind::Argument),
        },
    }
}

/// The edit that gives the last property named `key` another value.
pub open spec fn property_change(
    source: Seq<char>,
    node: KdlNode,
    key: Seq<char>,
    value: ValueView,
) -> Result<EditView, ErrorView> {
    match bounds_of(source, node) {
        Err(error) => Err(error),
        Ok(_) => match last_property(node.entries@, key) {
            None => Err(no_property(source, node, debug_form(key))),
            Some(entry) => revaluing(source, entry, value, EditKind::Property),
        },
    }
}

/// The edit that deletes `node`: its leading trivia, the node and its terminator are replaced by
/// nothing.
pub open spec fn deletion(source: Seq<char>, node: KdlNode) -> Result<EditView, ErrorView> {
    match bounds_of(source, node) {
        Err(error) => Err(error),
        Ok(bounds) => Ok(
            EditView {
                kind: EditKind::DeleteNode,
                span: deleted(bounds),
                replacement: Seq::empty(),
            },
        ),
    }
}

/// What a plan becomes when an operation is added to it: the edit of the operation goes to its
/// place, unless there is none or it overlaps an edit that is already there.
pub open spec fn planned(plan: PlanView, edit: Result<EditView, ErrorView>) -> Result<
    PlanView,
    ErrorView,
> {
    match edit {
        Err(error) => Err(error),
        Ok(edit) => match first_conflict(plan.edits, edit.span) {
            Some(i) => Err(overlap(plan.source, edit, plan.edits[i])),
            None => Ok(
                PlanView {
                    source: plan.source,
                    edits: plan.edits.insert(place_for(plan.edits, edit.span.first()), edit),
                },
            ),
        },
    }
}

/// What applying a plan to `source` gives: what applying its edits gives if the source is the plan's
/// own, byte for byte, and otherwise the error that it is another.
pub open spec fn applied(
    plan: PlanView,
    source: Seq<char>,
    result: Result<Seq<char>, ErrorView>,
) -> bool {
    if source == plan.source {
        application(source, plan.edits, result)
    } else {
        result == Err::<Seq<char>, _>(stale(plan.source))
    }
}

/// A conflict is an edit of the plan, overlaps, and is the first to do so.
pub proof fn lemma_first_conflict(edits: Seq<EditView>, span: SourceSpan)
    ensures
        match first_conflict(edits, span) {
            Some(i) => {
                &&& 0 <= i < edits.len()
                &&& overlapping(edits[i].span, span)
                &&& forall|j: int| 0 <= j < i ==> !overlapping((#[trigger] edits[j]).span, span)
            },
            None => forall|j: int|
                0 <= j < edits.len() ==> !overlapping((#[trigger] edits[j]).span, span),
        },
    decreases edits.len(),
{
    if edits.len() > 0 {
        lemma_first_conflict(edits.drop_last(), span);
        let before = edits.drop_last();
        assert(forall|j: int| 0 <= j < before.len() ==> before[j] == edits[j]);
        match first_conflict(before, span) {
            Some(i) => {
                assert forall|j: int| 0 <= j < i implies !overlapping(
                    (#[trigger] edits[j]).span,
                    span,
                ) by {
                    assert(before[j] == edits[j]);
                }
            },
            None => {
                assert forall|j: int| 0 <= j < before.len() implies !overlapping(
                    (#[trigger] edits[j]).span,
                    span,
                ) by {
                    assert(before[j] == edits[j]);
                }
            },
        }
    }
}

/// The first conflict of a prefix is that of the whole.
pub proof fn lemma_conflict_in_prefix(edits: Seq<EditView>, span: SourceSpan, n: int)
    requires
        0 <= n <= edits.len(),
        first_conflict(edits.take(n), span) is Some,
    ensures
        first_conflict(edits, span) == first_conflict(edits.take(n), span),
    decreases edits.len(),
{
    if n < edits.len() {
        assert(edits.drop_last().take(n) =~= edits.take(n));
        lemma_conflict_in_prefix(edits.drop_last(), span, n);
    } else {
        assert(edits.take(n) =~= edits);
    }
}

/// All edits before the place start no later, and all after it start later.
pub proof fn lemma_place_for(edits: Seq<EditView>, start: int)
    requires
        sequenced(edits),
    ensures
        0 <= place_for(edits, start) <= edits.len(),
        forall|i: int|
            0 <= i < place_for(edits, start) ==> (#[trigger] edits[i]).span.first() <= start,
        forall|i: int|
            place_for(edits, start) <= i < edits.len() ==> (#[trigger] edits[i]).span.first()
                > start,
    decreases edits.len(),
{
    if edits.len() > 0 {
        let last = edits.len() - 1;
        if edits[last].span.first() > start {
            let before = edits.drop_last();
            assert(forall|i: int| 0 <= i < before.len() ==> before[i] == edits[i]);
            assert(sequenced(before));
            lemma_place_for(before, start);
            assert forall|i: int| 0 <= i < place_for(edits, start) implies (
            #[trigger] edits[i]).span.first() <= start by {
                assert(before[i] == edits[i]);
            }
            assert forall|i: int| place_for(edits, start) <= i < edits.len() implies (
            #[trigger] edits[i]).span.first() > start by {
                if i < before.len() {
                    assert(before[i] == edits[i]);
                }
            }
        } else {
            assert forall|i: int| 0 <= i < edits.len() implies (#[trigger] edits[i]).span.first()
                <= start by {
                assert(i == last || edits[i].span.past() <= edits[last].span.first());
            }
        }
    }
}

/// Adding an edit that overlaps none at its place keeps edits in sequence.
pub proof fn lemma_sequence_kept(edits: Seq<EditView>, edit: EditView)
    requires
        sequenced(edits),
        edit.span.length > 0,
        forall|i: int|
            0 <= i < edits.len() ==> !overlapping((#[trigger] edits[i]).span, edit.span),
    ensures
        sequenced(edits.insert(place_for(edits, edit.span.first()), edit)),
{
    let at = place_for(edits, edit.span.first());
    lemma_place_for(edits, edit.span.first());
    let after = edits.insert(at, edit);
    assert(after[at] == edit);
    assert(forall|i: int| 0 <= i < at ==> after[i] == edits[i]);
    assert(forall|i: int| at < i < after.len() ==> after[i] == edits[i - 1]);
    assert forall|i: int| 0 <= i < after.len() implies (#[trigger] after[i]).span.length > 0 by {
        if i < at {
            assert(edits[i].span.length > 0);
        } else if i > at {
            assert(edits[i - 1].span.length > 0);
        }
    }
    assert forall|i: int, j: int| 0 <= i < j < after.len() implies (#[trigger] after[i]).span.past()
        <= (#[trigger] after[j]).span.first() by {
        let a = if i < at {
            i
        } else {
            i - 1
        };
        let b = if j < at {
            j
        } else {
            j - 1
        };
        if i == at {
            assert(!overlapping(edits[b].span, edit.span));
            assert(edits[b].span.length > 0);
        } else if j == at {
            assert(!overlapping(edits[a].span, edit.span));
            assert(edits[a].span.length > 0);
        } else {
            assert(edits[a].span.past() <= edits[b].span.first());
        }
    }
}

/// Adding an edit that overlaps none keeps a plan what it has to be.
pub proof fn lemma_planned_keeps(plan: PlanView, edit: EditView)
    requires
        well_planned(plan),
        plannable(plan.source, edit),
    ensures
        planned(plan, Ok(edit)) matches Ok(after) ==> well_planned(after),
{
    let edits = plan.edits;
    let at = place_for(edits, edit.span.first());
    lemma_first_conflict(edits, edit.span);
    lemma_place_for(edits, edit.span.first());
    if first_conflict(edits, edit.span) is None {
        lemma_sequence_kept(edits, edit);
        let after = edits.insert(at, edit);
        assert forall|i: int| 0 <= i < after.len() implies plannable(
            plan.source,
            #[trigger] after[i],
        ) by {
            if i < at {
                assert(plannable(plan.source, edits[i]));
            } else if i > at {
                assert(plannable(plan.source, edits[i - 1]));
            }
        }
    }
}

/// Every edit of a plan can be applied to the source of the plan, so applying it gives a text.
pub proof fn lemma_plan_is_sound(plan: PlanView)
    requires
        well_planned(plan),
    ensures
        all_sound(plan.source, plan.edits),
        forall|result: Result<Seq<char>, ErrorView>| #[trigger]
            application(plan.source, plan.edits, result) ==> result is Ok,
{
    let source = plan.source;
    let edits = plan.edits;
    assert forall|i: int| 0 <= i < edits.len() implies !#[trigger] faulty(source, edits, i) by {
        assert(plannable(source, edits[i]));
        if i > 0 {
            assert(edits[i - 1].span.past() <= edits[i].span.first());
        }
    }
    assert forall|result: Result<Seq<char>, ErrorView>| #[trigger]
        application(source, edits, result) implies result is Ok by {
        if result is Err {
            let i = choose|i: int| #[trigger] first_fault(source, edits, i);
            assert(faulty(source, edits, i));
        }
    }
}

/// The edit that renames a node can be planned.
pub proof fn lemma_renaming_is_plannable(source: Seq<char>, node: KdlNode, name: KdlIdentifier)
    requires
        encode_utf8(source).len() <= usize::MAX,
    ensures
        renaming(source, node, name) matches Ok(edit) ==> plannable(source, edit),
{
    lemma_located(source, node);
}

/// The edit that gives an entry another value can be planned.
pub proof fn lemma_revaluing_is_plannable(
    source: Seq<char>,
    entry: KdlEntry,
    value: ValueView,
    kind: EditKind,
)
    requires
        encode_utf8(source).len() <= usize::MAX,
    ensures
        revaluing(source, entry, value, kind) matches Ok(edit) ==> plannable(source, edit),
{
    lemma_value_located(source, entry);
}

/// The edit that deletes a node can be planned.
pub proof fn lemma_deletion_is_plannable(source: Seq<char>, node: KdlNode)
    requires
        encode_utf8(source).len() <= usize::MAX,
    ensures
        deletion(source, node) matches Ok(edit) ==> plannable(source, edit),
{
    lemma_located(source, node);
}

} // verus!
