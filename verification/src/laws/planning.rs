//! What plans promise: which edits they take, what those edits cover, and when they apply.
use crate::anchor::{bounds_of, fills, lies_in, stands_in, value_span_of};
use crate::checksum::{fnv1a64_of, FNV_PRIME};
use crate::edit::{application, faulty, first_fault, kind_text, EditKind, EditView};
use crate::error::{EditErrorKind, ErrorView};
use crate::laws::rendering::{
    all_writable, is_denotable, law_strings_round_trip, law_values_round_trip,
};
use crate::laws::splicing::{law_one_edit, law_one_result};
use crate::operation::{
    applied, argument_change, deletion, first_conflict, lemma_deletion_is_plannable,
    lemma_first_conflict,
    lemma_place_for, lemma_plan_is_sound, lemma_planned_keeps, lemma_renaming_is_plannable,
    lemma_revaluing_is_plannable, lemma_sequence_kept, place_for, plannable, planned,
    property_change, renaming, revaluing, sequenced, well_planned, PlanView,
};
use crate::span::{covers, overlapping, SourceSpan};
use crate::strings::string_value;
use crate::text::occurs_at;
use crate::tree::{argument_at, last_property, KdlEntry, KdlIdentifier, KdlNode, ValueView};
use crate::value::{rendered_name, value_of};
use vstd::arithmetic::div_mod::{
    lemma_mod_multiples_vanish, lemma_mul_mod_noop_left, lemma_small_mod,
};
use vstd::arithmetic::mul::lemma_mul_is_associative;
use vstd::prelude::*;
use vstd::utf8::{encode_utf8, is_char_boundary};

verus! {

/// Overlapping goes both ways, and spans that cover bytes at all overlap exactly when they cover a
/// byte in common. Spans that only touch do not overlap.
pub proof fn law_overlap_is_a_shared_byte(a: SourceSpan, b: SourceSpan)
    ensures
        overlapping(a, b) == overlapping(b, a),
        a.length > 0 && b.length > 0 ==> (overlapping(a, b) <==> exists|at: int| #[trigger]
            covers(a, at) && covers(b, at)),
        a.past() == b.first() ==> !overlapping(a, b),
{
    if a.length > 0 && b.length > 0 {
        if overlapping(a, b) {
            let at = if a.first() < b.first() {
                b.first()
            } else {
                a.first()
            };
            assert(covers(a, at) && covers(b, at));
        }
    }
}

/// An edit goes into a plan exactly if it overlaps none that is there. The plan then holds it and
/// all that it held before, and is still ordered and free of overlaps.
pub proof fn law_edits_that_fit_are_taken(plan: PlanView, edit: EditView)
    requires
        well_planned(plan),
        plannable(plan.source, edit),
    ensures
        planned(plan, Ok(edit)) is Ok <==> (forall|i: int|
            0 <= i < plan.edits.len() ==> !overlapping((#[trigger] plan.edits[i]).span, edit.span)),
        planned(plan, Ok(edit)) matches Ok(after) ==> {
            &&& well_planned(after)
            &&& after.source == plan.source
            &&& after.edits.len() == plan.edits.len() + 1
            &&& after.edits.contains(edit)
            &&& forall|i: int|
                0 <= i < plan.edits.len() ==> after.edits.contains(#[trigger] plan.edits[i])
        },
{
    lemma_first_conflict(plan.edits, edit.span);
    lemma_place_for(plan.edits, edit.span.first());
    lemma_planned_keeps(plan, edit);
    if let Ok(after) = planned(plan, Ok(edit)) {
        let at = place_for(plan.edits, edit.span.first());
        assert(after.edits[at] == edit);
        assert forall|i: int| 0 <= i < plan.edits.len() implies after.edits.contains(
            #[trigger] plan.edits[i],
        ) by {
            if i < at {
                assert(after.edits[i] == plan.edits[i]);
            } else {
                assert(after.edits[i + 1] == plan.edits[i]);
            }
        }
    }
}

/// A plan takes an edit exactly if none that is there starts before the edit ends and ends after it
/// starts. Nothing else of the plan changes: the edit goes between those that start no later and those
/// that start later.
pub proof fn law_plans_take_what_overlaps_nothing(plan: PlanView, edit: EditView)
    requires
        sequenced(plan.edits),
    ensures
        planned(plan, Ok(edit)) is Ok <==> (forall|i: int|
            0 <= i < plan.edits.len() ==> edit.span.offset + edit.span.length <= (
            #[trigger] plan.edits[i]).span.offset || plan.edits[i].span.offset
                + plan.edits[i].span.length <= edit.span.offset),
        planned(plan, Ok(edit)) matches Ok(after) ==> {
            &&& after.source == plan.source
            &&& exists|at: int|
                {
                    &&& 0 <= at <= plan.edits.len()
                    &&& after.edits == #[trigger] plan.edits.insert(at, edit)
                    &&& forall|i: int|
                        0 <= i < at ==> (#[trigger] plan.edits[i]).span.offset <= edit.span.offset
                    &&& forall|i: int|
                        at <= i < plan.edits.len() ==> (#[trigger] plan.edits[i]).span.offset
                            > edit.span.offset
                }
        },
{
    lemma_first_conflict(plan.edits, edit.span);
    lemma_place_for(plan.edits, edit.span.first());
    let at = place_for(plan.edits, edit.span.first());
    assert(forall|i: int| 0 <= i < at ==> (#[trigger] plan.edits[i]).span.offset <= edit.span.offset);
    assert(forall|i: int|
        at <= i < plan.edits.len() ==> (#[trigger] plan.edits[i]).span.offset > edit.span.offset);
}

/// If an edit is refused, it is because of the first that it overlaps, and the error says which two
/// operations these are, and where.
pub proof fn law_the_first_overlap_is_reported(plan: PlanView, edit: EditView)
    ensures
        planned(plan, Ok(edit)) matches Err(error) ==> exists|i: int|
            {
                &&& 0 <= i < plan.edits.len()
                &&& (#[trigger] plan.edits[i]).span.offset < edit.span.offset + edit.span.length
                &&& edit.span.offset < plan.edits[i].span.offset + plan.edits[i].span.length
                &&& forall|j: int|
                    0 <= j < i ==> edit.span.offset + edit.span.length <= (
                    #[trigger] plan.edits[j]).span.offset || plan.edits[j].span.offset
                        + plan.edits[j].span.length <= edit.span.offset
                &&& error.kind == EditErrorKind::OverlappingEdits
                &&& error.input == plan.source
                &&& error.span == edit.span
                &&& error.other_span == Some(plan.edits[i].span)
                &&& error.message == "Refusing to apply overlapping edits ("@ + kind_text(edit.kind)
                    + " overlaps a previous "@ + kind_text(plan.edits[i].kind) + ")."@
                &&& error.label == Some("this edit"@)
                &&& error.help == Some(
                    "Split the changes across multiple plans, or remove one of the edits. Containment and crossing edits are never reordered automatically."@,
                )
            },
{
    lemma_first_conflict(plan.edits, edit.span);
    if let Some(i) = first_conflict(plan.edits, edit.span) {
        assert(overlapping(plan.edits[i].span, edit.span));
    }
}

/// What it means that the edits of a plan are in sequence: each replaces something, and ends no later
/// than any behind it starts.
pub proof fn law_sequences_are_ordered(edits: Seq<EditView>)
    ensures
        sequenced(edits) <==> {
            &&& forall|i: int| 0 <= i < edits.len() ==> (#[trigger] edits[i]).span.length > 0
            &&& forall|i: int, j: int|
                0 <= i < j < edits.len() ==> (#[trigger] edits[i]).span.offset
                    + edits[i].span.length <= (#[trigger] edits[j]).span.offset
        },
{
}

/// What holds of every plan, offset by offset: each edit lies in the source between character
/// boundaries, replaces something, and ends no later than any behind it starts.
pub proof fn law_plans_are_in_sequence(plan: PlanView)
    requires
        well_planned(plan),
    ensures
        forall|i: int|
            0 <= i < plan.edits.len() ==> {
                let start = (#[trigger] plan.edits[i]).span.offset as int;
                let end = plan.edits[i].span.offset + plan.edits[i].span.length;
                &&& start < end <= encode_utf8(plan.source).len()
                &&& is_char_boundary(encode_utf8(plan.source), start)
                &&& is_char_boundary(encode_utf8(plan.source), end)
            },
        forall|i: int, j: int|
            0 <= i < j < plan.edits.len() ==> (#[trigger] plan.edits[i]).span.offset
                + plan.edits[i].span.length <= (#[trigger] plan.edits[j]).span.offset,
{
    assert forall|i: int| 0 <= i < plan.edits.len() implies {
        let start = (#[trigger] plan.edits[i]).span.offset as int;
        let end = plan.edits[i].span.offset + plan.edits[i].span.length;
        &&& start < end <= encode_utf8(plan.source).len()
        &&& is_char_boundary(encode_utf8(plan.source), start)
        &&& is_char_boundary(encode_utf8(plan.source), end)
    } by {
        assert(plannable(plan.source, plan.edits[i]));
    }
}

/// An operation that there is no edit for leaves nothing but its error.
pub proof fn law_errors_pass_through(plan: PlanView, error: ErrorView)
    ensures
        planned(plan, Err(error)) == Err::<PlanView, ErrorView>(error),
{
}

/// An edit of a byte that an edit of the plan already replaces is refused as overlapping, and the
/// error points at both.
pub proof fn law_shared_bytes_are_refused(plan: PlanView, edit: EditView, i: int, at: int)
    requires
        0 <= i < plan.edits.len(),
        covers(plan.edits[i].span, at),
        covers(edit.span, at),
    ensures
        planned(plan, Ok(edit)) matches Err(error) && {
            &&& error.kind == EditErrorKind::OverlappingEdits
            &&& error.span == edit.span
            &&& error.other_span matches Some(other) && overlapping(other, edit.span)
        },
{
    lemma_first_conflict(plan.edits, edit.span);
    assert(overlapping(plan.edits[i].span, edit.span));
}

/// Once the deletion of a node is planned, every edit of a byte of that node is refused, whether it
/// lies inside the deleted range or crosses its border.
pub proof fn law_deleted_nodes_are_closed(
    plan: PlanView,
    node: KdlNode,
    after: PlanView,
    edit: EditView,
    at: int,
)
    requires
        well_planned(plan),
        planned(plan, deletion(plan.source, node)) == Ok::<_, ErrorView>(after),
        node.span.first() <= at < node.span.past(),
        covers(edit.span, at),
    ensures
        planned(after, Ok(edit)) matches Err(error) && error.kind
            == EditErrorKind::OverlappingEdits,
{
    let removal = deletion(plan.source, node)->Ok_0;
    let place = place_for(plan.edits, removal.span.first());
    law_deletions_cover_the_node(plan.source, node);
    lemma_place_for(plan.edits, removal.span.first());
    assert(after.edits[place] == removal);
    law_shared_bytes_are_refused(after, edit, place, at);
}

/// Deleting a node removes its leading trivia, the node and its terminator, and nothing else.
pub proof fn law_deletions_cover_the_node(source: Seq<char>, node: KdlNode)
    requires
        encode_utf8(source).len() <= usize::MAX,
    ensures
        deletion(source, node) matches Ok(edit) ==> {
            let bytes = encode_utf8(source);
            &&& edit.replacement.len() == 0
            &&& lies_in(node.span, source)
            &&& edit.span.first() <= node.span.first()
            &&& node.span.past() <= edit.span.past() <= bytes.len()
            &&& node.format matches Some(format) && bytes.subrange(
                edit.span.first(),
                edit.span.past(),
            ) == encode_utf8(format.leading@) + bytes.subrange(node.span.first(), node.span.past())
                + encode_utf8(format.terminator@)
        },
{
    if let Ok(edit) = deletion(source, node) {
        let bytes = encode_utf8(source);
        let format = node.format->0;
        let leading = encode_utf8(format.leading@);
        let terminator = encode_utf8(format.terminator@);
        let start = node.span.first();
        let end = node.span.past();
        assert(edit.span.first() == start - leading.len());
        assert(edit.span.past() == end + terminator.len());
        let removed = bytes.subrange(edit.span.first(), edit.span.past());
        assert(removed =~= bytes.subrange(start - leading.len(), start) + bytes.subrange(start, end)
            + bytes.subrange(end, end + terminator.len()));
    }
}

/// Giving an argument or a property another value replaces exactly the literal that the entry was
/// written with, which ends where the entry ends, by a text that reads as the new value.
pub proof fn law_values_are_replaced_exactly(
    source: Seq<char>,
    entry: KdlEntry,
    value: ValueView,
    kind: EditKind,
)
    requires
        encode_utf8(source).len() <= usize::MAX,
    ensures
        revaluing(source, entry, value, kind) matches Ok(edit) ==> {
            &&& edit.kind == kind
            &&& entry.format matches Some(format) && {
                &&& edit.span.length == encode_utf8(format.value_repr@).len()
                &&& occurs_at(
                    encode_utf8(source),
                    edit.span.first(),
                    encode_utf8(format.value_repr@),
                )
            }
            &&& entry.span.first() <= edit.span.first()
            &&& edit.span.past() == entry.span.past()
            &&& value_of(edit.replacement) == Some(value)
        },
{
}

/// Renaming a node replaces exactly the spelling of its name, which stands in the node, by a text that
/// reads as the new name.
pub proof fn law_names_are_replaced_exactly(
    source: Seq<char>,
    node: KdlNode,
    name: KdlIdentifier,
)
    ensures
        renaming(source, node, name) matches Ok(edit) ==> {
            &&& edit.kind == EditKind::NodeName
            &&& edit.span == node.name.span
            &&& fills(source, edit.span, rendered_name(node.name))
            &&& node.span.first() <= edit.span.first()
            &&& edit.span.past() <= node.span.past()
            &&& string_value(edit.replacement) == Some(name.value@)
        },
{
}

/// A located value can be replaced by any value that can be written at all, and by no other.
pub proof fn law_denotable_values_are_accepted(
    source: Seq<char>,
    entry: KdlEntry,
    value: ValueView,
    kind: EditKind,
)
    requires
        value_span_of(source, entry) is Ok,
    ensures
        revaluing(source, entry, value, kind) is Ok <==> is_denotable(value),
        revaluing(source, entry, value, kind) matches Err(error) ==> error.kind
            == EditErrorKind::InvalidReplacement,
{
    law_values_round_trip(value);
}

/// A located node can be given any name of writable characters, and, where the spelling is left to
/// the renderer, no other.
pub proof fn law_writable_names_are_accepted(
    source: Seq<char>,
    node: KdlNode,
    name: KdlIdentifier,
)
    requires
        bounds_of(source, node) is Ok,
        name.repr is None,
    ensures
        renaming(source, node, name) is Ok <==> all_writable(name.value@),
        renaming(source, node, name) matches Err(error) ==> error.kind
            == EditErrorKind::InvalidReplacement,
{
    law_strings_round_trip(name.value@);
}

/// A node can be located exactly if it stands in the source as it was parsed: its own text, its name,
/// its leading trivia and its terminator are all what the source has where they are recorded to stand.
pub proof fn law_nodes_are_located_by_their_text(source: Seq<char>, node: KdlNode)
    ensures
        bounds_of(source, node) is Ok <==> stands_in(source, node),
        bounds_of(source, node) matches Err(error) ==> error.kind
            == EditErrorKind::MismatchedSource,
{
}

/// A node that does not stand in the source of the plan as it was parsed takes part in no edit: every
/// operation on it is refused as not matching the source.
pub proof fn law_foreign_nodes_are_refused(
    plan: PlanView,
    node: KdlNode,
    name: KdlIdentifier,
    index: nat,
    key: Seq<char>,
    value: ValueView,
)
    requires
        !stands_in(plan.source, node),
    ensures
        refused_as_foreign(planned(plan, renaming(plan.source, node, name))),
        refused_as_foreign(planned(plan, argument_change(plan.source, node, index, value))),
        refused_as_foreign(planned(plan, property_change(plan.source, node, key, value))),
        refused_as_foreign(planned(plan, deletion(plan.source, node))),
{
    law_nodes_are_located_by_their_text(plan.source, node);
}

/// The operation was refused because what it is about does not match the source.
pub open spec fn refused_as_foreign(result: Result<PlanView, ErrorView>) -> bool {
    result matches Err(error) && error.kind == EditErrorKind::MismatchedSource
}

/// A node parsed from one text is refused by every plan for a text that has another byte anywhere in
/// the node, in its leading trivia or in its terminator, or that ends before it does.
pub proof fn law_nodes_of_another_text_are_refused(
    parsed: Seq<char>,
    node: KdlNode,
    other: Seq<char>,
    at: int,
)
    requires
        encode_utf8(parsed).len() <= usize::MAX,
        deletion(parsed, node) matches Ok(edit) && covers(edit.span, at),
        at >= encode_utf8(other).len() || encode_utf8(other)[at] != encode_utf8(parsed)[at],
    ensures
        !stands_in(other, node),
        bounds_of(other, node) matches Err(error) && error.kind == EditErrorKind::MismatchedSource,
{
    law_nodes_are_located_by_their_text(other, node);
    if stands_in(other, node) {
        let format = node.format->0;
        let leading = encode_utf8(format.leading@);
        let body = encode_utf8(format.body@);
        let terminator = encode_utf8(format.terminator@);
        let start = node.span.first();
        let end = node.span.past();
        let a = encode_utf8(parsed);
        let b = encode_utf8(other);
        law_deletions_cover_the_node(parsed, node);
        if at < start {
            let first = start - leading.len();
            assert(a.subrange(first, start)[at - first] == a[at]);
            assert(b.subrange(first, start)[at - first] == b[at]);
        } else if at < end {
            assert(a.subrange(start, end)[at - start] == a[at]);
            assert(b.subrange(start, end)[at - start] == b[at]);
        } else {
            let last = end + terminator.len();
            assert(a.subrange(end, last)[at - end] == a[at]);
            assert(b.subrange(end, last)[at - end] == b[at]);
        }
    }
}

/// An entry whose text is not what the source has at its span is given no value: the operation is
/// refused as not matching the source.
pub proof fn law_foreign_entries_are_refused(
    plan: PlanView,
    entry: KdlEntry,
    value: ValueView,
    kind: EditKind,
)
    requires
        entry.format matches Some(format) ==> !fills(plan.source, entry.span, format.text@),
    ensures
        refused_as_foreign(planned(plan, revaluing(plan.source, entry, value, kind))),
{
}

/// The place of an edit is the only one with all earlier starts before it and all later ones after.
proof fn lemma_place_is_unique(edits: Seq<EditView>, start: int, at: int)
    requires
        sequenced(edits),
        0 <= at <= edits.len(),
        forall|i: int| 0 <= i < at ==> (#[trigger] edits[i]).span.first() <= start,
        forall|i: int| at <= i < edits.len() ==> (#[trigger] edits[i]).span.first() > start,
    ensures
        place_for(edits, start) == at,
{
    lemma_place_for(edits, start);
    let place = place_for(edits, start);
    if place < at {
        assert(edits[place].span.first() <= start);
    } else if at < place {
        assert(edits[at].span.first() <= start);
    }
}

/// No edit overlaps `span`.
pub open spec fn clear_of(edits: Seq<EditView>, span: SourceSpan) -> bool {
    forall|i: int| 0 <= i < edits.len() ==> !overlapping((#[trigger] edits[i]).span, span)
}

/// Inserting an edit at its place keeps the others clear of what it is clear of.
proof fn lemma_clear_after(edits: Seq<EditView>, a: EditView, span: SourceSpan)
    requires
        sequenced(edits),
        clear_of(edits, span),
        !overlapping(a.span, span),
    ensures
        clear_of(edits.insert(place_for(edits, a.span.first()), a), span),
{
    let at = place_for(edits, a.span.first());
    lemma_place_for(edits, a.span.first());
    let after = edits.insert(at, a);
    assert forall|i: int| 0 <= i < after.len() implies !overlapping(
        (#[trigger] after[i]).span,
        span,
    ) by {
        if i < at {
            assert(after[i] == edits[i]);
        } else if i > at {
            assert(after[i] == edits[i - 1]);
        } else {
            assert(after[i] == a);
        }
    }
}

/// Inserting two edits, the one that starts earlier first.
proof fn lemma_insert_earlier_first(edits: Seq<EditView>, a: EditView, b: EditView)
    requires
        sequenced(edits),
        a.span.length > 0,
        b.span.length > 0,
        a.span.first() < b.span.first(),
        clear_of(edits, a.span),
        clear_of(edits, b.span),
    ensures
        ({
            let x = place_for(edits, a.span.first());
            let y = place_for(edits, b.span.first());
            let with_a = edits.insert(x, a);
            let with_b = edits.insert(y, b);
            &&& place_for(with_a, b.span.first()) == y + 1
            &&& place_for(with_b, a.span.first()) == x
            &&& with_a.insert(y + 1, b) == with_b.insert(x, a)
        }),
{
    let x = place_for(edits, a.span.first());
    let y = place_for(edits, b.span.first());
    lemma_place_for(edits, a.span.first());
    lemma_place_for(edits, b.span.first());
    lemma_sequence_kept(edits, a);
    lemma_sequence_kept(edits, b);
    if y < x {
        assert(edits[y].span.first() <= a.span.first());
    }
    let with_a = edits.insert(x, a);
    let with_b = edits.insert(y, b);
    assert forall|i: int| 0 <= i < y + 1 implies (#[trigger] with_a[i]).span.first()
        <= b.span.first() by {
        if i < x {
            assert(edits[i].span.first() <= b.span.first());
        } else if i > x {
            assert(edits[i - 1].span.first() <= b.span.first());
        }
    }
    assert forall|i: int| y + 1 <= i < with_a.len() implies (#[trigger] with_a[i]).span.first()
        > b.span.first() by {
        assert(edits[i - 1].span.first() > b.span.first());
    }
    lemma_place_is_unique(with_a, b.span.first(), y + 1);
    assert forall|i: int| 0 <= i < x implies (#[trigger] with_b[i]).span.first()
        <= a.span.first() by {
        assert(edits[i].span.first() <= a.span.first());
    }
    assert forall|i: int| x <= i < with_b.len() implies (#[trigger] with_b[i]).span.first()
        > a.span.first() by {
        if i < y {
            assert(edits[i].span.first() > a.span.first());
        } else if i > y {
            assert(edits[i - 1].span.first() > a.span.first());
        }
    }
    lemma_place_is_unique(with_b, a.span.first(), x);
    assert(with_a.insert(y + 1, b) =~= with_b.insert(x, a));
}

/// The order in which edits are added does not matter: two edits that overlap neither each other nor
/// any of the plan are taken in either order, and the plan is the same in the end.
pub proof fn law_order_of_adding_does_not_matter(plan: PlanView, a: EditView, b: EditView)
    requires
        sequenced(plan.edits),
        a.span.length > 0,
        b.span.length > 0,
        clear_of(plan.edits, a.span),
        clear_of(plan.edits, b.span),
        !overlapping(a.span, b.span),
    ensures
        planned(plan, Ok(a)) matches Ok(with_a) && planned(plan, Ok(b)) matches Ok(with_b) && {
            &&& planned(with_a, Ok(b)) is Ok
            &&& planned(with_b, Ok(a)) == planned(with_a, Ok(b))
        },
{
    lemma_first_conflict(plan.edits, a.span);
    lemma_first_conflict(plan.edits, b.span);
    let with_a = planned(plan, Ok(a))->Ok_0;
    let with_b = planned(plan, Ok(b))->Ok_0;
    lemma_clear_after(plan.edits, a, b.span);
    lemma_clear_after(plan.edits, b, a.span);
    lemma_first_conflict(with_a.edits, b.span);
    lemma_first_conflict(with_b.edits, a.span);
    if a.span.first() < b.span.first() {
        lemma_insert_earlier_first(plan.edits, a, b);
    } else {
        lemma_insert_earlier_first(plan.edits, b, a);
    }
}

/// One of the operations that can be added to a plan.
pub enum Operation {
    /// Rename a node.
    Rename(KdlNode, KdlIdentifier),
    /// Give the argument at an index another value.
    SetArgument(KdlNode, nat, ValueView),
    /// Give the property with a key another value.
    SetProperty(KdlNode, Seq<char>, ValueView),
    /// Delete a node.
    Delete(KdlNode),
}

/// The edit that an operation is, or why there is none.
pub open spec fn edit_for(source: Seq<char>, operation: Operation) -> Result<EditView, ErrorView> {
    match operation {
        Operation::Rename(node, name) => renaming(source, node, name),
        Operation::SetArgument(node, index, value) => argument_change(source, node, index, value),
        Operation::SetProperty(node, key, value) => property_change(source, node, key, value),
        Operation::Delete(node) => deletion(source, node),
    }
}

/// What becomes of a new plan for `source` when the operations are added to it one after the other,
/// where one that is refused leaves the plan as it is; and how many were taken.
pub open spec fn performed(source: Seq<char>, operations: Seq<Operation>) -> (PlanView, nat)
    decreases operations.len(),
{
    if operations.len() == 0 {
        (PlanView { source, edits: Seq::empty() }, 0)
    } else {
        let (plan, taken) = performed(source, operations.drop_last());
        match planned(plan, edit_for(source, operations.last())) {
            Ok(after) => (after, taken + 1),
            Err(_) => (plan, taken),
        }
    }
}

/// Whatever operations are added to a plan, taken or refused: its edits lie in the source between
/// character boundaries, each ends before the next one starts, and there are as many as operations
/// that were taken.
pub proof fn law_edits_of_every_plan_are_sequenced(source: Seq<char>, operations: Seq<Operation>)
    requires
        encode_utf8(source).len() <= usize::MAX,
    ensures
        ({
            let (plan, taken) = performed(source, operations);
            &&& well_planned(plan)
            &&& plan.source == source
            &&& plan.edits.len() == taken
        }),
    decreases operations.len(),
{
    if operations.len() > 0 {
        law_edits_of_every_plan_are_sequenced(source, operations.drop_last());
        let (plan, taken) = performed(source, operations.drop_last());
        let operation = operations.last();
        match operation {
            Operation::Rename(node, name) => {
                lemma_renaming_is_plannable(source, node, name);
            },
            Operation::SetArgument(node, index, value) => {
                if let Some(entry) = argument_at(node.entries@, index) {
                    lemma_revaluing_is_plannable(source, entry, value, EditKind::Argument);
                }
            },
            Operation::SetProperty(node, key, value) => {
                if let Some(entry) = last_property(node.entries@, key) {
                    lemma_revaluing_is_plannable(source, entry, value, EditKind::Property);
                }
            },
            Operation::Delete(node) => {
                lemma_deletion_is_plannable(source, node);
            },
        }
        if let Ok(edit) = edit_for(source, operation) {
            law_edits_that_fit_are_taken(plan, edit);
        }
    }
}

/// Every plan applies to its own source.
pub proof fn law_plans_apply_to_their_source(
    plan: PlanView,
    result: Result<Seq<char>, ErrorView>,
)
    requires
        well_planned(plan),
        applied(plan, plan.source, result),
    ensures
        result is Ok,
{
    lemma_plan_is_sound(plan);
}

/// An operation on a fresh plan changes the bytes of its own span and no other: applied to the
/// source, the plan gives what stands before the span, the replacement, and what stands after it.
pub proof fn law_a_single_operation_is_spliced(
    source: Seq<char>,
    edit: EditView,
    result: Result<Seq<char>, ErrorView>,
)
    requires
        lies_in(edit.span, source),
        planned(PlanView { source, edits: Seq::empty() }, Ok(edit)) matches Ok(plan) && application(
            source,
            plan.edits,
            result,
        ),
    ensures
        result matches Ok(text) && encode_utf8(text) == encode_utf8(source).take(edit.span.first())
            + encode_utf8(edit.replacement) + encode_utf8(source).skip(edit.span.past()),
{
    let edits = Seq::<EditView>::empty().insert(0, edit);
    assert(edits =~= seq![edit]);
    assert(!faulty(source, edits, 0));
    match result {
        Ok(text) => {
            law_one_edit(source, edit, text);
        },
        Err(_) => {
            let i = choose|i: int| #[trigger] first_fault(source, edits, i);
            assert(faulty(source, edits, i));
        },
    }
}

/// Applying a plan to the text of its own source gives what applying it to its source gives, and
/// what applying its edits by themselves gives.
pub proof fn law_own_source_is_current(
    plan: PlanView,
    a: Result<Seq<char>, ErrorView>,
    b: Result<Seq<char>, ErrorView>,
)
    requires
        applied(plan, plan.source, a),
        application(plan.source, plan.edits, b),
    ensures
        a == b,
{
    law_one_result(plan.source, plan.edits, a, b);
}

/// Any other text than the source of the plan is refused as stale, whatever its length and checksum.
pub proof fn law_other_sources_are_refused(
    plan: PlanView,
    source: Seq<char>,
    result: Result<Seq<char>, ErrorView>,
)
    requires
        source != plan.source,
        applied(plan, source, result),
    ensures
        result matches Err(error) && error.kind == EditErrorKind::StaleSource,
{
}

/// Multiplying by the prime loses nothing.
proof fn lemma_prime_is_invertible(x: u64)
    ensures
        ((((x * FNV_PRIME) % 0x1_0000_0000_0000_0000) as u64) * 0xce965057aff6957b)
            % 0x1_0000_0000_0000_0000 == x,
{
    let m: int = 0x1_0000_0000_0000_0000;
    let p: int = 0x100000001b3;
    let q: int = 0xce965057aff6957b;
    let y = x as int;
    lemma_mul_mod_noop_left(y * p, q, m);
    assert((y * p) * q == y * (p * q)) by {
        lemma_mul_is_associative(y, p, q);
    }
    assert(0x100000001b3 * 0xce965057aff6957b == 887285111055 * 0x1_0000_0000_0000_0000 + 1);
    assert(y * (p * q) == m * (887285111055 * y) + y) by (nonlinear_arith)
        requires
            p * q == 887285111055 * m + 1,
    ;
    lemma_mod_multiples_vanish(887285111055 * y, y, m);
    lemma_small_mod(x as nat, m as nat);
}

/// Whether two checksums are equal after one more byte depends on the checksums and the byte alone.
proof fn lemma_step_is_injective(h: u64, a: u8, k: u64, b: u8)
    requires
        (((h ^ a as u64) * FNV_PRIME) % 0x1_0000_0000_0000_0000) == (((k ^ b as u64) * FNV_PRIME)
            % 0x1_0000_0000_0000_0000),
    ensures
        h == k ==> a == b,
        a == b ==> h == k,
{
    lemma_prime_is_invertible(h ^ a as u64);
    lemma_prime_is_invertible(k ^ b as u64);
    assert(h ^ a as u64 == k ^ b as u64);
    assert((h == k ==> a == b) && (a == b ==> h == k)) by (bit_vector)
        requires
            h ^ a as u64 == k ^ b as u64,
    ;
}

/// Bytes that differ at one place only have different checksums.
pub proof fn law_one_changed_byte_changes_the_checksum(a: Seq<u8>, b: Seq<u8>, at: int)
    requires
        a.len() == b.len(),
        0 <= at < a.len(),
        a[at] != b[at],
        forall|i: int| 0 <= i < a.len() && i != at ==> a[i] == b[i],
    ensures
        fnv1a64_of(a) != fnv1a64_of(b),
    decreases a.len(),
{
    let last = a.len() - 1;
    if fnv1a64_of(a) == fnv1a64_of(b) {
        lemma_step_is_injective(
            fnv1a64_of(a.drop_last()),
            a.last(),
            fnv1a64_of(b.drop_last()),
            b.last(),
        );
        if at == last {
            assert(a.drop_last() =~= b.drop_last());
        } else {
            assert(a.last() == b.last());
            law_one_changed_byte_changes_the_checksum(a.drop_last(), b.drop_last(), at);
        }
    }
}

} // verus!
