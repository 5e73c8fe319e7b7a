//! Which entry of a node an operation is about, and which bytes it replaces.
use crate::edit::EditKind;
use crate::error::EditErrorKind;
use crate::laws::locating::law_values_are_located_exactly;
use crate::operation::{argument_change, property_change};
use crate::tree::{argument_at, last_property, KdlEntry, KdlNode, ValueView};
use crate::value::rendered_value;
use vstd::prelude::*;
use vstd::utf8::encode_utf8;

verus! {

/// How many of the first `n` entries have no name.
pub open spec fn nameless_before(entries: Seq<KdlEntry>, n: int) -> nat
    decreases n,
{
    if n <= 0 {
        0
    } else if entries[n - 1].name is None {
        nameless_before(entries, n - 1) + 1
    } else {
        nameless_before(entries, n - 1)
    }
}

/// Counting stops where the entries are cut off.
proof fn lemma_nameless_in_prefix(entries: Seq<KdlEntry>, n: int)
    requires
        0 <= n < entries.len(),
    ensures
        nameless_before(entries.drop_last(), n) == nameless_before(entries, n),
    decreases n,
{
    if n > 0 {
        lemma_nameless_in_prefix(entries, n - 1);
    }
}

/// There are as many arguments as entries without a name, and each is where the count says.
proof fn lemma_arguments(entries: Seq<KdlEntry>, index: int)
    ensures
        entries.filter(|entry: KdlEntry| entry.name is None).len() == nameless_before(
            entries,
            entries.len() as int,
        ),
        0 <= index < entries.filter(|entry: KdlEntry| entry.name is None).len() ==> exists|i: int|
            0 <= i < entries.len() && #[trigger] entries[i] == entries.filter(
                |entry: KdlEntry| entry.name is None,
            )[index] && entries[i].name is None && nameless_before(entries, i) == index,
    decreases entries.len(),
{
    let keep = |entry: KdlEntry| entry.name is None;
    reveal(Seq::filter);
    if entries.len() > 0 {
        let before = entries.drop_last();
        let last = entries.len() - 1;
        lemma_arguments(before, index);
        lemma_nameless_in_prefix(entries, last);
        if 0 <= index < before.filter(keep).len() {
            let i = choose|i: int|
                0 <= i < before.len() && #[trigger] before[i] == before.filter(keep)[index]
                    && before[i].name is None && nameless_before(before, i) == index;
            lemma_nameless_in_prefix(entries, i);
            assert(entries[i] == before[i]);
        } else if index == before.filter(keep).len() && entries[last].name is None {
            assert(entries[last] == entries.filter(keep)[index]);
        }
    }
}

/// The argument at an index is the entry without a name that has exactly that many entries without
/// a name before it. There is none exactly if no more than that many entries have no name.
pub proof fn law_arguments_are_counted_without_properties(entries: Seq<KdlEntry>, index: nat)
    ensures
        match argument_at(entries, index) {
            Some(found) => exists|i: int|
                0 <= i < entries.len() && #[trigger] entries[i] == found && entries[i].name is None
                    && nameless_before(entries, i) == index,
            None => nameless_before(entries, entries.len() as int) <= index,
        },
{
    lemma_arguments(entries, index as int);
}

/// The property with a key is the last entry whose name is that key, character for character. There
/// is none exactly if no entry has that name.
pub proof fn law_the_last_property_with_the_key_is_meant(entries: Seq<KdlEntry>, key: Seq<char>)
    ensures
        match last_property(entries, key) {
            Some(found) => exists|i: int|
                0 <= i < entries.len() && #[trigger] entries[i] == found && (
                entries[i].name matches Some(name) && name.value@ == key) && forall|j: int|
                    i < j < entries.len() ==> ((#[trigger] entries[j]).name matches Some(name)
                        ==> name.value@ != key),
            None => forall|j: int|
                0 <= j < entries.len() ==> ((#[trigger] entries[j]).name matches Some(name)
                    ==> name.value@ != key),
        },
    decreases entries.len(),
{
    reveal(Seq::filter);
    if entries.len() > 0 {
        let before = entries.drop_last();
        let last = entries.len() - 1;
        law_the_last_property_with_the_key_is_meant(before, key);
        assert(forall|i: int| 0 <= i < last ==> before[i] == entries[i]);
        if entries[last].name matches Some(name) && name.value@ == key {
            assert(last_property(entries, key) == Some(entries[last]));
        } else {
            assert(last_property(entries, key) == last_property(before, key));
            match last_property(before, key) {
                Some(found) => {
                    let i = choose|i: int|
                        0 <= i < before.len() && #[trigger] before[i] == found && (
                        before[i].name matches Some(name) && name.value@ == key) && forall|j: int|
                            i < j < before.len() ==> ((
                            #[trigger] before[j]).name matches Some(name) ==> name.value@ != key);
                    assert(entries[i] == found);
                    assert forall|j: int| i < j < entries.len() implies ((
                    #[trigger] entries[j]).name matches Some(name) ==> name.value@ != key) by {
                        if j < last {
                            assert(before[j] == entries[j]);
                        }
                    }
                },
                None => {
                    assert forall|j: int| 0 <= j < entries.len() implies ((
                    #[trigger] entries[j]).name matches Some(name) ==> name.value@ != key) by {
                        if j < last {
                            assert(before[j] == entries[j]);
                        }
                    }
                },
            }
        }
    }
}

/// Setting an argument replaces the literal at the end of the entry that has exactly as many entries
/// without a name before it as the index says, and no name itself.
pub proof fn law_the_argument_at_the_index_is_set(
    source: Seq<char>,
    node: KdlNode,
    index: nat,
    value: ValueView,
)
    requires
        encode_utf8(source).len() <= usize::MAX,
    ensures
        argument_change(source, node, index, value) matches Ok(edit) ==> exists|i: int|
            {
                let entry = #[trigger] node.entries@[i];
                &&& 0 <= i < node.entries@.len()
                &&& entry.name is None
                &&& nameless_before(node.entries@, i) == index
                &&& edit.kind == EditKind::Argument
                &&& edit.replacement == rendered_value(value)
                &&& edit.span.offset + edit.span.length == entry.span.offset + entry.span.length
                &&& entry.format matches Some(format) && edit.span.length == encode_utf8(
                    format.value_repr@,
                ).len()
            },
        argument_change(source, node, index, value) matches Err(error) && error.kind
            == EditErrorKind::NotFound ==> nameless_before(
            node.entries@,
            node.entries@.len() as int,
        ) <= index,
{
    law_arguments_are_counted_without_properties(node.entries@, index);
    if let Some(entry) = argument_at(node.entries@, index) {
        law_values_are_located_exactly(source, entry);
    }
}

/// Setting a property replaces the literal at the end of the last entry whose name is the key.
pub proof fn law_the_last_property_with_the_key_is_set(
    source: Seq<char>,
    node: KdlNode,
    key: Seq<char>,
    value: ValueView,
)
    requires
        encode_utf8(source).len() <= usize::MAX,
    ensures
        property_change(source, node, key, value) matches Ok(edit) ==> exists|i: int|
            {
                let entry = #[trigger] node.entries@[i];
                &&& 0 <= i < node.entries@.len()
                &&& entry.name matches Some(name) && name.value@ == key
                &&& forall|j: int|
                    i < j < node.entries@.len() ==> ((
                    #[trigger] node.entries@[j]).name matches Some(name) ==> name.value@ != key)
                &&& edit.kind == EditKind::Property
                &&& edit.replacement == rendered_value(value)
                &&& edit.span.offset + edit.span.length == entry.span.offset + entry.span.length
                &&& entry.format matches Some(format) && edit.span.length == encode_utf8(
                    format.value_repr@,
                ).len()
            },
        property_change(source, node, key, value) matches Err(error) && error.kind
            == EditErrorKind::NotFound ==> forall|j: int|
            0 <= j < node.entries@.len() ==> ((#[trigger] node.entries@[j]).name matches Some(name)
                ==> name.value@ != key),
{
    law_the_last_property_with_the_key_is_meant(node.entries@, key);
    if let Some(entry) = last_property(node.entries@, key) {
        law_values_are_located_exactly(source, entry);
    }
}

} // verus!
