//! Which edits a plan takes, in which order it keeps them, and what it says when it refuses one.

use kdl::plan::property_not_found;
use kdl::validate::{not_a_name, not_a_value};
use kdl::{
    EditErrorKind, EditKind, EditPlan, KdlEntry, KdlEntryFormat, KdlIdentifier, KdlNode,
    KdlNodeFormat, NodeBounds, SourceSpan,
};

const SOURCE: &str = "// é\nserver host=\"localhost\" port=8000 9\nnext\n";

/// A node with the given span, leading trivia and terminator that records the text of `SOURCE` there,
/// as far as there is any, and the name `server`.
fn node_at(start: usize, end: usize, leading: &str, terminator: &str) -> KdlNode {
    KdlNode {
        name: KdlIdentifier {
            value: "server".to_string(),
            repr: Some("server".to_string()),
            span: (6..12).into(),
        },
        entries: Vec::new(),
        span: (start..end).into(),
        format: Some(KdlNodeFormat {
            leading: leading.to_string(),
            body: SOURCE.get(start..end).unwrap_or("").to_string(),
            terminator: terminator.to_string(),
        }),
    }
}

/// An entry with the given key, span and value literal that records the text of `SOURCE` there, as far
/// as there is any.
fn entry(key: &str, start: usize, end: usize, repr: &str) -> KdlEntry {
    entry_in(SOURCE, key, start, end, repr)
}

fn entry_in(src: &str, key: &str, start: usize, end: usize, repr: &str) -> KdlEntry {
    KdlEntry {
        name: if key.is_empty() {
            None
        } else {
            Some(KdlIdentifier::from(key.to_string()))
        },
        span: SourceSpan::new(start, end - start),
        format: Some(KdlEntryFormat {
            text: src.get(start..end).unwrap_or("").to_string(),
            value_repr: repr.to_string(),
        }),
    }
}

/// The node `server` of `SOURCE`.
fn server() -> KdlNode {
    let mut node = node_at(6, 41, "// é\n", "\n");
    node.entries = vec![
        entry("host", 13, 29, "\"localhost\""),
        entry("port", 30, 39, "8000"),
        entry("", 40, 41, "9"),
    ];
    node
}

fn next() -> KdlNode {
    let mut node = node_at(42, 46, "", "\n");
    node.name = KdlIdentifier {
        value: "next".to_string(),
        repr: Some("next".to_string()),
        span: (42..46).into(),
    };
    node
}

#[test]
fn only_the_port_is_rewritten() {
    let src = "// keep this comment\nserver host=\"localhost\" port=8000\n";
    let node = KdlNode {
        name: KdlIdentifier {
            value: "server".to_string(),
            repr: Some("server".to_string()),
            span: (21..27).into(),
        },
        entries: vec![
            entry_in(src, "host", 28, 44, "\"localhost\""),
            entry_in(src, "port", 45, 54, "8000"),
        ],
        span: (21..54).into(),
        format: Some(KdlNodeFormat {
            leading: "// keep this comment\n".to_string(),
            body: src[21..54].to_string(),
            terminator: "\n".to_string(),
        }),
    };
    let mut plan = EditPlan::new(src.to_string());
    plan.set_property(&node, "port", 9000).unwrap();
    assert_eq!(
        plan.apply(src).unwrap(),
        "// keep this comment\nserver host=\"localhost\" port=9000\n"
    );
}

#[test]
fn bounds_cover_leading_trivia_body_and_terminator() {
    let bounds = NodeBounds::compute(SOURCE, &server()).unwrap();
    assert_eq!(bounds.leading_start, 0);
    assert_eq!(bounds.body_start, 6);
    assert_eq!(bounds.body_end, 41);
    assert_eq!(bounds.terminator_end, 42);
}

#[test]
fn a_node_that_does_not_line_up_is_refused() {
    let cases = [
        (node_at(6, 99, "", ""), "Node span is outside the source bounds."),
        (node_at(4, 41, "", ""), "Node span is outside the source bounds."),
        (node_at(0, 4, "", ""), "Node span is outside the source bounds."),
        (
            node_at(0, 3, "// ", "é"),
            "Node's recorded leading trivia extends before the start of the source.",
        ),
        (
            node_at(6, 41, "// e\n", "\n"),
            "Node's leading trivia does not match the source at its span.",
        ),
        (
            node_at(6, 41, "", " \n"),
            "Node's terminator does not match the source at its span.",
        ),
        (
            node_at(42, 47, "", "\n"),
            "Node's terminator does not match the source at its span.",
        ),
    ];
    for (node, message) in cases {
        let err = NodeBounds::compute(SOURCE, &node).unwrap_err();
        assert_eq!(err.message(), message);
        assert_eq!(err.kind, EditErrorKind::MismatchedSource);
        assert_eq!(err.span, node.span);
        assert_eq!(err.other_span, None);
        assert_eq!(err.label(), Some("recorded span"));
        assert_eq!(
            err.help(),
            Some(
                "This node or entry was parsed from a different source (or the source changed). \
                 Re-parse and rebuild the plan."
            )
        );
        assert_eq!(err.input.as_str(), SOURCE);

        let mut plan = EditPlan::new(SOURCE.to_string());
        assert_eq!(plan.delete_node(&node).unwrap_err(), err);
        assert_eq!(plan.set_node_name(&node, "x").unwrap_err(), err);
        assert_eq!(plan.set_argument(&node, 0, 1).unwrap_err(), err);
        assert_eq!(plan.set_property(&node, "k", 1).unwrap_err(), err);
        assert!(plan.is_empty());
    }
}

#[test]
fn a_node_that_was_not_parsed_is_refused() {
    let mut node = server();
    node.format = None;
    let err = NodeBounds::compute(SOURCE, &node).unwrap_err();
    assert_eq!(err.kind, EditErrorKind::MismatchedSource);
    assert_eq!(
        err.message(),
        "Node does not carry original formatting, so it cannot be located."
    );
    assert_eq!(err.label(), Some("node"));
    assert_eq!(
        err.help(),
        Some("Only nodes obtained by parsing a document can be edited positionally.")
    );
}

#[test]
fn an_entry_that_does_not_line_up_is_refused() {
    let cases = [
        (
            entry("", 40, 41, ""),
            "Entry has no recorded value representation, so it cannot be located.",
            "entry",
        ),
        (
            entry("", 40, 41, "99"),
            "Entry span is shorter than its recorded value representation.",
            "recorded span",
        ),
        (
            entry("", 40, 41, "8"),
            "Entry's recorded value does not match the source at its span.",
            "recorded span",
        ),
        (
            entry("", 40, 99, "9"),
            "Entry's recorded value does not match the source at its span.",
            "recorded span",
        ),
    ];
    for (entry, message, label) in cases {
        let mut node = server();
        node.entries = vec![entry.clone()];
        let mut plan = EditPlan::new(SOURCE.to_string());
        let err = plan.set_argument(&node, 0, 1).unwrap_err();
        assert_eq!(err.message(), message);
        assert_eq!(err.label(), Some(label));
        assert_eq!(err.span, entry.span);
        assert_eq!(err.kind, EditErrorKind::MismatchedSource);
    }

    let mut node = server();
    node.entries[2].format = None;
    let mut plan = EditPlan::new(SOURCE.to_string());
    let err = plan.set_argument(&node, 0, 1).unwrap_err();
    assert_eq!(
        err.message(),
        "Entry does not carry original source text, so it cannot be located."
    );
    assert_eq!(
        err.help(),
        Some("Only entries obtained by parsing a document can be edited positionally.")
    );
}

#[test]
fn what_the_node_does_not_have_is_said() {
    let mut plan = EditPlan::new(SOURCE.to_string());
    let err = plan.set_argument(&server(), 10, 1).unwrap_err();
    assert_eq!(err.message(), "Node has no argument at index 10.");
    assert_eq!(err.span, (6..12).into());
    assert_eq!(err.label(), Some("node"));
    assert_eq!(
        err.help(),
        Some("Argument indices are zero-based and count only positional values.")
    );
    let err = plan.set_property(&server(), "a\"\n", 1).unwrap_err();
    assert_eq!(err.message(), "Node has no property named \"a\\\"\\n\".");
    assert_eq!(
        err.help(),
        Some("Only existing properties can be updated positionally; add new ones via the tree API.")
    );
    assert_eq!(err.labels().len(), 1);
    assert_eq!(err.labels()[0].label(), "node");
}

#[test]
fn arguments_are_counted_without_properties() {
    let node = server();
    assert_eq!(node.argument(0), Some(&node.entries[2]));
    assert_eq!(node.argument(1), None);
    assert_eq!(node.property("host"), Some(&node.entries[0]));
    assert_eq!(node.property("hos"), None);
}

#[test]
fn overlaps_are_refused_and_leave_the_plan_as_it_was() {
    let mut plan = EditPlan::new(SOURCE.to_string());
    plan.set_property(&server(), "port", 1).unwrap();
    plan.set_property(&server(), "host", "h").unwrap();
    let before = plan.edits().to_vec();
    let err = plan.delete_node(&server()).unwrap_err();
    assert_eq!(err.kind, EditErrorKind::OverlappingEdits);
    assert_eq!(
        err.message(),
        "Refusing to apply overlapping edits (delete node overlaps a previous update property)."
    );
    assert_eq!(err.span, (0..42).into());
    // The first edit in the order of positions is the one that is named.
    assert_eq!(err.other_span, Some((18..29).into()));
    assert_eq!(
        err.help(),
        Some(
            "Split the changes across multiple plans, or remove one of the edits. Containment and \
             crossing edits are never reordered automatically."
        )
    );
    let labels = err.labels();
    assert_eq!(labels[0].label(), "this edit");
    assert_eq!(labels[0].span(), (0..42).into());
    assert_eq!(labels[1].label(), "conflicts with this edit");
    assert_eq!(labels[1].span(), (18..29).into());
    assert_eq!(plan.edits(), &before[..]);
    assert_eq!(plan.source(), SOURCE);

    // What only touches the deleted range is not part of it.
    plan.delete_node(&next()).unwrap();
    assert_eq!(plan.len(), 3);
}

#[test]
fn the_order_of_adding_does_not_matter() {
    let mut forwards = EditPlan::new(SOURCE.to_string());
    forwards
        .set_node_name(&server(), "client")
        .unwrap()
        .set_property(&server(), "port", 1)
        .unwrap()
        .set_argument(&server(), 0, "nine")
        .unwrap()
        .delete_node(&next())
        .unwrap();
    let mut backwards = EditPlan::new(SOURCE.to_string());
    backwards.delete_node(&next()).unwrap();
    backwards.set_argument(&server(), 0, "nine").unwrap();
    backwards.set_property(&server(), "port", 1).unwrap();
    backwards.set_node_name(&server(), "client").unwrap();
    assert_eq!(forwards.edits(), backwards.edits());
    assert_eq!(
        forwards.apply(SOURCE).unwrap(),
        "// é\nclient host=\"localhost\" port=1 nine\n"
    );
    let kinds: Vec<EditKind> = forwards.edits().iter().map(|edit| edit.kind()).collect();
    assert_eq!(
        kinds,
        [
            EditKind::NodeName,
            EditKind::Property,
            EditKind::Argument,
            EditKind::DeleteNode
        ]
    );
}

#[test]
fn kinds_are_named() {
    assert_eq!(EditKind::NodeName.to_string(), "update node name");
    assert_eq!(EditKind::Argument.to_string(), "update argument");
    assert_eq!(EditKind::Property.to_string(), "update property");
    assert_eq!(EditKind::DeleteNode.to_string(), "delete node");
}

#[test]
fn spans_are_made_of_ranges() {
    let span: SourceSpan = (3..8).into();
    assert_eq!(span.offset(), 3);
    assert_eq!(span.len(), 5);
    assert!(!span.is_empty());
    let backwards = SourceSpan::from(8..3);
    assert_eq!(backwards.offset(), 8);
    assert!(backwards.is_empty());
}

#[test]
fn spans_that_end_past_every_source_are_refused() {
    let endless = SourceSpan::new(6, usize::MAX);
    let mut node = server();
    node.span = endless;
    let mut plan = EditPlan::new(SOURCE.to_string());
    let err = plan.delete_node(&node).unwrap_err();
    assert_eq!(err.message(), "Node span is outside the source bounds.");

    let mut node = server();
    node.entries[2].span = endless;
    let err = plan.set_argument(&node, 0, 1).unwrap_err();
    assert_eq!(
        err.message(),
        "Entry's recorded value does not match the source at its span."
    );

    let mut node = server();
    node.name.span = endless;
    let err = plan.set_node_name(&node, "client").unwrap_err();
    assert_eq!(
        err.message(),
        "Node's recorded name does not match the source at its span."
    );
    assert!(plan.is_empty());
}

/// The node of a source that is one word, a space and one digit.
fn short_node(src: &str) -> KdlNode {
    let name = &src[..1];
    KdlNode {
        name: KdlIdentifier {
            value: name.to_string(),
            repr: Some(name.to_string()),
            span: (0..1).into(),
        },
        entries: vec![entry_in(src, "", 2, 3, &src[2..3])],
        span: (0..3).into(),
        format: Some(KdlNodeFormat {
            leading: String::new(),
            body: src[..3].to_string(),
            terminator: "\n".to_string(),
        }),
    }
}

#[test]
fn a_node_of_another_source_takes_part_in_no_edit() {
    for foreign in ["b 1\n", "b 2\n", "a 2\n"] {
        let node = short_node(foreign);
        let mut plan = EditPlan::new("a 1\n".to_string());
        let err = plan.set_node_name(&node, "z").unwrap_err();
        assert_eq!(err.kind, EditErrorKind::MismatchedSource);
        assert_eq!(
            err.message(),
            "Node's recorded text does not match the source at its span."
        );
        assert_eq!(plan.delete_node(&node).unwrap_err(), err);
        assert_eq!(plan.set_argument(&node, 0, 7).unwrap_err(), err);
        assert_eq!(plan.set_property(&node, "k", 7).unwrap_err(), err);
        assert!(plan.is_empty());
        assert_eq!(plan.apply("a 1\n").unwrap(), "a 1\n");
    }
    let mut plan = EditPlan::new("a 1\n".to_string());
    plan.set_node_name(&short_node("a 1\n"), "z").unwrap();
    assert_eq!(plan.apply("a 1\n").unwrap(), "z 1\n");
}

#[test]
fn a_name_that_is_not_what_its_span_says_is_refused() {
    let source = "a 1\n";
    let mut renamed = short_node(source);
    renamed.name.value = "b".to_string();
    renamed.name.repr = Some("b".to_string());
    let mut replaced = short_node(source);
    replaced.name = KdlIdentifier::from("b");
    let mut outside = short_node(source);
    outside.name.span = (90..91).into();
    let mut empty = short_node(source);
    empty.name.repr = Some(String::new());
    empty.name.span = (0..0).into();
    for node in [renamed, replaced, outside, empty] {
        let mut plan = EditPlan::new(source.to_string());
        let err = plan.set_node_name(&node, "x").unwrap_err();
        assert_eq!(err.kind, EditErrorKind::MismatchedSource);
        assert_eq!(
            err.message(),
            "Node's recorded name does not match the source at its span."
        );
        assert_eq!(plan.delete_node(&node).unwrap_err(), err);
        assert!(plan.is_empty());
    }

    // A name that stands in the source, but in another node.
    let source = "a 1\na 2\n";
    let mut node = short_node("a 1\n");
    node.name.span = (4..5).into();
    let mut plan = EditPlan::new(source.to_string());
    let err = plan.set_node_name(&node, "x").unwrap_err();
    assert_eq!(err.kind, EditErrorKind::MismatchedSource);
}

#[test]
fn an_entry_of_another_source_is_refused() {
    let mut node = server();
    node.entries[1] = entry_in(
        &SOURCE.replace("port", "pork"),
        "pork",
        30,
        39,
        "8000",
    );
    let mut plan = EditPlan::new(SOURCE.to_string());
    let err = plan.set_property(&node, "pork", 1).unwrap_err();
    assert_eq!(err.kind, EditErrorKind::MismatchedSource);
    assert_eq!(
        err.message(),
        "Entry's recorded text does not match the source at its span."
    );
    assert_eq!(err.span, (30..39).into());
}

#[test]
fn a_copy_of_a_plan_goes_its_own_way() {
    let mut plan = EditPlan::new(SOURCE.to_string());
    plan.set_node_name(&server(), "client").unwrap();
    let mut copy = plan.clone();
    copy.delete_node(&next()).unwrap();
    assert_eq!(copy.source(), plan.source());
    assert_eq!(copy.edits()[0], plan.edits()[0]);
    assert_eq!((plan.len(), copy.len()), (1, 2));
}

#[test]
fn every_edit_ends_before_the_next_one_starts() {
    let mut plan = EditPlan::new(SOURCE.to_string());
    plan.delete_node(&next()).unwrap();
    plan.set_property(&server(), "port", 1).unwrap();
    plan.delete_node(&server()).unwrap_err();
    plan.set_node_name(&server(), "client").unwrap();
    plan.set_argument(&server(), 4, 1).unwrap_err();
    let spans: Vec<(usize, usize)> = plan
        .edits()
        .iter()
        .map(|edit| (edit.start(), edit.end()))
        .collect();
    assert_eq!(spans, [(6, 12), (35, 39), (42, 47)]);
    assert_eq!(plan.len(), 3);
    assert_eq!(
        plan.apply_to_source().unwrap(),
        "// é\nclient host=\"localhost\" port=1 9\n"
    );
}

#[test]
fn editing_inside_a_deleted_node_is_refused() {
    let src = "parent {\n  child 1\n}\n";
    let node_of = |name: &str, at: usize, start: usize, end: usize, leading: &str| KdlNode {
        name: KdlIdentifier {
            value: name.to_string(),
            repr: Some(name.to_string()),
            span: SourceSpan::new(at, name.len()),
        },
        entries: Vec::new(),
        span: (start..end).into(),
        format: Some(KdlNodeFormat {
            leading: leading.to_string(),
            body: src[start..end].to_string(),
            terminator: "\n".to_string(),
        }),
    };
    let parent = node_of("parent", 0, 0, 20, "");
    let mut child = node_of("child", 11, 11, 18, "  ");
    child.entries = vec![entry_in(src, "", 17, 18, "1")];

    let mut plan = EditPlan::new(src.to_string());
    plan.delete_node(&parent).unwrap();
    let err = plan.set_argument(&child, 0, 2).unwrap_err();
    assert_eq!(err.kind, EditErrorKind::OverlappingEdits);
    assert_eq!(plan.apply(src).unwrap(), "");
}

#[test]
fn errors_quote_what_they_are_given() {
    let err = not_a_name("src", (1..2).into(), "<x>");
    assert_eq!(err.message(), "<x> is not a valid KDL identifier.");
    assert_eq!(err.kind, EditErrorKind::InvalidReplacement);
    assert_eq!(err.input.as_str(), "src");
    assert_eq!(err.span, (1..2).into());
    let err = not_a_value("src", (1..2).into(), "<x>");
    assert_eq!(err.message(), "<x> is not a valid KDL value.");
    assert_eq!(err.label(), Some("replacement value"));
    let err = property_not_found(SOURCE, &server(), "<x>");
    assert_eq!(err.message(), "Node has no property named <x>.");
    assert_eq!(err.kind, EditErrorKind::NotFound);
    assert_eq!(err.span, (6..12).into());
}
