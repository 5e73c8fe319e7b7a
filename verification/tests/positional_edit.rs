//! Planning edits to nodes and applying them, one behaviour per test.

use kdl::{
    EditErrorKind, EditKind, EditPlan, KdlEntry, KdlEntryFormat, KdlIdentifier, KdlNode,
    KdlNodeFormat, KdlValue, SourceEdit, SourceSpan,
};
use miette::SourceCode;

/// Result of applying a plan: the edits in source order and the new text.
struct Applied {
    edits: Vec<SourceEdit>,
    text: String,
}

/// A node of `src` as the parser describes it: `before` is all of the source up to the node's
/// leading trivia, and each entry is its key (empty for an argument), its text and the text of its
/// value.
fn parsed(
    src: &str,
    before: &str,
    leading: &str,
    name: &str,
    body: &str,
    terminator: &str,
    entries: &[(&str, &str, &str)],
) -> KdlNode {
    let start = before.len() + leading.len();
    let whole = format!("{before}{leading}{body}{terminator}");
    assert!(src.starts_with(&whole), "fixture does not match its source");
    let name_at = start + body.find(name).expect("name must stand in the node");
    let mut cursor = name_at + name.len();
    let mut list = Vec::new();
    for (key, text, repr) in entries {
        let at = cursor + src[cursor..].find(text).expect("entry must stand in the node");
        assert!(text.ends_with(repr));
        cursor = at + text.len();
        list.push(KdlEntry {
            name: if key.is_empty() {
                None
            } else {
                Some(KdlIdentifier::from(*key))
            },
            span: (at..cursor).into(),
            format: Some(KdlEntryFormat {
                text: text.to_string(),
                value_repr: repr.to_string(),
            }),
        });
    }
    KdlNode {
        name: KdlIdentifier {
            value: name.trim_matches('"').to_string(),
            repr: Some(name.to_string()),
            span: (name_at..name_at + name.len()).into(),
        },
        entries: list,
        span: (start..start + body.len()).into(),
        format: Some(KdlNodeFormat {
            leading: leading.to_string(),
            body: body.to_string(),
            terminator: terminator.to_string(),
        }),
    }
}

/// Builds a plan, applies it, and checks what holds of every plan: the edits are sorted and
/// pairwise non-overlapping, and both ways of applying agree.
fn plan_apply(src: &str, build: impl FnOnce(&mut EditPlan)) -> Applied {
    let mut plan = EditPlan::new(src.to_string());
    build(&mut plan);
    let edits = plan.edits().to_vec();
    let mut last_end = 0usize;
    for edit in &edits {
        assert!(
            edit.start() >= last_end,
            "edits overlap or are out of order: {:?}",
            edits
        );
        last_end = edit.end();
    }
    let text = plan.apply(src).expect("plan must apply to its own source");
    assert_eq!(plan.apply_to_source().unwrap(), text);
    assert_eq!(plan.into_edits(), edits);
    Applied { edits, text }
}

#[test]
fn updates_an_argument_and_preserves_surrounding_trivia() {
    let src = "foo 1 2 3\nbar 4\n";
    let foo = parsed(
        src,
        "",
        "",
        "foo",
        "foo 1 2 3",
        "\n",
        &[("", "1", "1"), ("", "2", "2"), ("", "3", "3")],
    );
    let applied = plan_apply(src, |plan| {
        plan.set_argument(&foo, 1, 99).unwrap();
    });
    assert_eq!(applied.text, "foo 1 99 3\nbar 4\n");
    assert_eq!(applied.edits.len(), 1);
    assert_eq!(applied.edits[0].kind(), EditKind::Argument);
    assert_eq!(applied.edits[0].span(), (6..7).into());
    assert_eq!(applied.edits[0].replacement(), "99");
}

#[test]
fn updates_a_property_and_keeps_key_equals_and_spacing() {
    let src = "foo  x = 1\nnext p=2\n";
    let foo = parsed(src, "", "", "foo", "foo  x = 1", "\n", &[("x", "x = 1", "1")]);
    let applied = plan_apply(src, |plan| {
        plan.set_property(&foo, "x", "zz").unwrap();
    });
    assert_eq!(applied.text, "foo  x = zz\nnext p=2\n");
    assert_eq!(applied.edits[0].kind(), EditKind::Property);
}

#[test]
fn updates_the_last_duplicate_property_like_the_tree_api() {
    let src = "foo k=1 k=2\n";
    let foo = parsed(
        src,
        "",
        "",
        "foo",
        "foo k=1 k=2",
        "\n",
        &[("k", "k=1", "1"), ("k", "k=2", "2")],
    );
    let applied = plan_apply(src, |plan| {
        plan.set_property(&foo, "k", 9).unwrap();
    });
    assert_eq!(applied.text, "foo k=1 k=9\n");
}

#[test]
fn renames_a_node_and_keeps_its_leading_comment() {
    let src = "// header comment\nold-name 1\nnext 2\n";
    let node = parsed(
        src,
        "",
        "// header comment\n",
        "old-name",
        "old-name 1",
        "\n",
        &[("", "1", "1")],
    );
    let applied = plan_apply(src, |plan| {
        plan.set_node_name(&node, "new-name").unwrap();
    });
    assert_eq!(applied.text, "// header comment\nnew-name 1\nnext 2\n");
    assert_eq!(applied.edits[0].kind(), EditKind::NodeName);
}

#[test]
fn renaming_a_quoted_name_quotes_only_when_required() {
    let src = "\"needs quotes\" 1\n";
    let node = parsed(
        src,
        "",
        "",
        "\"needs quotes\"",
        "\"needs quotes\" 1",
        "\n",
        &[("", "1", "1")],
    );
    let applied = plan_apply(src, |plan| {
        plan.set_node_name(&node, "plain").unwrap();
    });
    assert_eq!(applied.text, "plain 1\n");
}

#[test]
fn deletes_the_first_node_including_its_leading_comment_and_newline() {
    let src = "// c\na 1\nb 2\n";
    let a = parsed(src, "", "// c\n", "a", "a 1", "\n", &[("", "1", "1")]);
    let applied = plan_apply(src, |plan| {
        plan.delete_node(&a).unwrap();
    });
    assert_eq!(applied.text, "b 2\n");
    assert_eq!(applied.edits[0].kind(), EditKind::DeleteNode);
    assert!(applied.edits[0].is_deletion());
}

#[test]
fn deletes_a_later_node_without_touching_indentation_elsewhere() {
    let src = "a 1\n\n  b 2\nc 3\n";
    let b = parsed(src, "a 1\n", "\n  ", "b", "b 2", "\n", &[("", "2", "2")]);
    let applied = plan_apply(src, |plan| {
        plan.delete_node(&b).unwrap();
    });
    assert_eq!(applied.text, "a 1\nc 3\n");
}

#[test]
fn deletes_a_nested_node_from_a_child_block() {
    let src = "parent {\n  c1 1 // hi\n  c2 2\n}\nq 9\n";
    let c1 = parsed(
        src,
        "parent {",
        "\n  ",
        "c1",
        "c1 1 ",
        "// hi\n",
        &[("", "1", "1")],
    );
    let applied = plan_apply(src, |plan| {
        plan.delete_node(&c1).unwrap();
    });
    assert_eq!(applied.text, "parent {  c2 2\n}\nq 9\n");
}

#[test]
fn deleting_a_later_child_preserves_indentation_of_remaining_children() {
    let src = "parent {\n  c1 1\n  c2 2\n}\n";
    let c2 = parsed(
        src,
        "parent {\n  c1 1\n",
        "  ",
        "c2",
        "c2 2",
        "\n",
        &[("", "2", "2")],
    );
    let applied = plan_apply(src, |plan| {
        plan.delete_node(&c2).unwrap();
    });
    assert_eq!(applied.text, "parent {\n  c1 1\n}\n");
}

#[test]
fn deleting_a_node_with_children_removes_the_whole_block_and_terminator() {
    let src = "before 0\nparent {\n  child 1\n}\nafter 2\n";
    let parent = parsed(
        src,
        "before 0\n",
        "",
        "parent",
        "parent {\n  child 1\n}",
        "\n",
        &[],
    );
    let applied = plan_apply(src, |plan| {
        plan.delete_node(&parent).unwrap();
    });
    assert_eq!(applied.text, "before 0\nafter 2\n");
}

#[test]
fn deleting_a_node_with_a_multiline_value_removes_all_of_its_lines() {
    let src = "before 1\nnode x=#\"\"\"\nmulti\nline\n\"\"\"#\nafter 2\n";
    let node = parsed(
        src,
        "before 1\n",
        "",
        "node",
        "node x=#\"\"\"\nmulti\nline\n\"\"\"#",
        "\n",
        &[(
            "x",
            "x=#\"\"\"\nmulti\nline\n\"\"\"#",
            "#\"\"\"\nmulti\nline\n\"\"\"#",
        )],
    );
    let applied = plan_apply(src, |plan| {
        plan.delete_node(&node).unwrap();
    });
    assert_eq!(applied.text, "before 1\nafter 2\n");
}

#[test]
fn deleting_a_node_takes_its_trailing_inline_comment() {
    let src = "a 1\nb 2 // bye\nc 3\n";
    let b = parsed(src, "a 1\n", "", "b", "b 2 ", "// bye\n", &[("", "2", "2")]);
    let applied = plan_apply(src, |plan| {
        plan.delete_node(&b).unwrap();
    });
    assert_eq!(applied.text, "a 1\nc 3\n");
}

#[test]
fn edits_remain_correct_with_a_leading_byte_order_mark() {
    let src = "\u{feff}a 1\nb 2\n";
    let a = parsed(src, "\u{feff}", "", "a", "a 1", "\n", &[("", "1", "1")]);
    let b = parsed(
        src,
        "\u{feff}a 1\n",
        "",
        "b",
        "b 2",
        "\n",
        &[("", "2", "2")],
    );
    let mut plan = EditPlan::new(src.to_string());
    plan.set_argument(&a, 0, 99).unwrap();
    plan.set_node_name(&b, "z").unwrap();
    assert_eq!(plan.edits().len(), 2);
    assert_eq!(plan.apply(src).unwrap(), "\u{feff}a 99\nz 2\n");

    let mut delete_first = EditPlan::new(src.to_string());
    delete_first.delete_node(&a).unwrap();
    assert_eq!(delete_first.apply(src).unwrap(), "\u{feff}b 2\n");
}

#[test]
fn replaces_a_raw_string_value() {
    let src = "foo #\"raw \\ value\"#\nbar 1\n";
    let foo = parsed(
        src,
        "",
        "",
        "foo",
        "foo #\"raw \\ value\"#",
        "\n",
        &[("", "#\"raw \\ value\"#", "#\"raw \\ value\"#")],
    );
    let applied = plan_apply(src, |plan| {
        plan.set_argument(&foo, 0, "new").unwrap();
    });
    assert_eq!(applied.text, "foo new\nbar 1\n");
}

#[test]
fn replaces_a_single_line_raw_property_value() {
    let src = "foo k=##\"a\"b\"##\n";
    let foo = parsed(
        src,
        "",
        "",
        "foo",
        "foo k=##\"a\"b\"##",
        "\n",
        &[("k", "k=##\"a\"b\"##", "##\"a\"b\"##")],
    );
    let applied = plan_apply(src, |plan| {
        plan.set_property(&foo, "k", "z").unwrap();
    });
    assert_eq!(applied.text, "foo k=z\n");
}

#[test]
fn replaces_a_multiline_raw_string_argument() {
    let src = "foo #\"\"\"\nraw \" line\nsecond\n\"\"\"#\nnext 1\n";
    let raw = "#\"\"\"\nraw \" line\nsecond\n\"\"\"#";
    let foo = parsed(
        src,
        "",
        "",
        "foo",
        "foo #\"\"\"\nraw \" line\nsecond\n\"\"\"#",
        "\n",
        &[("", raw, raw)],
    );
    let applied = plan_apply(src, |plan| {
        plan.set_argument(&foo, 0, 42).unwrap();
    });
    assert_eq!(applied.text, "foo 42\nnext 1\n");
    assert_eq!(applied.edits[0].replacement(), "42");
}

#[test]
fn replaces_a_multiline_quoted_property_value() {
    let src = "foo k=\"\"\"\nline one\nline two\n\"\"\"\n";
    let foo = parsed(
        src,
        "",
        "",
        "foo",
        "foo k=\"\"\"\nline one\nline two\n\"\"\"",
        "\n",
        &[(
            "k",
            "k=\"\"\"\nline one\nline two\n\"\"\"",
            "\"\"\"\nline one\nline two\n\"\"\"",
        )],
    );
    let applied = plan_apply(src, |plan| {
        plan.set_property(&foo, "k", KdlValue::Bool(true)).unwrap();
    });
    assert_eq!(applied.text, "foo k=#true\n");
}

#[test]
fn preserves_an_existing_type_annotation_when_changing_a_value() {
    let src = "foo (uuid)1 key=(flag)#true\n";
    let foo = parsed(
        src,
        "",
        "",
        "foo",
        "foo (uuid)1 key=(flag)#true",
        "\n",
        &[("", "(uuid)1", "1"), ("key", "key=(flag)#true", "#true")],
    );
    let applied = plan_apply(src, |plan| {
        plan.set_argument(&foo, 0, 5).unwrap();
        plan.set_property(&foo, "key", false).unwrap();
    });
    assert_eq!(applied.text, "foo (uuid)5 key=(flag)#false\n");
}

#[test]
fn works_across_crlf_line_endings() {
    let src = "a 1\r\nb 2\r\nc 3\r\n";
    let b = parsed(src, "a 1\r\n", "", "b", "b 2", "\r\n", &[("", "2", "2")]);
    let c = parsed(
        src,
        "a 1\r\nb 2\r\n",
        "",
        "c",
        "c 3",
        "\r\n",
        &[("", "3", "3")],
    );
    let applied = plan_apply(src, |plan| {
        plan.set_argument(&b, 0, 7).unwrap();
        plan.set_node_name(&c, "renamed").unwrap();
    });
    assert_eq!(applied.text, "a 1\r\nb 7\r\nrenamed 3\r\n");
}

#[test]
fn deleting_a_node_keeps_crlf_separators_for_other_nodes() {
    let src = "a 1\r\nb 2\r\nc 3\r\n";
    let b = parsed(src, "a 1\r\n", "", "b", "b 2", "\r\n", &[("", "2", "2")]);
    let applied = plan_apply(src, |plan| {
        plan.delete_node(&b).unwrap();
    });
    assert_eq!(applied.text, "a 1\r\nc 3\r\n");
}

#[test]
fn preserves_inline_and_full_line_comments_around_unrelated_nodes() {
    let src = "// top\na 1 // keep me\r\n/* block */ b 2 {\n  // inner\n  c 3\n}\n";
    let a = parsed(
        src,
        "",
        "// top\n",
        "a",
        "a 1 ",
        "// keep me\r\n",
        &[("", "1", "1")],
    );
    let applied = plan_apply(src, |plan| {
        plan.set_argument(&a, 0, 10).unwrap();
    });
    assert_eq!(
        applied.text,
        "// top\na 10 // keep me\r\n/* block */ b 2 {\n  // inner\n  c 3\n}\n"
    );
}

#[test]
fn applies_several_disjoint_edits_in_source_order() {
    let src = "a 1 {\n  b x=2 y=3\n}\nc 4 // tail\n";
    let a = parsed(
        src,
        "",
        "",
        "a",
        "a 1 {\n  b x=2 y=3\n}",
        "\n",
        &[("", "1", "1")],
    );
    let b = parsed(
        src,
        "a 1 {",
        "\n  ",
        "b",
        "b x=2 y=3",
        "\n",
        &[("x", "x=2", "2"), ("y", "y=3", "3")],
    );
    let c = parsed(
        src,
        "a 1 {\n  b x=2 y=3\n}\n",
        "",
        "c",
        "c 4 ",
        "// tail\n",
        &[("", "4", "4")],
    );
    let applied = plan_apply(src, |plan| {
        plan.set_node_name(&a, "A").unwrap();
        plan.set_property(&b, "y", 30).unwrap();
        plan.delete_node(&c).unwrap();
    });
    let offsets: Vec<usize> = applied.edits.iter().map(|e| e.start()).collect();
    let mut sorted = offsets.clone();
    sorted.sort_unstable();
    assert_eq!(offsets, sorted);
    assert_eq!(applied.text, "A 1 {\n  b x=2 y=30\n}\n");
}

#[test]
fn two_touching_but_disjoint_edits_are_allowed() {
    let src = "a 1 2\n";
    let a = parsed(
        src,
        "",
        "",
        "a",
        "a 1 2",
        "\n",
        &[("", "1", "1"), ("", "2", "2")],
    );
    let mut plan = EditPlan::new(src.to_string());
    plan.set_argument(&a, 0, 10).unwrap();
    plan.set_argument(&a, 1, 20).unwrap();
    assert_eq!(plan.edits().len(), 2);
    assert_eq!(plan.apply(src).unwrap(), "a 10 20\n");
}

fn x_and_y() -> (&'static str, KdlNode) {
    let src = "a x=1 y=2\n";
    let a = parsed(
        src,
        "",
        "",
        "a",
        "a x=1 y=2",
        "\n",
        &[("x", "x=1", "1"), ("y", "y=2", "2")],
    );
    (src, a)
}

#[test]
fn rejects_overlapping_edits_to_the_same_entry() {
    let (src, a) = x_and_y();
    let mut plan = EditPlan::new(src.to_string());
    plan.set_property(&a, "x", 1).unwrap();
    let err = plan
        .set_property(&a, "x", 2)
        .expect_err("rewriting the same value twice must be rejected");
    assert_eq!(err.kind, EditErrorKind::OverlappingEdits);
    assert!(err.other_span.is_some());
}

#[test]
fn rejects_an_edit_inside_a_node_that_is_being_deleted() {
    let src = "parent {\n  child 1\n}\nnext 2\n";
    let parent = parsed(src, "", "", "parent", "parent {\n  child 1\n}", "\n", &[]);
    let child = parsed(
        src,
        "parent {",
        "\n  ",
        "child",
        "child 1",
        "\n",
        &[("", "1", "1")],
    );
    let mut plan = EditPlan::new(src.to_string());
    plan.delete_node(&parent).unwrap();
    let err = plan
        .set_argument(&child, 0, 9)
        .expect_err("containment must be rejected, not reordered");
    assert_eq!(err.kind, EditErrorKind::OverlappingEdits);
    assert!(err.message().contains("overlap"));
}

#[test]
fn rejects_crossing_edits_spanning_a_deletion_boundary() {
    let src = "a 1\nb 2\nc 3\n";
    let target = parsed(src, "a 1\n", "", "b", "b 2", "\n", &[("", "2", "2")]);
    let mut plan = EditPlan::new(src.to_string());
    plan.delete_node(&target).unwrap();
    let err = plan.set_node_name(&target, "z").unwrap_err();
    assert_eq!(err.kind, EditErrorKind::OverlappingEdits);
}

#[test]
fn rejects_an_edit_against_a_different_source_version() {
    let src = "a 1\nb 2\n";
    let other = "a 7\nb 2\n";
    let foreign = parsed(other, "", "", "a", "a 7", "\n", &[("", "7", "7")]);
    let mut plan = EditPlan::new(src.to_string());
    let err = plan
        .set_argument(&foreign, 0, 1)
        .expect_err("a node from another source must not be accepted");
    assert_eq!(err.kind, EditErrorKind::MismatchedSource);
}

#[test]
fn rejects_applying_to_a_changed_source_even_of_the_same_length() {
    let src = "a 1\nb 2\n";
    let a = parsed(src, "", "", "a", "a 1", "\n", &[("", "1", "1")]);
    let mut plan = EditPlan::new(src.to_string());
    plan.set_argument(&a, 0, 9).unwrap();
    let changed = "a 5\nb 2\n";
    assert_eq!(changed.len(), src.len(), "fixture keeps length equal");
    let err = plan
        .apply(changed)
        .expect_err("stale source must be rejected");
    assert_eq!(err.kind, EditErrorKind::StaleSource);
}

#[test]
fn rejects_applying_when_offsets_would_shift() {
    let src = "a 1\nb 2\n";
    let b = parsed(src, "a 1\n", "", "b", "b 2", "\n", &[("", "2", "2")]);
    let mut plan = EditPlan::new(src.to_string());
    plan.set_argument(&b, 0, 9).unwrap();
    let changed = "a 1 extra\nb 2\n";
    let err = plan
        .apply(changed)
        .expect_err("different-length source rejected");
    assert_eq!(err.kind, EditErrorKind::StaleSource);
}

#[test]
fn reports_not_found_for_missing_argument_and_property() {
    let src = "a 1 k=2\n";
    let a = parsed(
        src,
        "",
        "",
        "a",
        "a 1 k=2",
        "\n",
        &[("", "1", "1"), ("k", "k=2", "2")],
    );
    let mut plan = EditPlan::new(src.to_string());
    let arg_err = plan.set_argument(&a, 5, 1).unwrap_err();
    assert_eq!(arg_err.kind, EditErrorKind::NotFound);
    let prop_err = plan.set_property(&a, "nope", 1).unwrap_err();
    assert_eq!(prop_err.kind, EditErrorKind::NotFound);
}

#[test]
fn rejects_an_invalid_replacement_name() {
    let src = "a 1\n";
    let a = parsed(src, "", "", "a", "a 1", "\n", &[("", "1", "1")]);
    let mut plan = EditPlan::new(src.to_string());
    let mut bad = KdlIdentifier::from("ok");
    bad.set_repr("o\"k".to_string());
    let err = plan
        .set_node_name(&a, bad)
        .expect_err("an unparsable replacement must be rejected");
    assert_eq!(err.kind, EditErrorKind::InvalidReplacement);
    assert!(err.help().is_some());
}

#[test]
fn diagnostics_carry_source_spans_and_labels() {
    let src = "a x=1\n";
    let a = parsed(src, "", "", "a", "a x=1", "\n", &[("x", "x=1", "1")]);
    let mut plan = EditPlan::new(src.to_string());
    plan.set_property(&a, "x", 1).unwrap();
    let err = plan.set_property(&a, "x", 2).unwrap_err();
    let labels = err.labels();
    assert_eq!(labels.len(), 2);
    let first: SourceSpan = labels[0].span();
    let inner: miette::SourceSpan = (first.offset(), first.len()).into();
    let code = err.input.read_span(&inner, 0, 0).unwrap();
    assert_eq!(std::str::from_utf8(code.data()).unwrap(), "1");
}
