//! Where edits are anchored, and how they combine.

use kdl::{
    EditPlan, KdlEntry, KdlEntryFormat, KdlIdentifier, KdlNode, KdlNodeFormat, KdlValue,
};

/// A node of `src` as the parser describes it: `before` is all of the source up to the node's
/// leading trivia, and each entry is its key (empty for an argument), its text and the text of its
/// value.
fn parsed(
    src: &str,
    before: &str,
    leading: &str,
    name: &str,
    body: &str,
    terminator: &str,
    entries: &[(&str, &str, &str)],
) -> KdlNode {
    let start = before.len() + leading.len();
    let whole = format!("{before}{leading}{body}{terminator}");
    assert!(src.starts_with(&whole), "fixture does not match its source");
    let name_at = start + body.find(name).expect("name must stand in the node");
    let mut cursor = name_at + name.len();
    let mut list = Vec::new();
    for (key, text, repr) in entries {
        let at = cursor + src[cursor..].find(text).expect("entry must stand in the node");
        assert!(text.ends_with(repr));
        cursor = at + text.len();
        list.push(KdlEntry {
            name: if key.is_empty() {
                None
            } else {
                Some(KdlIdentifier::from(*key))
            },
            span: (at..cursor).into(),
            format: Some(KdlEntryFormat {
                text: text.to_string(),
                value_repr: repr.to_string(),
            }),
        });
    }
    KdlNode {
        name: KdlIdentifier {
            value: name.trim_matches('"').to_string(),
            repr: Some(name.to_string()),
            span: (name_at..name_at + name.len()).into(),
        },
        entries: list,
        span: (start..start + body.len()).into(),
        format: Some(KdlNodeFormat {
            leading: leading.to_string(),
            body: body.to_string(),
            terminator: terminator.to_string(),
        }),
    }
}

#[test]
fn rename_node_preserves_annotations_and_children() {
    let inline = "  (t)\"old\" a=1 { // head\n    kid 2\n}\n";
    let node = parsed(
        inline,
        "",
        "  ",
        "\"old\"",
        "(t)\"old\" a=1 { // head\n    kid 2\n}",
        "\n",
        &[("a", "a=1", "1")],
    );
    let mut plan = EditPlan::new(inline.to_string());
    plan.set_node_name(&node, KdlIdentifier::from("new")).unwrap();
    let out = plan.apply_to_source().unwrap();

    assert_eq!(out, "  (t)new a=1 { // head\n    kid 2\n}\n");
}

/// A value anchored at the start of its entry instead of its end would overwrite the key or leave
/// the old literal dangling behind a type annotation.
#[test]
fn property_value_anchor_regression_with_type_and_key() {
    let src = "n  key  =  (t)\"old value\"  next\n";
    let node = parsed(
        src,
        "",
        "",
        "n",
        "n  key  =  (t)\"old value\"  next",
        "\n",
        &[
            ("key", "key  =  (t)\"old value\"", "\"old value\""),
            ("", "next", "next"),
        ],
    );
    let mut plan = EditPlan::new(src.to_string());
    plan.set_property(&node, "key", KdlValue::Integer(7)).unwrap();
    let edit = &plan.edits()[0];
    assert_eq!(&src[edit.start()..edit.end()], "\"old value\"");
    let out = plan.apply_to_source().unwrap();
    assert_eq!(out, "n  key  =  (t)7  next\n");
}

#[test]
fn argument_anchor_skips_type_annotation_only() {
    let src = "n (a)x (b)y\n";
    let node = parsed(
        src,
        "",
        "",
        "n",
        "n (a)x (b)y",
        "\n",
        &[("", "(a)x", "x"), ("", "(b)y", "y")],
    );
    let mut plan = EditPlan::new(src.to_string());
    plan.set_argument(&node, 1, KdlValue::Bool(false)).unwrap();
    let edit = &plan.edits()[0];
    assert_eq!(&src[edit.start()..edit.end()], "y");
    let out = plan.apply_to_source().unwrap();
    assert_eq!(out, "n (a)x (b)#false\n");
}

#[test]
fn disjoint_edits_on_same_node_compose() {
    let src = "foo 1 2 3\n";
    let foo = parsed(
        src,
        "",
        "",
        "foo",
        "foo 1 2 3",
        "\n",
        &[("", "1", "1"), ("", "2", "2"), ("", "3", "3")],
    );
    let mut plan = EditPlan::new(src.to_string());
    plan.set_argument(&foo, 0, KdlValue::Integer(10)).unwrap();
    plan.set_argument(&foo, 2, KdlValue::Integer(30)).unwrap();
    let out = plan.apply_to_source().unwrap();
    assert_eq!(out, "foo 10 2 30\n");
    assert_eq!(plan.edits().len(), 2);
}

#[test]
fn missing_targets_are_diagnostic_errors_not_panics() {
    let src = "foo a=1\n";
    let foo = parsed(src, "", "", "foo", "foo a=1", "\n", &[("a", "a=1", "1")]);
    let mut plan = EditPlan::new(src.to_string());

    let missing_arg = plan.set_argument(&foo, 5, KdlValue::Null);
    assert!(missing_arg.is_err());
    let missing_prop = plan.set_property(&foo, "nope", KdlValue::Null);
    assert!(missing_prop.is_err());
    assert!(plan.is_empty());

    let other = parsed("baz 9\n", "", "", "baz", "baz 9", "\n", &[("", "9", "9")]);
    assert!(plan.delete_node(&other).is_err());
    assert!(plan.set_node_name(&other, "x").is_err());
}

#[test]
fn empty_plan_applies_to_identical_source() {
    let src = "foo 1\n// tail\n";
    let plan = EditPlan::new(src.to_string());
    assert!(plan.is_empty());
    assert_eq!(plan.apply_to_source().unwrap(), src);
}

#[test]
fn node_deep_in_children_is_located_absolutely() {
    let src = "outer {\n  inner {\n    leaf old=1\n  }\n}\n";
    let leaf = parsed(
        src,
        "outer {\n  inner {",
        "\n    ",
        "leaf",
        "leaf old=1",
        "\n",
        &[("old", "old=1", "1")],
    );
    let mut plan = EditPlan::new(src.to_string());
    plan.set_property(&leaf, "old", KdlValue::Integer(2)).unwrap();
    let out = plan.apply_to_source().unwrap();
    assert_eq!(out, "outer {\n  inner {\n    leaf old=2\n  }\n}\n");
}

#[test]
fn duplicate_property_targets_last_like_tree_api() {
    let src = "foo k=1 k=2\n";
    let foo = parsed(
        src,
        "",
        "",
        "foo",
        "foo k=1 k=2",
        "\n",
        &[("k", "k=1", "1"), ("k", "k=2", "2")],
    );
    let mut plan = EditPlan::new(src.to_string());
    plan.set_property(&foo, "k", KdlValue::Integer(3)).unwrap();
    let out = plan.apply_to_source().unwrap();
    assert_eq!(out, "foo k=1 k=3\n");
}
