//! How names and values are written, and which spellings of a name are accepted.

use kdl::{
    EditErrorKind, EditPlan, KdlEntry, KdlEntryFormat, KdlIdentifier, KdlNode, KdlNodeFormat,
    KdlValue,
};

const SOURCE: &str = "a 1\n";

/// The only node of `SOURCE`.
fn node() -> KdlNode {
    KdlNode {
        name: KdlIdentifier {
            value: "a".to_string(),
            repr: Some("a".to_string()),
            span: (0..1).into(),
        },
        entries: vec![KdlEntry {
            name: None,
            span: (2..3).into(),
            format: Some(KdlEntryFormat {
                text: "1".to_string(),
                value_repr: "1".to_string(),
            }),
        }],
        span: (0..3).into(),
        format: Some(KdlNodeFormat {
            leading: String::new(),
            body: "a 1".to_string(),
            terminator: "\n".to_string(),
        }),
    }
}

/// The text of `SOURCE` with its argument changed, or what was wrong with that.
fn with_argument(value: KdlValue) -> Result<String, EditErrorKind> {
    let mut plan = EditPlan::new(SOURCE.to_string());
    match plan.set_argument(&node(), 0, value) {
        Ok(plan) => Ok(plan.apply(SOURCE).unwrap()),
        Err(error) => Err(error.kind),
    }
}

/// Whether `spelling` is accepted as a spelling of `name`.
fn spells(spelling: &str, name: &str) -> bool {
    let mut identifier = KdlIdentifier::from(name);
    identifier.set_repr(spelling.to_string());
    let mut plan = EditPlan::new(SOURCE.to_string());
    let result = plan.set_node_name(&node(), identifier);
    match result {
        Ok(plan) => {
            assert_eq!(plan.edits()[0].replacement(), spelling);
            true
        }
        Err(error) => {
            assert_eq!(error.kind, EditErrorKind::InvalidReplacement);
            false
        }
    }
}

#[test]
fn names_are_quoted_when_they_must_be() {
    for bare in [
        "a", "new-name", "A1", "-", "+", ".", "-a", ".a", "-.a", "é", "a.b", "<>", "_1", "nano", "--1",
    ] {
        assert_eq!(KdlIdentifier::from(bare).to_string(), bare);
    }
    for quoted in [
        "", "1a", "-1", ".5", "-.5", "+9", "true", "false", "null", "inf", "-inf", "nan", "a b", "a=b",
        "a/b", "(a)", "a{", "[x]", "a;b", "#a",
    ] {
        assert_eq!(
            KdlIdentifier::from(quoted).to_string(),
            format!("\"{quoted}\"")
        );
    }
}

#[test]
fn strings_are_escaped() {
    let value = KdlValue::from("x#\"y");
    assert_eq!(value.to_string(), "\"x#\\\"y\"");
    let value = KdlValue::from("\\ \" \n \r \t \u{8} \u{c}".to_string());
    assert_eq!(value.to_string(), "\"\\\\ \\\" \\n \\r \\t \\b \\f\"");
}

#[test]
fn values_are_written_as_literals() {
    assert_eq!(KdlValue::from(0).to_string(), "0");
    assert_eq!(KdlValue::from(-15).to_string(), "-15");
    assert_eq!(
        KdlValue::from(i128::MAX).to_string(),
        "170141183460469231731687303715884105727"
    );
    assert_eq!(
        KdlValue::from(i128::MIN).to_string(),
        "-170141183460469231731687303715884105728"
    );
    assert_eq!(KdlValue::from(true).to_string(), "#true");
    assert_eq!(KdlValue::from(false).to_string(), "#false");
    assert_eq!(KdlValue::Null.to_string(), "#null");
    assert_eq!(KdlValue::Float("1.5e3".to_string()).to_string(), "1.5e3");
}

#[test]
fn every_denotable_value_replaces_another() {
    assert_eq!(with_argument(KdlValue::from("two words")).unwrap(), "a \"two words\"\n");
    assert_eq!(with_argument(KdlValue::from("")).unwrap(), "a \"\"\n");
    assert_eq!(with_argument(KdlValue::from("\"\"")).unwrap(), "a \"\\\"\\\"\"\n");
    assert_eq!(with_argument(KdlValue::from("\u{8}\u{c}")).unwrap(), "a \"\\b\\f\"\n");
    assert_eq!(
        with_argument(KdlValue::from(i128::MAX)).unwrap(),
        "a 170141183460469231731687303715884105727\n"
    );
    assert_eq!(
        with_argument(KdlValue::from(i128::MIN)).unwrap(),
        "a -170141183460469231731687303715884105728\n"
    );
    assert_eq!(with_argument(KdlValue::Null).unwrap(), "a #null\n");
    for literal in ["1.0", "-0.5", "+1_0.2_5", "1e21", "1E-7", "2.5e+10", "#inf", "#-inf", "#nan"] {
        assert_eq!(
            with_argument(KdlValue::Float(literal.to_string())).unwrap(),
            format!("a {literal}\n")
        );
    }
}

#[test]
fn a_value_that_cannot_be_written_is_refused() {
    for text in ["\u{0}", "a\u{85}b", "\u{b}", "\u{2028}", "\u{2029}", "\u{feff}", "\u{7f}", "\u{202e}"] {
        assert_eq!(
            with_argument(KdlValue::from(text)),
            Err(EditErrorKind::InvalidReplacement)
        );
    }
    for literal in ["1", "one", "1.", ".5", "1e", "_1.0", "1.0x", "", "#infinity", "1.0 "] {
        assert_eq!(
            with_argument(KdlValue::Float(literal.to_string())),
            Err(EditErrorKind::InvalidReplacement)
        );
    }
}

#[test]
fn what_is_wrong_with_a_replacement_is_said() {
    let mut plan = EditPlan::new(SOURCE.to_string());
    let err = plan.set_argument(&node(), 0, "\u{0}").unwrap_err();
    assert_eq!(err.message(), "\"\\\"\\0\\\"\" is not a valid KDL value.");
    assert_eq!(err.label(), Some("replacement value"));
    assert_eq!(err.help(), None);
    assert_eq!(err.span, (2..3).into());

    let err = plan
        .set_argument(&node(), 0, KdlValue::Float("1".to_string()))
        .unwrap_err();
    assert_eq!(
        err.message(),
        "Replacement value did not round-trip to the expected value."
    );

    let mut name = KdlIdentifier::from("ok");
    name.set_repr("o\"k".to_string());
    let err = plan.set_node_name(&node(), name).unwrap_err();
    assert_eq!(err.message(), "\"o\\\"k\" is not a valid KDL identifier.");
    assert_eq!(err.label(), Some("node name"));
    assert_eq!(
        err.help(),
        Some("Use a value that renders as a valid KDL node name.")
    );
    assert_eq!(err.span, (0..1).into());

    let mut name = KdlIdentifier::from("ok");
    name.set_repr("ko".to_string());
    let err = plan.set_node_name(&node(), name).unwrap_err();
    assert_eq!(
        err.message(),
        "Replacement node name did not round-trip to the expected value."
    );
    assert_eq!(err.label(), Some("node name"));
    assert_eq!(err.help(), None);
    assert!(plan.is_empty());
}

#[test]
fn bare_spellings() {
    assert!(spells("ok", "ok"));
    assert!(spells("-.a", "-.a"));
    assert!(!spells("ok", "other"));
    assert!(!spells("o k", "o k"));
    assert!(!spells("true", "true"));
    assert!(!spells("1a", "1a"));
    assert!(!spells("-.5", "-.5"));
    assert!(!spells("", ""));
    assert!(!spells(" ok", "ok"));
    assert!(!spells("ok\n", "ok"));
}

#[test]
fn quoted_spellings() {
    assert!(spells("\"\"", ""));
    assert!(spells("\"o k\"", "o k"));
    assert!(spells("\"a\\n\\r\\t\\b\\f\\s\\\\\\\"\"", "a\n\r\t\u{8}\u{c} \\\""));
    assert!(spells("\"\\u{e9}\\u{1F600}\\u{00000a}\"", "é😀\n"));
    assert!(spells("\"a\\  \n\t b\"", "ab"));
    assert!(spells("\"# = {} ; \\u{feff}\"", "# = {} ; \u{feff}"));
    for broken in [
        "\"", "\"a", "a\"", "\"a\"b\"", "\"\\x\"", "\"\\\"", "\"\\u{}\"", "\"\\u{110000}\"",
        "\"\\u{d800}\"", "\"\\u{1234567}\"", "\"\\u{12\"", "\"\\u12}\"", "\"a\nb\"", "\"\u{0}\"",
        "\"\\/\"", "\"a\" ", "\"\"\"", "\"\"\"\"\"",
    ] {
        assert!(!spells(broken, "a"));
        assert!(!spells(broken, ""));
    }
}

#[test]
fn raw_spellings() {
    assert!(spells("#\"a\"#", "a"));
    assert!(spells("#\"\"#", ""));
    assert!(spells("#\"a\\n\"b\"#", "a\\n\"b"));
    assert!(spells("##\"a\"#b\"##", "a\"#b"));
    assert!(spells("#\"\"a\"#", "\"a"));
    for broken in [
        "#", "#\"", "#\"a\"", "#\"a\"##", "##\"a\"#", "#\"a\"#\"#", "#\"a\nb\"#", "#\"\"\"#",
        "#\"\"\"\"#", "#\"\"a", "#\"\u{7f}\"#", "#a#",
    ] {
        assert!(!spells(broken, "a"));
        assert!(!spells(broken, ""));
        assert!(!spells(broken, "\""));
    }
}

#[test]
fn spellings_on_several_lines() {
    assert!(spells("\"\"\"\nab\n\"\"\"", "ab"));
    assert!(spells("\"\"\"\n\"\"\"", ""));
    assert!(spells("\"\"\"\n\n\"\"\"", ""));
    assert!(spells("\"\"\"\r\n  a\r\n\r\n    b\\tc\r\n  \"\"\"", "a\n\n  b\tc"));
    assert!(spells("\"\"\"\n  a \\\n     b\n  \"\"\"", "a b"));
    assert!(spells("\"\"\"\n \"\" \\\"\"\" \n\"\"\"", " \"\" \"\"\" "));
    assert!(spells("\"\"\"\n \t \n  a\n  \"\"\"", "\na"));
    assert!(spells("#\"\"\"\n  raw \\n \"\"\" x\n  \"\"\"#", "raw \\n \"\"\" x"));
    for broken in [
        "\"\"\"a\"\"\"", "\"\"\"\na\"\"\"", "\"\"\"\n  a\n b\n  \"\"\"", "\"\"\"\na\"\"\"b\n\"\"\"",
        "\"\"\"\na\n\"\"", "\"\"\"\na\\\n\"\"\"", "\"\"\"\n\\x\n\"\"\"", "#\"\"\"a\"\"\"#",
        "#\"\"\"\na\n\"\"\"", "#\"\"\"\na\n\"#", "\"\"\" \na\n\"\"\"",
    ] {
        assert!(!spells(broken, "a"));
        assert!(!spells(broken, ""));
    }
}
