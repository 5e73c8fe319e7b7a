//! Splicing edits and telling source versions apart.

use kdl::{apply_edits, fnv1a64, EditErrorKind, EditKind, EditPlan, SourceEdit, SourceSpan};
use std::sync::Arc;

fn edit(start: usize, end: usize, replacement: &str) -> SourceEdit {
    SourceEdit {
        kind: EditKind::Argument,
        span: (start..end).into(),
        replacement: replacement.to_string(),
    }
}

#[test]
fn no_edits_change_nothing() {
    assert_eq!(apply_edits("abc", &[]).unwrap(), "abc");
    assert_eq!(apply_edits("", &[]).unwrap(), "");
}

#[test]
fn one_edit_keeps_what_is_before_and_after() {
    assert_eq!(apply_edits("abc", &[edit(1, 2, "XY")]).unwrap(), "aXYc");
    assert_eq!(apply_edits("abc", &[edit(0, 3, "")]).unwrap(), "");
    assert_eq!(apply_edits("abc", &[edit(3, 3, "d")]).unwrap(), "abcd");
    assert_eq!(apply_edits("abc", &[edit(0, 0, "-")]).unwrap(), "-abc");
}

#[test]
fn untouched_bytes_survive_in_order() {
    let source = "0123456789";
    let edits = [edit(1, 3, "longer"), edit(3, 4, ""), edit(7, 9, "é")];
    let out = apply_edits(source, &edits).unwrap();
    assert_eq!(out, "0longer456é9");
    // Two bytes became six, one became none, two became two.
    assert_eq!(out.len(), source.len() + 4 - 1);
    assert_eq!(out.as_bytes()[4 + 3], source.as_bytes()[4]);
    assert_eq!(out.as_bytes()[9 + 3], source.as_bytes()[9]);
}

#[test]
fn the_first_edit_that_cannot_be_applied_is_reported() {
    let out_of_order = [edit(2, 3, "x"), edit(0, 1, "y"), edit(9, 9, "z")];
    let err = apply_edits("abc", &out_of_order).unwrap_err();
    assert_eq!(err.kind, EditErrorKind::MismatchedSource);
    assert_eq!(err.span, (0..1).into());
    assert_eq!(
        err.message(),
        "Edit span is out of bounds or overlaps another edit."
    );
    assert_eq!(err.label(), Some("invalid edit span"));
    assert_eq!(
        err.help(),
        Some("Only apply edits produced from this exact source.")
    );
    assert_eq!(err.input.as_str(), "abc");

    let err = apply_edits("abc", &[edit(2, 4, "x")]).unwrap_err();
    assert_eq!(err.kind, EditErrorKind::MismatchedSource);
}

#[test]
fn an_edit_does_not_cut_a_character_in_two() {
    for (start, end) in [(1, 2), (0, 1), (1, 3)] {
        let err = apply_edits("éx", &[edit(start, end, "")]).unwrap_err();
        assert_eq!(err.kind, EditErrorKind::InvalidUtf8);
        assert_eq!(err.message(), "Edit span does not lie on a UTF-8 boundary.");
        assert_eq!(err.help(), None);
    }
    assert_eq!(apply_edits("éx", &[edit(0, 2, "e")]).unwrap(), "ex");
}

#[test]
fn checksums_of_known_texts() {
    assert_eq!(fnv1a64(b""), 0xcbf29ce484222325);
    assert_eq!(fnv1a64(b"a"), 0xaf63dc4c8601ec8c);
    assert_eq!(fnv1a64(b"foobar"), 0x85944171f73967e8);
}

#[test]
fn every_single_changed_byte_is_noticed() {
    let source = "node key=1 // tail\n";
    let plan = EditPlan::new(source.to_string());
    assert_eq!(plan.apply(source).unwrap(), source);
    for at in 0..source.len() {
        let mut changed = source.as_bytes().to_vec();
        changed[at] ^= 1;
        assert_ne!(fnv1a64(&changed), fnv1a64(source.as_bytes()));
        let changed = String::from_utf8(changed).unwrap();
        let err = plan.apply(&changed).unwrap_err();
        assert_eq!(err.kind, EditErrorKind::StaleSource);
        assert_eq!(err.span, (0..source.len()).into());
        assert_eq!(err.input.as_str(), source);
        assert_eq!(
            err.message(),
            "Cannot apply an edit plan to a different source version than the one it was planned \
             against."
        );
        assert_eq!(err.label(), Some("plan was built against this text"));
        assert_eq!(
            err.help(),
            Some("Re-parse the current source and rebuild the edit plan before applying it.")
        );
    }
}

#[test]
fn another_text_of_the_same_length_and_checksum_is_refused() {
    let a = "8yn0iYCKYHlIj4-BwPqk";
    let b = "GReLUrM4wMqfg9yzV3KQ";
    assert_eq!(a.len(), b.len());
    assert_eq!(fnv1a64(a.as_bytes()), fnv1a64(b.as_bytes()));
    let plan = EditPlan::new(a.to_string());
    assert_eq!(plan.apply(a).unwrap(), a);
    let err = plan.apply(b).unwrap_err();
    assert_eq!(err.kind, EditErrorKind::StaleSource);
    assert_eq!(err.input.as_str(), a);
}

#[test]
fn a_plan_is_made_of_whatever_becomes_a_shared_string() {
    let owned = EditPlan::new("a 1\n".to_string());
    let shared = EditPlan::new(Arc::new("a 1\n".to_string()));
    assert_eq!(owned.source(), shared.source());
    assert_eq!(shared.apply_to_source().unwrap(), "a 1\n");
}

#[test]
fn an_edit_that_ends_past_every_source_is_refused() {
    let endless = SourceEdit {
        kind: EditKind::NodeName,
        span: SourceSpan::new(1, usize::MAX),
        replacement: "x".to_string(),
    };
    let err = apply_edits("abc", &[endless]).unwrap_err();
    assert_eq!(err.kind, EditErrorKind::MismatchedSource);
}
