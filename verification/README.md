# kdl

Positional, trivia-preserving edits of [KDL](https://kdl.dev) sources, verified with Verus.

A parsed node knows where it stands in its source. An `EditPlan` is bound to that source and turns
operations on nodes (rename a node, change an argument or a property, delete a node) into byte
replacements that do not overlap. Applying the plan splices the replacements into a copy of the
source and leaves every other byte alone.

```rust
let mut plan = EditPlan::new(source.to_string());
plan.set_property(&server, "port", 9000)?;
let edited = plan.apply(source)?;
```

An operation is refused, and leaves the plan as it was, when the node does not line up with the
source byte for byte, when the replacement would not read back as the value that was asked for, or
when it overlaps an edit that is already planned. A plan applies to its own source and to no other
text.

## Layout

- `src/span.rs`, `src/text.rs`: byte spans, and text seen as UTF-8 bytes.
- `src/tree.rs`: nodes, entries, names and values, as far as edits read them.
- `src/anchor.rs`: where a node or a value stands in the source, checked against the source.
- `src/syntax.rs`, `src/scan.rs`, `src/strings.rs`, `src/reader.rs`, `src/number.rs`, `src/value.rs`:
  how names and values are written, and reading them back.
- `src/validate.rs`: whether a replacement reads back as what it should.
- `src/edit.rs`: single replacements, and splicing them into a source.
- `src/operation.rs`, `src/plan.rs`: what each operation does to a plan, and the plan itself.
- `src/error.rs`, `src/checksum.rs`: errors, and the checksum of a source.
- `src/laws/`: what holds of the library as a whole.
- `app/`: the errors as diagnostics of `miette`, and floating-point values.
