//! Parsed nodes, as far as positional edits read them.
use crate::span::SourceSpan;
use crate::text::same_text;
use vstd::prelude::*;
use vstd::std_specs::convert::FromSpecImpl;

verus! {

/// A name: what it says, how it was written, and where.
#[derive(Debug, Clone, PartialEq, Eq)]
pub struct KdlIdentifier {
    /// The name itself.
    pub value: String,
    /// The text that the name is written as; `None` leaves the spelling to the renderer.
    pub repr: Option<String>,
    /// Where the name stands in the source.
    pub span: SourceSpan,
}

impl KdlIdentifier {
    /// The name itself.
    pub fn value(&self) -> (value: &str)
        ensures
            value@ == self.value@,
    {
        self.value.as_str()
    }

    /// Where the name stands in the source.
    pub fn span(&self) -> (span: SourceSpan)
        ensures
            span == self.span,
    {
        self.span
    }

    /// Fixes the text that the name is written as.
    pub fn set_repr(&mut self, repr: String)
        ensures
            final(self).value == old(self).value,
            final(self).span == old(self).span,
            final(self).repr == Some(repr),
    {
        self.repr = Some(repr);
    }
}

impl From<String> for KdlIdentifier {
    fn from(value: String) -> (name: Self) {
        KdlIdentifier { value, repr: None, span: SourceSpan { offset: 0, length: 0 } }
    }
}

impl FromSpecImpl<String> for KdlIdentifier {
    open spec fn obeys_from_spec() -> bool {
        true
    }

    open spec fn from_spec(value: String) -> Self {
        KdlIdentifier { value, repr: None, span: SourceSpan { offset: 0, length: 0 } }
    }
}

impl From<&str> for KdlIdentifier {
    fn from(value: &str) -> (name: Self)
        ensures
            name.value@ == value@,
            name.repr is None,
            name.span == (SourceSpan { offset: 0, length: 0 }),
    {
        KdlIdentifier {
            value: value.to_owned(),
            repr: None,
            span: SourceSpan { offset: 0, length: 0 },
        }
    }
}

// What is made of a borrowed text is stated by the `ensures` of `from`, by the text's characters.
impl FromSpecImpl<&str> for KdlIdentifier {
    open spec fn obeys_from_spec() -> bool {
        false
    }

    open spec fn from_spec(value: &str) -> Self {
        arbitrary()
    }
}

/// A value that an argument or a property can have.
#[derive(Debug, Clone, PartialEq, Eq)]
pub enum KdlValue {
    /// A string.
    String(String),
    /// A whole number.
    Integer(i128),
    /// A floating-point number, held as the literal that denotes it: `1.5`, `1e21`, `#inf`.
    Float(String),
    /// A truth value.
    Bool(bool),
    /// No value.
    Null,
}

/// What a [`KdlValue`] is.
pub enum ValueView {
    /// A string.
    String(Seq<char>),
    /// A whole number.
    Integer(int),
    /// A floating-point number, by its literal.
    Float(Seq<char>),
    /// A truth value.
    Bool(bool),
    /// No value.
    Null,
}

impl View for KdlValue {
    type V = ValueView;

    open spec fn view(&self) -> ValueView {
        match self {
            KdlValue::String(text) => ValueView::String(text@),
            KdlValue::Integer(number) => ValueView::Integer(*number as int),
            KdlValue::Float(literal) => ValueView::Float(literal@),
            KdlValue::Bool(truth) => ValueView::Bool(*truth),
            KdlValue::Null => ValueView::Null,
        }
    }
}

impl KdlValue {
    /// Whether two values are the same.
    pub(crate) fn same(&self, other: &KdlValue) -> (same: bool)
        ensures
            same == (self@ == other@),
    {
        match (self, other) {
            (KdlValue::String(a), KdlValue::String(b)) => same_text(a.as_str(), b.as_str()),
            (KdlValue::Integer(a), KdlValue::Integer(b)) => *a == *b,
            (KdlValue::Float(a), KdlValue::Float(b)) => same_text(a.as_str(), b.as_str()),
            (KdlValue::Bool(a), KdlValue::Bool(b)) => *a == *b,
            (KdlValue::Null, KdlValue::Null) => true,
            _ => false,
        }
    }
}

impl From<String> for KdlValue {
    fn from(value: String) -> (result: Self) {
        KdlValue::String(value)
    }
}

impl FromSpecImpl<String> for KdlValue {
    open spec fn obeys_from_spec() -> bool {
        true
    }

    open spec fn from_spec(value: String) -> Self {
        KdlValue::String(value)
    }
}

impl From<&str> for KdlValue {
    fn from(value: &str) -> (result: Self)
        ensures
            result@ == ValueView::String(value@),
    {
        KdlValue::String(value.to_owned())
    }
}

// What is made of a borrowed text is stated by the `ensures` of `from`, by the text's characters.
impl FromSpecImpl<&str> for KdlValue {
    open spec fn obeys_from_spec() -> bool {
        false
    }

    open spec fn from_spec(value: &str) -> Self {
        arbitrary()
    }
}

impl From<i128> for KdlValue {
    fn from(value: i128) -> (result: Self) {
        KdlValue::Integer(value)
    }
}

impl FromSpecImpl<i128> for KdlValue {
    open spec fn obeys_from_spec() -> bool {
        true
    }

    open spec fn from_spec(value: i128) -> Self {
        KdlValue::Integer(value)
    }
}

impl From<bool> for KdlValue {
    fn from(value: bool) -> (result: Self) {
        KdlValue::Bool(value)
    }
}

impl FromSpecImpl<bool> for KdlValue {
    open spec fn obeys_from_spec() -> bool {
        true
    }

    open spec fn from_spec(value: bool) -> Self {
        KdlValue::Bool(value)
    }
}

/// How an entry was written.
#[derive(Debug, Clone, PartialEq, Eq)]
pub struct KdlEntryFormat {
    /// The exact source text of the entry, from its key or type annotation to its value.
    pub text: String,
    /// The exact source text of the value, without its type annotation.
    pub value_repr: String,
}

/// An argument (without a name) or a property (with one).
#[derive(Debug, Clone, PartialEq, Eq)]
pub struct KdlEntry {
    /// The key of a property; `None` for an argument.
    pub name: Option<KdlIdentifier>,
    /// Where the entry stands in the source, from its key or type annotation to its value.
    pub span: SourceSpan,
    /// How the entry was written, if it was parsed.
    pub format: Option<KdlEntryFormat>,
}

/// How a node was written.
#[derive(Debug, Clone, PartialEq, Eq)]
pub struct KdlNodeFormat {
    /// Whitespace and comments before the node.
    pub leading: String,
    /// The exact source text of the node, from its type annotation or name to its children.
    pub body: String,
    /// What ends the node: a newline, a semicolon, a line comment.
    pub terminator: String,
}

/// A node of a document.
#[derive(Debug, Clone, PartialEq, Eq)]
pub struct KdlNode {
    /// The name of the node.
    pub name: KdlIdentifier,
    /// Arguments and properties, in the order in which they were written.
    pub entries: Vec<KdlEntry>,
    /// Where the node stands in the source, without leading trivia and terminator.
    pub span: SourceSpan,
    /// How the node was written, if it was parsed.
    pub format: Option<KdlNodeFormat>,
}

/// The arguments among `entries`.
pub open spec fn arguments(entries: Seq<KdlEntry>) -> Seq<KdlEntry> {
    entries.filter(|entry: KdlEntry| entry.name is None)
}

/// The properties named `key` among `entries`.
pub open spec fn properties(entries: Seq<KdlEntry>, key: Seq<char>) -> Seq<KdlEntry> {
    entries.filter(|entry: KdlEntry| entry.name matches Some(name) && name.value@ == key)
}

/// The argument at `index`, counting arguments only.
pub open spec fn argument_at(entries: Seq<KdlEntry>, index: nat) -> Option<KdlEntry> {
    if index < arguments(entries).len() {
        Some(arguments(entries)[index as int])
    } else {
        None
    }
}

/// The last property named `key`.
pub open spec fn last_property(entries: Seq<KdlEntry>, key: Seq<char>) -> Option<KdlEntry> {
    if properties(entries, key).len() > 0 {
        Some(properties(entries, key).last())
    } else {
        None
    }
}

/// Filtering one more entry keeps what was filtered before and adds the entry if it qualifies.
proof fn lemma_filter_step(entries: Seq<KdlEntry>, i: int, keep: spec_fn(KdlEntry) -> bool)
    requires
        0 <= i < entries.len(),
    ensures
        entries.take(i + 1).filter(keep) == (if keep(entries[i]) {
            entries.take(i).filter(keep).push(entries[i])
        } else {
            entries.take(i).filter(keep)
        }),
{
    reveal(Seq::filter);
    assert(entries.take(i + 1).drop_last() =~= entries.take(i));
    assert(entries.take(i + 1).last() == entries[i]);
}

/// What a prefix contributes to the filtered entries stays where it is.
proof fn lemma_filter_prefix(entries: Seq<KdlEntry>, i: int, keep: spec_fn(KdlEntry) -> bool)
    requires
        0 <= i <= entries.len(),
    ensures
        entries.take(i).filter(keep).len() <= entries.filter(keep).len(),
        entries.filter(keep).take(entries.take(i).filter(keep).len() as int) == entries.take(
            i,
        ).filter(keep),
    decreases entries.len() - i,
{
    if i < entries.len() {
        lemma_filter_step(entries, i, keep);
        lemma_filter_prefix(entries, i + 1, keep);
        let n = entries.take(i).filter(keep).len() as int;
        let m = entries.take(i + 1).filter(keep).len() as int;
        assert(entries.filter(keep).take(n) =~= entries.filter(keep).take(m).take(n));
        assert(entries.take(i + 1).filter(keep).take(n) =~= entries.take(i).filter(keep));
    } else {
        assert(entries.take(i) =~= entries);
        assert(entries.filter(keep).take(entries.filter(keep).len() as int) =~= entries.filter(
            keep,
        ));
    }
}

impl KdlNode {
    /// The name of the node.
    pub fn name(&self) -> (name: &KdlIdentifier)
        ensures
            *name == self.name,
    {
        &self.name
    }

    /// Where the node stands in the source.
    pub fn span(&self) -> (span: SourceSpan)
        ensures
            span == self.span,
    {
        self.span
    }

    /// The argument at `index`, counting arguments only, from zero.
    pub fn argument(&self, index: usize) -> (entry: Option<&KdlEntry>)
        ensures
            match entry {
                Some(entry) => argument_at(self.entries@, index as nat) == Some(*entry),
                None => argument_at(self.entries@, index as nat) is None,
            },
    {
        let ghost keep = |entry: KdlEntry| entry.name is None;
        let mut seen: usize = 0;
        let mut i: usize = 0;
        while i < self.entries.len()
            invariant
                i <= self.entries.len(),
                seen <= i,
                seen <= index,
                keep == (|entry: KdlEntry| entry.name is None),
                seen == self.entries@.take(i as int).filter(keep).len(),
            decreases self.entries.len() - i,
        {
            proof {
                lemma_filter_step(self.entries@, i as int, keep);
                lemma_filter_prefix(self.entries@, i + 1, keep);
            }
            let entry: &KdlEntry = &self.entries[i];
            if entry.name.is_none() {
                if seen == index {
                    assert(self.entries@.filter(keep).take(seen + 1)[seen as int] == *entry);
                    return Some(entry);
                }
                seen = seen + 1;
            }
            i = i + 1;
        }
        assert(self.entries@.take(i as int) =~= self.entries@);
        None
    }

    /// The last property named `key`.
    pub fn property(&self, key: &str) -> (entry: Option<&KdlEntry>)
        ensures
            match entry {
                Some(entry) => last_property(self.entries@, key@) == Some(*entry),
                None => last_property(self.entries@, key@) is None,
            },
    {
        let ghost keep = |entry: KdlEntry|
            entry.name matches Some(name) && name.value@ == key@;
        let mut current: Option<&KdlEntry> = None;
        let mut i: usize = 0;
        while i < self.entries.len()
            invariant
                i <= self.entries.len(),
                keep == (|entry: KdlEntry| entry.name matches Some(name) && name.value@ == key@),
                match current {
                    Some(entry) => {
                        &&& self.entries@.take(i as int).filter(keep).len() > 0
                        &&& self.entries@.take(i as int).filter(keep).last() == *entry
                    },
                    None => self.entries@.take(i as int).filter(keep).len() == 0,
                },
            decreases self.entries.len() - i,
        {
            proof {
                lemma_filter_step(self.entries@, i as int, keep);
            }
            let entry: &KdlEntry = &self.entries[i];
            if let Some(name) = &entry.name {
                if same_text(name.value.as_str(), key) {
                    current = Some(entry);
                }
            }
            i = i + 1;
        }
        assert(self.entries@.take(i as int) =~= self.entries@);
        current
    }
}

} // verus!
