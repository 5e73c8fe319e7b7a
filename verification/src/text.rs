//! Text seen as the UTF-8 bytes that spans count.
use vstd::prelude::*;
use vstd::utf8::{
    encode_utf8, encode_utf8_decode_utf8, encode_utf8_valid_utf8, is_char_boundary,
    is_char_boundary_iff_not_is_continuation_byte, is_char_boundary_start_end_of_seq,
    length_of_first_scalar, pop_first_scalar, valid_first_scalar, valid_utf8, valid_utf8_split,
};

verus! {

/// `part` stands in `whole` at offset `at`.
pub open spec fn occurs_at(whole: Seq<u8>, at: int, part: Seq<u8>) -> bool {
    &&& 0 <= at
    &&& at + part.len() <= whole.len()
    &&& whole.subrange(at, at + part.len()) == part
}

/// Encoding a concatenation is concatenating the encodings.
pub proof fn lemma_encode_concat(a: Seq<char>, b: Seq<char>)
    ensures
        encode_utf8(a + b) == encode_utf8(a) + encode_utf8(b),
    decreases a.len(),
{
    if a.len() == 0 {
        assert(a + b == b);
        assert(encode_utf8(a) + encode_utf8(b) == encode_utf8(b));
    } else {
        lemma_encode_concat(a.drop_first(), b);
        assert((a + b).drop_first() == a.drop_first() + b);
        assert((a + b)[0] == a[0]);
    }
}

/// Two texts with the same bytes are the same text.
pub proof fn lemma_encode_injective(a: Seq<char>, b: Seq<char>)
    requires
        encode_utf8(a) == encode_utf8(b),
    ensures
        a == b,
{
    encode_utf8_decode_utf8(a);
    encode_utf8_decode_utf8(b);
}

/// A text is empty exactly when it has no bytes.
pub proof fn lemma_encode_empty(a: Seq<char>)
    ensures
        encode_utf8(a).len() == 0 <==> a.len() == 0,
{
    if encode_utf8(a).len() == 0 {
        assert(encode_utf8(a) == encode_utf8(Seq::<char>::empty()));
        lemma_encode_injective(a, Seq::<char>::empty());
    }
}

/// Offsets that are boundaries of the part after a boundary are boundaries of the whole.
proof fn lemma_boundary_shift(bytes: Seq<u8>, at: int, k: int)
    requires
        valid_utf8(bytes),
        is_char_boundary(bytes, at),
        0 <= at <= bytes.len(),
        0 <= k <= bytes.len() - at,
        is_char_boundary(bytes.subrange(at, bytes.len() as int), k),
    ensures
        is_char_boundary(bytes, at + k),
{
    let rest = bytes.subrange(at, bytes.len() as int);
    valid_utf8_split(bytes, at);
    if at + k == bytes.len() {
        is_char_boundary_start_end_of_seq(bytes);
    } else {
        assert(rest[k] == bytes[at + k]);
        is_char_boundary_iff_not_is_continuation_byte(rest, k);
        is_char_boundary_iff_not_is_continuation_byte(bytes, at + k);
    }
}

/// A well-formed prefix of well-formed bytes ends on a boundary.
proof fn lemma_prefix_ends_on_boundary(bytes: Seq<u8>, prefix: Seq<u8>)
    requires
        valid_utf8(bytes),
        valid_utf8(prefix),
        occurs_at(bytes, 0, prefix),
    ensures
        is_char_boundary(bytes, prefix.len() as int),
    decreases prefix.len(),
{
    if prefix.len() > 0 {
        let n = length_of_first_scalar(prefix);
        assert(forall|i: int| 0 <= i < prefix.len() ==> prefix[i] == bytes[i]) by {
            assert forall|i: int| 0 <= i < prefix.len() implies prefix[i] == bytes[i] by {
                assert(bytes.subrange(0, prefix.len() as int)[i] == bytes[i]);
            }
        }
        assert(valid_first_scalar(prefix));
        assert(valid_first_scalar(bytes));
        assert(length_of_first_scalar(bytes) == n);
        let rest = pop_first_scalar(bytes);
        let prefix_rest = pop_first_scalar(prefix);
        assert(rest.subrange(0, prefix_rest.len() as int) =~= prefix_rest);
        lemma_prefix_ends_on_boundary(rest, prefix_rest);
    }
}

/// Text found in a source at a boundary, or any text that is not empty, starts and ends on
/// character boundaries of the source.
pub proof fn lemma_occurrence_on_boundaries(source: Seq<char>, at: int, part: Seq<char>)
    requires
        occurs_at(encode_utf8(source), at, encode_utf8(part)),
        part.len() > 0 || is_char_boundary(encode_utf8(source), at),
    ensures
        is_char_boundary(encode_utf8(source), at),
        is_char_boundary(encode_utf8(source), at + encode_utf8(part).len()),
{
    let bytes = encode_utf8(source);
    let found = encode_utf8(part);
    encode_utf8_valid_utf8(source);
    encode_utf8_valid_utf8(part);
    lemma_encode_empty(part);
    if part.len() > 0 {
        is_char_boundary_start_end_of_seq(found);
        is_char_boundary_iff_not_is_continuation_byte(found, 0);
        assert(bytes.subrange(at, at + found.len())[0] == bytes[at]);
        is_char_boundary_iff_not_is_continuation_byte(bytes, at);
    }
    valid_utf8_split(bytes, at);
    let rest = bytes.subrange(at, bytes.len() as int);
    assert(rest.subrange(0, found.len() as int) =~= found);
    lemma_prefix_ends_on_boundary(rest, found);
    lemma_boundary_shift(bytes, at, found.len() as int);
}

/// Cutting at a later boundary keeps the earlier ones.
proof fn lemma_boundary_in_prefix(bytes: Seq<u8>, start: int, end: int)
    requires
        valid_utf8(bytes),
        0 <= start <= end <= bytes.len(),
        is_char_boundary(bytes, start),
        is_char_boundary(bytes, end),
    ensures
        valid_utf8(bytes.subrange(0, end)),
        is_char_boundary(bytes.subrange(0, end), start),
{
    let prefix = bytes.subrange(0, end);
    valid_utf8_split(bytes, end);
    if start == end {
        is_char_boundary_start_end_of_seq(prefix);
    } else {
        assert(prefix[start] == bytes[start]);
        is_char_boundary_iff_not_is_continuation_byte(bytes, start);
        is_char_boundary_iff_not_is_continuation_byte(prefix, start);
    }
}

/// The number of bytes of `text`.
pub(crate) fn byte_len(text: &str) -> (n: usize)
    ensures
        n == encode_utf8(text@).len(),
{
    text.as_bytes().len()
}

/// The text between two character boundaries of `source`.
pub(crate) fn between<'a>(source: &'a str, start: usize, end: usize) -> (part: &'a str)
    requires
        start <= end <= encode_utf8(source@).len(),
        is_char_boundary(encode_utf8(source@), start as int),
        is_char_boundary(encode_utf8(source@), end as int),
    ensures
        encode_utf8(part@) == encode_utf8(source@).subrange(start as int, end as int),
{
    proof {
        encode_utf8_valid_utf8(source@);
        lemma_boundary_in_prefix(encode_utf8(source@), start as int, end as int);
    }
    let (prefix, _) = source.split_at(end);
    let (_, part) = prefix.split_at(start);
    assert(encode_utf8(part@) =~= encode_utf8(source@).subrange(start as int, end as int));
    part
}

/// Whether `part` stands in `source` at byte offset `at`.
pub(crate) fn stands_at(source: &str, at: usize, part: &str) -> (found: bool)
    ensures
        found == occurs_at(encode_utf8(source@), at as int, encode_utf8(part@)),
{
    let whole = source.as_bytes();
    let wanted = part.as_bytes();
    if at > whole.len() || wanted.len() > whole.len() - at {
        return false;
    }
    let mut i: usize = 0;
    while i < wanted.len()
        invariant
            whole@ == encode_utf8(source@),
            wanted@ == encode_utf8(part@),
            at + wanted.len() <= whole.len(),
            i <= wanted.len(),
            forall|j: int| 0 <= j < i ==> whole@[at + j] == wanted@[j],
        decreases wanted.len() - i,
    {
        if whole[at + i] != wanted[i] {
            assert(whole@.subrange(at as int, at + wanted@.len())[i as int] != wanted@[i as int]);
            return false;
        }
        i = i + 1;
    }
    assert(whole@.subrange(at as int, at + wanted@.len()) =~= wanted@);
    true
}

/// Whether two texts are the same.
pub(crate) fn same_text(a: &str, b: &str) -> (same: bool)
    ensures
        same == (a@ == b@),
{
    let same: bool = byte_len(a) == byte_len(b) && stands_at(a, 0, b);
    proof {
        let whole = encode_utf8(a@);
        assert(whole.subrange(0, whole.len() as int) =~= whole);
        if same {
            lemma_encode_injective(a@, b@);
        }
    }
    same
}

} // verus!
