//! Facts about UTF-8 text that the rest of the crate relies on.
//!
//! Strings are viewed as sequences of characters, while offsets into a line
//! count bytes of its UTF-8 encoding. The lemmas here connect the two.

use vstd::prelude::*;
use vstd::utf8::*;

verus! {

/// The characters encoded by the bytes `from..to` of the UTF-8 encoding of `s`.
pub open spec fn text_between(s: Seq<char>, from: int, to: int) -> Seq<char> {
    decode_utf8(encode_utf8(s).subrange(from, to))
}

/// Whether `at` is a byte offset into the UTF-8 encoding of `s` at which a
/// character starts or the text ends.
pub open spec fn on_boundary(s: Seq<char>, at: int) -> bool {
    is_char_boundary(encode_utf8(s), at)
}

/// Encoding distributes over concatenation.
pub proof fn lemma_encode_concat(a: Seq<char>, b: Seq<char>)
    ensures
        encode_utf8(a + b) == encode_utf8(a) + encode_utf8(b),
    decreases a.len(),
{
    if a.len() == 0 {
        assert(a + b =~= b);
        assert(encode_utf8(a) + encode_utf8(b) =~= encode_utf8(b));
    } else {
        lemma_encode_concat(a.drop_first(), b);
        assert((a + b).drop_first() =~= a.drop_first() + b);
        assert((a + b)[0] == a[0]);
        assert(encode_utf8(a + b) =~= encode_utf8(a) + encode_utf8(b));
    }
}

/// Two texts with the same encoding are the same text.
pub proof fn lemma_encode_injective(a: Seq<char>, b: Seq<char>)
    requires
        encode_utf8(a) == encode_utf8(b),
    ensures
        a == b,
{
    encode_utf8_decode_utf8(a);
    encode_utf8_decode_utf8(b);
}

/// The seam between two valid encodings is a character boundary.
pub proof fn lemma_boundary_at_seam(p: Seq<u8>, q: Seq<u8>)
    requires
        valid_utf8(p),
        valid_utf8(q),
    ensures
        valid_utf8(p + q),
        is_char_boundary(p + q, p.len() as int),
{
    valid_utf8_concat(p, q);
    if q.len() == 0 {
        assert(p + q =~= p);
        is_char_boundary_start_end_of_seq(p);
    } else {
        assert((p + q)[p.len() as int] == q[0]);
        assert(!is_continuation_byte(q[0]));
        is_char_boundary_iff_not_is_continuation_byte(p + q, p.len() as int);
    }
}

/// A character boundary lies within the encoding.
pub proof fn lemma_boundary_in_range(bytes: Seq<u8>, at: int)
    requires
        valid_utf8(bytes),
        is_char_boundary(bytes, at),
    ensures
        0 <= at <= bytes.len(),
    decreases bytes.len(),
{
    if at != 0 {
        lemma_boundary_in_range(pop_first_scalar(bytes), at - length_of_first_scalar(bytes));
    }
}

/// A boundary of the whole text is a boundary of any prefix that ends at a
/// later boundary.
pub proof fn lemma_boundary_in_prefix(bytes: Seq<u8>, at: int, end: int)
    requires
        valid_utf8(bytes),
        is_char_boundary(bytes, at),
        is_char_boundary(bytes, end),
        at <= end,
    ensures
        valid_utf8(bytes.subrange(0, end)),
        is_char_boundary(bytes.subrange(0, end), at),
{
    lemma_boundary_in_range(bytes, at);
    lemma_boundary_in_range(bytes, end);
    valid_utf8_split(bytes, end);
    let prefix = bytes.subrange(0, end);
    if at == end {
        is_char_boundary_start_end_of_seq(prefix);
    } else {
        is_char_boundary_iff_not_is_continuation_byte(bytes, at);
        assert(prefix[at] == bytes[at]);
        is_char_boundary_iff_not_is_continuation_byte(prefix, at);
    }
}

/// A boundary of the whole text is a boundary of any suffix that starts at
/// an earlier boundary.
pub proof fn lemma_boundary_in_suffix(bytes: Seq<u8>, start: int, at: int)
    requires
        valid_utf8(bytes),
        is_char_boundary(bytes, start),
        is_char_boundary(bytes, at),
        start <= at,
    ensures
        valid_utf8(bytes.subrange(start, bytes.len() as int)),
        is_char_boundary(bytes.subrange(start, bytes.len() as int), at - start),
{
    lemma_boundary_in_range(bytes, start);
    lemma_boundary_in_range(bytes, at);
    valid_utf8_split(bytes, start);
    let suffix = bytes.subrange(start, bytes.len() as int);
    if at == bytes.len() {
        is_char_boundary_start_end_of_seq(suffix);
    } else if at > start {
        is_char_boundary_iff_not_is_continuation_byte(bytes, at);
        assert(suffix[at - start] == bytes[at]);
        is_char_boundary_iff_not_is_continuation_byte(suffix, at - start);
    }
}

/// An ASCII byte is a whole character: boundaries lie before and after it.
pub proof fn lemma_ascii_byte_boundaries(bytes: Seq<u8>, at: int)
    requires
        valid_utf8(bytes),
        0 <= at < bytes.len(),
        bytes[at] <= 0x7f,
    ensures
        is_char_boundary(bytes, at),
        is_char_boundary(bytes, at + 1),
{
    is_char_boundary_iff_not_is_continuation_byte(bytes, at);
    if at + 1 == bytes.len() {
        is_char_boundary_start_end_of_seq(bytes);
    } else {
        valid_utf8_split(bytes, at);
        let suffix = bytes.subrange(at, bytes.len() as int);
        assert(suffix[0] == bytes[at]);
        let rest = pop_first_scalar(suffix);
        assert(valid_utf8(suffix));
        assert(valid_utf8(rest));
        assert(rest.len() > 0);
        assert(rest[0] == bytes[at + 1]);
        assert(valid_first_scalar(rest));
        is_char_boundary_iff_not_is_continuation_byte(bytes, at + 1);
    }
}

/// A single ASCII byte decodes to the character with the same number.
pub proof fn lemma_decode_ascii_byte(b: u8)
    requires
        b <= 0x7f,
    ensures
        valid_utf8(seq![b]),
        decode_utf8(seq![b]) == seq![b as char],
{
    let bytes = seq![b];
    assert(bytes[0] == b);
    assert(pop_first_scalar(bytes) =~= Seq::<u8>::empty());
    assert(valid_utf8(pop_first_scalar(bytes)));
    assert(valid_first_scalar(bytes));
    assert(valid_utf8(bytes));
    assert(codepoint_width_1(b) == b as u32) by (bit_vector)
        requires
            b <= 0x7f,
    ;
    assert(decode_utf8(pop_first_scalar(bytes)) =~= Seq::<char>::empty());
    assert(decode_utf8(bytes) =~= seq![b as char]);
}

/// A character is a number below `0x110000`, which a cast to `u32` keeps.
pub proof fn lemma_char_range(c: char)
    ensures
        0 <= c as int <= 0x10ffff,
        (c as u32) as int == c as int,
{
}

/// An ASCII character occupies one byte of the encoding, holding its number.
pub proof fn lemma_ascii_char_has_byte(s: Seq<char>, j: int) -> (k: int)
    requires
        0 <= j < s.len(),
        s[j] <= '\u{7f}',
    ensures
        0 <= k < encode_utf8(s).len(),
        encode_utf8(s)[k] == s[j] as u8,
    decreases j,
{
    lemma_char_range(s[0]);
    let head = encode_scalar(s[0] as u32);
    let tail = encode_utf8(s.drop_first());
    assert(encode_utf8(s) == head + tail);
    if j == 0 {
        let c = s[0] as u32;
        assert(c as u8 == leading_byte_width_1(c)) by (bit_vector)
            requires
                c <= 0x7f,
        ;
        assert(head[0] == c as u8);
        assert((head + tail)[0] == head[0]);
        assert(c as u8 == s[0] as u8);
        0
    } else {
        let k = lemma_ascii_char_has_byte(s.drop_first(), j - 1);
        assert(s.drop_first()[j - 1] == s[j]);
        assert((head + tail)[head.len() + k] == tail[k]);
        assert(tail[k] == s[j] as u8);
        head.len() + k
    }
}

} // verus!
