//! The lines of a text, each with its line feed.

use crate::text::{
    lemma_ascii_byte_boundaries, lemma_ascii_char_has_byte, lemma_char_range,
    lemma_decode_ascii_byte,
};
use vstd::prelude::*;
use vstd::utf8::*;

verus! {

/// The length of the first line of a text: up to and including its first
/// line feed, or all of it where it has none.
pub open spec fn first_line_len(s: Seq<char>) -> int
    decreases s.len(),
{
    if s.len() == 0 {
        0
    } else if s[0] == '\n' {
        1
    } else {
        1 + first_line_len(s.drop_first())
    }
}

/// The first line of a text that is not empty is not empty, and lies
/// within the text.
pub proof fn lemma_first_line_len_bounds(s: Seq<char>)
    requires
        s.len() > 0,
    ensures
        1 <= first_line_len(s) <= s.len(),
    decreases s.len(),
{
    if s[0] != '\n' {
        if s.len() > 1 {
            lemma_first_line_len_bounds(s.drop_first());
        } else {
            assert(first_line_len(s.drop_first()) == 0);
        }
    }
}

/// The lines of a text. Every line keeps its line feed; the last line has
/// none where the text does not end in one.
pub open spec fn lines(s: Seq<char>) -> Seq<Seq<char>>
    decreases s.len(),
{
    if s.len() == 0 {
        Seq::empty()
    } else {
        proof {
            lemma_first_line_len_bounds(s);
        }
        seq![s.take(first_line_len(s))] + lines(s.skip(first_line_len(s)))
    }
}

/// Where the first line ends, given a stretch without line feed that is
/// followed by a line feed or by the end of the text.
proof fn lemma_first_line_found(plain: Seq<char>, rest: Seq<char>)
    requires
        forall|j: int| 0 <= j < plain.len() ==> #[trigger] plain[j] != '\n',
    ensures
        first_line_len(plain) == plain.len(),
        first_line_len(plain + seq!['\n'] + rest) == plain.len() + 1,
    decreases plain.len(),
{
    let whole = plain + seq!['\n'] + rest;
    if plain.len() == 0 {
        assert(whole[0] == '\n');
    } else {
        let tail = plain.drop_first();
        assert forall|j: int| 0 <= j < tail.len() implies #[trigger] tail[j] != '\n' by {
            assert(tail[j] == plain[j + 1]);
        }
        lemma_first_line_found(tail, rest);
        assert(plain[0] != '\n');
        assert(whole[0] == plain[0]);
        assert(whole.drop_first() =~= tail + seq!['\n'] + rest);
    }
}

/// Text whose encoding holds no line feed byte holds no line feed.
proof fn lemma_no_line_feed(bytes: Seq<u8>)
    requires
        valid_utf8(bytes),
        forall|k: int| 0 <= k < bytes.len() ==> #[trigger] bytes[k] != 0x0a,
    ensures
        forall|j: int| 0 <= j < decode_utf8(bytes).len() ==> #[trigger] decode_utf8(bytes)[j] != '\n',
{
    let t = decode_utf8(bytes);
    decode_utf8_encode_utf8(bytes);
    assert forall|j: int| 0 <= j < t.len() implies #[trigger] t[j] != '\n' by {
        if t[j] == '\n' {
            lemma_char_range(t[j]);
            let k = lemma_ascii_char_has_byte(t, j);
            assert(bytes[k] == 0x0a);
        }
    }
}

/// Cuts the first line off a text that is not empty.
pub fn next_line<'a>(text: &'a str) -> (cut: (&'a str, &'a str))
    requires
        text@.len() > 0,
    ensures
        cut.0@ == text@.take(first_line_len(text@)),
        cut.1@ == text@.skip(first_line_len(text@)),
        cut.0@.len() > 0,
        encode_utf8(cut.0@).len() + encode_utf8(cut.1@).len() == encode_utf8(text@).len(),
        encode_utf8(cut.0@).len() > 0,
{
    let bytes = text.as_bytes();
    let n = bytes.len();
    let mut i: usize = 0;
    while i < n && bytes[i] != 0x0a
        invariant
            i <= n,
            n == bytes@.len(),
            forall|k: int| 0 <= k < i ==> #[trigger] bytes@[k] != 0x0a,
        decreases n - i,
    {
        i += 1;
    }
    let split = if i < n {
        i + 1
    } else {
        n
    };
    proof {
        encode_utf8_valid_utf8(text@);
        if i < n {
            lemma_ascii_byte_boundaries(bytes@, i as int);
        } else {
            is_char_boundary_start_end_of_seq(bytes@);
        }
    }
    let (line, rest) = text.split_at(split);
    proof {
        let b = bytes@;
        encode_utf8_decode_utf8(text@);
        encode_utf8_decode_utf8(line@);
        encode_utf8_decode_utf8(rest@);
        decode_utf8_split(b, split as int);
        assert(text@ =~= line@ + rest@);
        if i < n {
            let head = b.subrange(0, split as int);
            valid_utf8_split(b, split as int);
            is_char_boundary_iff_not_is_continuation_byte(head, i as int);
            decode_utf8_split(head, i as int);
            valid_utf8_split(head, i as int);
            assert(head.subrange(i as int, head.len() as int) =~= seq![b[i as int]]);
            lemma_decode_ascii_byte(b[i as int]);
            let plain = decode_utf8(head.subrange(0, i as int));
            lemma_no_line_feed(head.subrange(0, i as int));
            lemma_first_line_found(plain, rest@);
            assert(line@ =~= plain + seq!['\n']);
            assert(text@ =~= plain + seq!['\n'] + rest@);
        } else {
            assert(b.subrange(0, n as int) =~= b);
            lemma_no_line_feed(b);
            lemma_first_line_found(text@, Seq::empty());
            assert(line@ =~= text@);
        }
        assert(text@.take(line@.len() as int) =~= line@);
        assert(text@.skip(line@.len() as int) =~= rest@);
    }
    (line, rest)
}

} // verus!
