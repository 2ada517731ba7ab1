//! HTML escaping of text that goes between tags.

use crate::text::{
    lemma_ascii_byte_boundaries, lemma_ascii_char_has_byte, lemma_boundary_in_prefix,
    lemma_boundary_in_range, lemma_boundary_in_suffix, lemma_char_range,
    lemma_decode_ascii_byte,
};
use vstd::prelude::*;
use vstd::string::*;
use vstd::utf8::*;

verus! {

/// The five characters that HTML text must not hold literally.
pub open spec fn is_special(c: char) -> bool {
    c == '<' || c == '>' || c == '&' || c == '\'' || c == '"'
}

/// What stands for one character in escaped text: the named entity of a
/// special character, and any other character itself.
pub open spec fn entity(c: char) -> Seq<char> {
    if c == '<' {
        seq!['&', 'l', 't', ';']
    } else if c == '>' {
        seq!['&', 'g', 't', ';']
    } else if c == '&' {
        seq!['&', 'a', 'm', 'p', ';']
    } else if c == '\'' {
        seq!['&', '#', '3', '9', ';']
    } else if c == '"' {
        seq!['&', 'q', 'u', 'o', 't', ';']
    } else {
        seq![c]
    }
}

/// The escaped form of a text: every character replaced by what stands for it.
pub open spec fn escaped(s: Seq<char>) -> Seq<char>
    decreases s.len(),
{
    if s.len() == 0 {
        Seq::empty()
    } else {
        entity(s[0]) + escaped(s.drop_first())
    }
}

/// Whether `s` begins with `prefix`.
pub open spec fn starts_with(s: Seq<char>, prefix: Seq<char>) -> bool {
    prefix.len() <= s.len() && s.subrange(0, prefix.len() as int) == prefix
}

/// Whether one of the five entities is written in `s` from index `at` on.
pub open spec fn entity_at(s: Seq<char>, at: int) -> bool {
    0 <= at <= s.len() && exists|c: char| is_special(c) && #[trigger] starts_with(s.skip(at), entity(c))
}

/// Reads escaped text back: each entity becomes its character, and every
/// other character stays.
pub open spec fn unescaped(s: Seq<char>) -> Seq<char>
    decreases s.len(),
{
    if s.len() == 0 {
        Seq::empty()
    } else if starts_with(s, entity('<')) {
        seq!['<'] + unescaped(s.skip(4))
    } else if starts_with(s, entity('>')) {
        seq!['>'] + unescaped(s.skip(4))
    } else if starts_with(s, entity('&')) {
        seq!['&'] + unescaped(s.skip(5))
    } else if starts_with(s, entity('\'')) {
        seq!['\''] + unescaped(s.skip(5))
    } else if starts_with(s, entity('"')) {
        seq!['"'] + unescaped(s.skip(6))
    } else {
        seq![s[0]] + unescaped(s.drop_first())
    }
}

/// Escaping distributes over concatenation.
pub proof fn lemma_escaped_concat(a: Seq<char>, b: Seq<char>)
    ensures
        escaped(a + b) == escaped(a) + escaped(b),
    decreases a.len(),
{
    if a.len() == 0 {
        assert(a + b =~= b);
        assert(escaped(a) + escaped(b) =~= escaped(b));
    } else {
        lemma_escaped_concat(a.drop_first(), b);
        assert((a + b).drop_first() =~= a.drop_first() + b);
        assert(escaped(a + b) =~= escaped(a) + escaped(b));
    }
}

/// Text without special characters is its own escaped form.
pub proof fn lemma_escaped_plain(s: Seq<char>)
    requires
        forall|j: int| 0 <= j < s.len() ==> !is_special(#[trigger] s[j]),
    ensures
        escaped(s) == s,
    decreases s.len(),
{
    if s.len() > 0 {
        let rest = s.drop_first();
        assert forall|j: int| 0 <= j < rest.len() implies !is_special(#[trigger] rest[j]) by {
            assert(rest[j] == s[j + 1]);
        }
        lemma_escaped_plain(rest);
        assert(!is_special(s[0]));
        assert(seq![s[0]] + rest =~= s);
    }
}

/// Escaped text is never empty unless the text is.
pub proof fn lemma_escaped_nonempty(s: Seq<char>)
    requires
        s.len() > 0,
    ensures
        escaped(s).len() > 0,
{
}

/// Escaped text is safe between tags: none of `<`, `>`, `'` and `"` occurs
/// in it, and every `&` in it begins one of the five entities.
pub proof fn lemma_escaped_is_safe(s: Seq<char>, at: int)
    requires
        0 <= at < escaped(s).len(),
    ensures
        escaped(s)[at] != '<',
        escaped(s)[at] != '>',
        escaped(s)[at] != '\'',
        escaped(s)[at] != '"',
        escaped(s)[at] == '&' ==> entity_at(escaped(s), at),
    decreases s.len(),
{
    let head = entity(s[0]);
    let tail = escaped(s.drop_first());
    let out = escaped(s);
    assert(out == head + tail);
    if at < head.len() {
        assert(out[at] == head[at]);
        if out[at] == '&' {
            assert(at == 0 && is_special(s[0]));
            assert(out.skip(0) =~= out);
            assert(out.subrange(0, head.len() as int) =~= head);
            assert(starts_with(out.skip(at), entity(s[0])));
        }
    } else {
        let inner = at - head.len();
        lemma_escaped_is_safe(s.drop_first(), inner);
        assert(out[at] == tail[inner]);
        if out[at] == '&' {
            let c = choose|c: char|
                is_special(c) && #[trigger] starts_with(tail.skip(inner), entity(c));
            assert(out.skip(at) =~= tail.skip(inner));
            assert(starts_with(out.skip(at), entity(c)));
        }
    }
}

/// Reading escaped text back gives the text that was escaped.
pub proof fn lemma_unescape_round_trip(s: Seq<char>)
    ensures
        unescaped(escaped(s)) == s,
    decreases s.len(),
{
    if s.len() > 0 {
        let c = s[0];
        let head = entity(c);
        let tail = escaped(s.drop_first());
        let out = escaped(s);
        lemma_unescape_round_trip(s.drop_first());
        assert(out == head + tail);
        assert(out.subrange(0, head.len() as int) =~= head);
        assert(out.skip(head.len() as int) =~= tail);
        assert(out.drop_first() =~= out.skip(1));
        assert(seq![c] + s.drop_first() =~= s);
        assert(out[0] == head[0]);
        if is_special(c) {
            assert(out[1] == head[1]);
            assert(out[2] == head[2]);
            if c != '<' {
                assert(out.subrange(0, 4)[1] == out[1]);
            }
            if c != '<' && c != '>' {
                assert(out.subrange(0, 5)[1] == out[1]);
            }
        } else {
            if out.len() >= 4 {
                assert(out.subrange(0, 4)[0] == out[0]);
            }
            if out.len() >= 5 {
                assert(out.subrange(0, 5)[0] == out[0]);
            }
            if out.len() >= 6 {
                assert(out.subrange(0, 6)[0] == out[0]);
            }
        }
    }
}

/// Whether a byte encodes one of the special characters.
pub open spec fn is_special_byte(b: u8) -> bool {
    b == 0x3c || b == 0x3e || b == 0x26 || b == 0x27 || b == 0x22
}

/// Text whose encoding holds no special byte is its own escaped form.
proof fn lemma_plain_run(bytes: Seq<u8>)
    requires
        valid_utf8(bytes),
        forall|k: int| 0 <= k < bytes.len() ==> !is_special_byte(#[trigger] bytes[k]),
    ensures
        escaped(decode_utf8(bytes)) == decode_utf8(bytes),
{
    let t = decode_utf8(bytes);
    decode_utf8_encode_utf8(bytes);
    assert forall|j: int| 0 <= j < t.len() implies !is_special(#[trigger] t[j]) by {
        if is_special(t[j]) {
            lemma_char_range(t[j]);
            let k = lemma_ascii_char_has_byte(t, j);
            assert(is_special_byte(bytes[k]));
        }
    }
    lemma_escaped_plain(t);
}

/// Escaping up to and including a special byte: what was escaped before,
/// then the run of plain text in front of the byte, then its entity.
proof fn lemma_escaped_through_special(bytes: Seq<u8>, last: int, at: int)
    requires
        valid_utf8(bytes),
        0 <= last <= at < bytes.len(),
        is_char_boundary(bytes, last),
        is_special_byte(bytes[at]),
        forall|k: int| last <= k < at ==> !is_special_byte(#[trigger] bytes[k]),
    ensures
        is_char_boundary(bytes, at),
        is_char_boundary(bytes, at + 1),
        valid_utf8(bytes.subrange(last, at)),
        escaped(decode_utf8(bytes.subrange(0, at + 1))) == escaped(
            decode_utf8(bytes.subrange(0, last)),
        ) + decode_utf8(bytes.subrange(last, at)) + entity(bytes[at] as char),
{
    lemma_ascii_byte_boundaries(bytes, at);
    let upto = bytes.subrange(0, at + 1);
    let before = bytes.subrange(0, at);
    let done = bytes.subrange(0, last);
    let run = bytes.subrange(last, at);
    let one = seq![bytes[at]];
    // split off the special byte
    lemma_boundary_in_prefix(bytes, at, at + 1);
    decode_utf8_split(upto, at);
    assert(upto.subrange(0, at) =~= before);
    assert(upto.subrange(at, upto.len() as int) =~= one);
    lemma_decode_ascii_byte(bytes[at]);
    // split the text in front of it into what was done and the plain run
    lemma_boundary_in_prefix(bytes, last, at);
    decode_utf8_split(before, last);
    assert(before.subrange(0, last) =~= done);
    assert(before.subrange(last, before.len() as int) =~= run);
    valid_utf8_split(before, last);
    lemma_plain_run(run);
    let c = bytes[at] as char;
    assert(escaped(seq![c]) =~= entity(c)) by {
        let single = seq![c];
        assert(single.len() == 1 && single[0] == c);
        assert(single.drop_first() =~= Seq::<char>::empty());
        assert(escaped(single.drop_first()) =~= Seq::<char>::empty());
        assert(escaped(single) == entity(c) + escaped(single.drop_first()));
    }
    lemma_escaped_concat(decode_utf8(before), seq![c]);
    lemma_escaped_concat(decode_utf8(done), decode_utf8(run));
}

/// Escaping the whole text once only plain text is left after `last`.
proof fn lemma_escaped_with_plain_tail(bytes: Seq<u8>, last: int)
    requires
        valid_utf8(bytes),
        is_char_boundary(bytes, last),
        forall|k: int| last <= k < bytes.len() ==> !is_special_byte(#[trigger] bytes[k]),
    ensures
        0 <= last <= bytes.len(),
        escaped(decode_utf8(bytes)) == escaped(decode_utf8(bytes.subrange(0, last)))
            + decode_utf8(bytes.subrange(last, bytes.len() as int)),
{
    lemma_boundary_in_range(bytes, last);
    let done = bytes.subrange(0, last);
    let run = bytes.subrange(last, bytes.len() as int);
    decode_utf8_split(bytes, last);
    valid_utf8_split(bytes, last);
    lemma_plain_run(run);
    lemma_escaped_concat(decode_utf8(done), decode_utf8(run));
}

/// A text to be written in escaped form.
pub struct Escape<'a>(pub &'a str);

/// The entity that stands for a special byte.
fn entity_of(b: u8) -> (ent: &'static str)
    requires
        is_special_byte(b),
    ensures
        ent@ == entity(b as char),
{
    proof {
        reveal_strlit("&gt;");
        reveal_strlit("&lt;");
        reveal_strlit("&amp;");
        reveal_strlit("&#39;");
        reveal_strlit("&quot;");
    }
    if b == 0x3e {
        "&gt;"
    } else if b == 0x3c {
        "&lt;"
    } else if b == 0x26 {
        "&amp;"
    } else if b == 0x27 {
        "&#39;"
    } else {
        "&quot;"
    }
}

impl<'a> Escape<'a> {
    /// Appends the escaped form of the text to `out`.
    ///
    /// Scans the bytes of the text and copies each longest run without a
    /// special character as a whole; only the special characters themselves
    /// are replaced.
    pub fn fmt(&self, out: &mut String)
        ensures
            final(out)@ == old(out)@ + escaped(self.0@),
    {
        let s = self.0;
        let bytes = s.as_bytes();
        let n = bytes.len();
        let mut rest: &str = s;
        let mut last: usize = 0;
        let mut i: usize = 0;
        proof {
            encode_utf8_valid_utf8(s@);
            assert(bytes@.subrange(0, n as int) =~= bytes@);
            assert(bytes@.subrange(0, 0) =~= Seq::<u8>::empty());
            assert(old(out)@ + escaped(Seq::<char>::empty()) =~= old(out)@);
        }
        while i < n
            invariant
                bytes@ == encode_utf8(s@),
                valid_utf8(bytes@),
                n == bytes@.len(),
                last <= i <= n,
                is_char_boundary(bytes@, last as int),
                rest.spec_bytes() == bytes@.subrange(last as int, n as int),
                out@ == old(out)@ + escaped(decode_utf8(bytes@.subrange(0, last as int))),
                forall|k: int| last <= k < i ==> !is_special_byte(#[trigger] bytes@[k]),
            decreases n - i,
        {
            let b = bytes[i];
            if b == 0x3c || b == 0x3e || b == 0x26 || b == 0x27 || b == 0x22 {
                proof {
                    lemma_escaped_through_special(bytes@, last as int, i as int);
                    lemma_boundary_in_suffix(bytes@, last as int, i as int);
                    lemma_boundary_in_suffix(bytes@, i as int, i + 1);
                }
                let (run, tail) = rest.split_at(i - last);
                assert(tail.spec_bytes() =~= bytes@.subrange(i as int, n as int));
                let (_, after) = tail.split_at(1);
                proof {
                    assert(run.spec_bytes() =~= bytes@.subrange(last as int, i as int));
                    encode_utf8_decode_utf8(run@);
                    assert(after.spec_bytes() =~= bytes@.subrange(i + 1, n as int));
                }
                out.append(run);
                out.append(entity_of(b));
                rest = after;
                last = i + 1;
            }
            i += 1;
        }
        proof {
            lemma_escaped_with_plain_tail(bytes@, last as int);
            encode_utf8_decode_utf8(s@);
            encode_utf8_decode_utf8(rest@);
        }
        if last < n {
            out.append(rest);
        } else {
            proof {
                assert(bytes@.subrange(last as int, n as int) =~= Seq::<u8>::empty());
                assert(out@ + Seq::<char>::empty() =~= out@);
            }
        }
    }

    /// The escaped form of the text.
    pub fn to_string(&self) -> (out: String)
        ensures
            out@ == escaped(self.0@),
    {
        let mut out = String::new();
        self.fmt(&mut out);
        assert(Seq::<char>::empty() + escaped(self.0@) =~= escaped(self.0@));
        out
    }
}

} // verus!
