//! A scope without content leaves no markup, and where a span has text,
//! the text is not empty.

use crate::escape::lemma_escaped_nonempty;
use crate::nesting::{ends_on_open, lemma_line_begins_with};
use crate::scope::Op;
use crate::spans::{
    advance, apply_op, closes, emit_ops, line_pieces, offset_fits, offsets_fit, opens,
    render_piece, stack_after, token_pieces, Emit, Piece,
};
use crate::text::{lemma_boundary_in_range, lemma_boundary_in_suffix, on_boundary, text_between};
use vstd::prelude::*;
use vstd::utf8::*;

verus! {

/// Whether somewhere among the pieces an opening tag is directly followed
/// by a closing tag: a span without content.
pub open spec fn has_empty_span(pieces: Seq<Piece>) -> bool
    decreases pieces.len(),
{
    pieces.len() >= 2 && (has_empty_span(pieces.drop_last()) || (pieces[pieces.len() - 2] is Open
        && pieces.last() is Close))
}

/// Whether operation `k` is a pop that closes a span which has no content
/// and was not opened by the operation directly in front of the pop. Such
/// a span was opened when the line started, or holds nothing but a scope
/// that left no markup.
pub open spec fn pops_untouched(
    stack: Seq<Seq<Seq<char>>>,
    line: Seq<char>,
    ops: Seq<(int, Op)>,
    k: int,
) -> bool {
    let reached = advance(emit_ops(line, ops.take(k)), line, ops[k].0);
    ops[k].1 is Pop && !reached.fresh && ends_on_open(opens(stack) + reached.pieces)
}

/// Whether one of the pops of `ops` closes an untouched span.
pub open spec fn pops_untouched_span(
    stack: Seq<Seq<Seq<char>>>,
    line: Seq<char>,
    ops: Seq<(int, Op)>,
) -> bool {
    exists|k: int| 0 <= k < ops.len() && #[trigger] pops_untouched(stack, line, ops, k)
}

/// Whether the line ends directly behind the opening tag of a span: the
/// closing tags at the end of the row then close a span without content.
pub open spec fn ends_in_untouched_span(
    stack: Seq<Seq<Seq<char>>>,
    line: Seq<char>,
    ops: Seq<(int, Op)>,
) -> bool {
    stack_after(stack, ops).len() > 0 && ends_on_open(opens(stack) + token_pieces(line, ops))
}

/// Whether every text among the pieces holds at least one character.
pub open spec fn texts_hold_text(pieces: Seq<Piece>) -> bool {
    forall|k: int|
        0 <= k < pieces.len() ==> (#[trigger] pieces[k] matches Piece::Text(text) ==> text.len()
            > 0)
}

/// A scope that is pushed and then popped with no text in between leaves
/// no markup: what is written is what was written in front of the push.
pub proof fn lemma_empty_span_elided(
    line: Seq<char>,
    ops: Seq<(int, Op)>,
    scope: Seq<Seq<char>>,
    push_at: int,
    pop_at: int,
)
    requires
        pop_at <= push_at || pop_at <= emit_ops(line, ops).cursor,
    ensures
        emit_ops(line, ops.push((push_at, Op::Push(scope))).push((pop_at, Op::Pop))) == (Emit {
            fresh: false,
            ..advance(emit_ops(line, ops), line, push_at)
        }),
{
    let pushed = ops.push((push_at, Op::Push(scope)));
    let popped = pushed.push((pop_at, Op::Pop));
    assert(pushed.drop_last() =~= ops);
    assert(popped.drop_last() =~= pushed);
    let a = advance(emit_ops(line, ops), line, push_at);
    assert(emit_ops(line, pushed) == apply_op(a, Op::Push(scope)));
    assert(a.pieces.push(Piece::Open(scope)).drop_last() =~= a.pieces);
}

/// Opening tags alone hold no span without content.
proof fn lemma_opens_hold_no_empty_span(stack: Seq<Seq<Seq<char>>>)
    ensures
        !has_empty_span(opens(stack)),
    decreases stack.len(),
{
    if stack.len() > 0 {
        lemma_opens_hold_no_empty_span(stack.drop_last());
        assert(opens(stack).drop_last() =~= opens(stack.drop_last()));
    }
}

/// Closing tags behind pieces that do not end on an opening tag make no
/// span without content.
proof fn lemma_closes_make_no_empty_span(pieces: Seq<Piece>, n: nat)
    requires
        !has_empty_span(pieces),
        n > 0 ==> !ends_on_open(pieces),
    ensures
        !has_empty_span(pieces + closes(n)),
    decreases n,
{
    if n == 0 {
        assert(pieces + closes(n) =~= pieces);
    } else {
        lemma_closes_make_no_empty_span(pieces, (n - 1) as nat);
        let all = pieces + closes(n);
        assert(all.drop_last() =~= pieces + closes((n - 1) as nat));
        if n == 1 {
            assert(all.drop_last() =~= pieces);
        } else {
            assert(all[all.len() - 2] == closes(n)[n - 2]);
        }
    }
}

/// A span without content stays one when more pieces follow.
proof fn lemma_empty_span_stays(front: Seq<Piece>, back: Seq<Piece>)
    requires
        has_empty_span(front),
    ensures
        has_empty_span(front + back),
    decreases back.len(),
{
    if back.len() == 0 {
        assert(front + back =~= front);
    } else {
        assert((front + back).drop_last() =~= front + back.drop_last());
        lemma_empty_span_stays(front, back.drop_last());
    }
}

/// One operation makes no span without content, unless it is a pop that
/// closes an untouched span.
proof fn lemma_step_without_empty_span(
    head: Seq<Piece>,
    e: Emit,
    line: Seq<char>,
    offset: int,
    op: Op,
)
    requires
        !has_empty_span(head + e.pieces),
        e.fresh ==> e.pieces.len() > 0,
        op is Pop ==> advance(e, line, offset).fresh || !ends_on_open(
            head + advance(e, line, offset).pieces,
        ),
    ensures
        ({
            let n = apply_op(advance(e, line, offset), op);
            &&& !has_empty_span(head + n.pieces)
            &&& n.fresh ==> n.pieces.len() > 0
        }),
{
    let a = advance(e, line, offset);
    let n = apply_op(a, op);
    if offset > e.cursor {
        assert((head + a.pieces).drop_last() =~= head + e.pieces);
    }
    assert(!has_empty_span(head + a.pieces));
    match op {
        Op::Push(scope) => {
            assert((head + n.pieces).drop_last() =~= head + a.pieces);
        },
        Op::Pop => {
            if a.fresh {
                assert((head + a.pieces).drop_last() =~= head + n.pieces);
            } else {
                assert((head + n.pieces).drop_last() =~= head + a.pieces);
                if (head + a.pieces).len() > 0 {
                    assert((head + n.pieces)[(head + n.pieces).len() - 2] == (head
                        + a.pieces).last());
                }
            }
        },
    }
}

/// Where no pop of the operations closes an untouched span, none of all
/// but the last does, nor does the last.
proof fn lemma_pops_touch_prefix(
    stack: Seq<Seq<Seq<char>>>,
    line: Seq<char>,
    ops: Seq<(int, Op)>,
)
    requires
        !pops_untouched_span(stack, line, ops),
        ops.len() > 0,
    ensures
        !pops_untouched_span(stack, line, ops.drop_last()),
        ops.last().1 is Pop ==> advance(
            emit_ops(line, ops.drop_last()),
            line,
            ops.last().0,
        ).fresh || !ends_on_open(
            opens(stack) + advance(emit_ops(line, ops.drop_last()), line, ops.last().0).pieces,
        ),
{
    let before = ops.drop_last();
    let last = ops.len() - 1;
    if pops_untouched_span(stack, line, before) {
        let k = choose|k: int|
            0 <= k < before.len() && #[trigger] pops_untouched(stack, line, before, k);
        assert(before[k] == ops[k]);
        assert(before.take(k) =~= ops.take(k));
        assert(pops_untouched(stack, line, ops, k));
        assert(false);
    }
    assert(!pops_untouched(stack, line, ops, last));
    assert(ops.take(last) =~= before);
}

/// The pieces written up to any of a line's operations hold no span
/// without content, unless a pop closed an untouched span.
proof fn lemma_emitted_without_empty_span(
    stack: Seq<Seq<Seq<char>>>,
    line: Seq<char>,
    ops: Seq<(int, Op)>,
)
    requires
        !pops_untouched_span(stack, line, ops),
    ensures
        !has_empty_span(opens(stack) + emit_ops(line, ops).pieces),
        emit_ops(line, ops).fresh ==> emit_ops(line, ops).pieces.len() > 0,
    decreases ops.len(),
{
    let head = opens(stack);
    if ops.len() == 0 {
        lemma_opens_hold_no_empty_span(stack);
        assert(head + emit_ops(line, ops).pieces =~= head);
    } else {
        lemma_pops_touch_prefix(stack, line, ops);
        lemma_emitted_without_empty_span(stack, line, ops.drop_last());
        lemma_step_without_empty_span(
            head,
            emit_ops(line, ops.drop_last()),
            line,
            ops.last().0,
            ops.last().1,
        );
    }
}

/// Where no span is closed that was left untouched, no span of the line
/// is without content.
proof fn lemma_touched_spans_hold_content(
    stack: Seq<Seq<Seq<char>>>,
    line: Seq<char>,
    ops: Seq<(int, Op)>,
)
    requires
        !pops_untouched_span(stack, line, ops),
        !ends_in_untouched_span(stack, line, ops),
    ensures
        !has_empty_span(line_pieces(stack, line, ops)),
{
    lemma_emitted_without_empty_span(stack, line, ops);
    let head = opens(stack);
    let e = emit_ops(line, ops);
    let body = token_pieces(line, ops);
    if body.len() > e.pieces.len() {
        assert((head + body).drop_last() =~= head + e.pieces);
    }
    lemma_closes_make_no_empty_span(head + body, stack_after(stack, ops).len());
}

/// A span of a highlighted line is without content wherever a span is
/// closed that was left untouched, by a pop or by the end of the line.
proof fn lemma_untouched_span_is_empty(
    stack: Seq<Seq<Seq<char>>>,
    line: Seq<char>,
    ops: Seq<(int, Op)>,
)
    requires
        pops_untouched_span(stack, line, ops) || ends_in_untouched_span(stack, line, ops),
    ensures
        has_empty_span(line_pieces(stack, line, ops)),
{
    let head = opens(stack);
    if pops_untouched_span(stack, line, ops) {
        let k = choose|k: int| 0 <= k < ops.len() && #[trigger] pops_untouched(stack, line, ops, k);
        let a = advance(emit_ops(line, ops.take(k)), line, ops[k].0);
        assert(ops.take(k + 1).drop_last() =~= ops.take(k));
        let n = emit_ops(line, ops.take(k + 1));
        assert(n == apply_op(a, Op::Pop));
        let written = head + n.pieces;
        assert(written.drop_last() =~= head + a.pieces);
        assert(written[written.len() - 2] == (head + a.pieces).last());
        assert(has_empty_span(written));
        let back = lemma_line_begins_with(stack, line, ops, k + 1);
        lemma_empty_span_stays(written, back);
    } else {
        let written = head + token_pieces(line, ops);
        let n = stack_after(stack, ops).len();
        let first = written.push(Piece::Close);
        assert(first.drop_last() =~= written);
        assert(first[first.len() - 2] == written.last());
        assert(has_empty_span(first));
        assert(closes(n) =~= seq![Piece::Close] + closes((n - 1) as nat));
        assert(line_pieces(stack, line, ops) =~= first + closes((n - 1) as nat));
        lemma_empty_span_stays(first, closes((n - 1) as nat));
    }
}

/// No span of a highlighted line is without content: no opening tag in the
/// line's cell is directly followed by a closing tag. This holds of every
/// line in which no span is closed that was left untouched, by a pop or by
/// the end of the line, and of no other.
pub proof fn lemma_line_without_empty_span(
    stack: Seq<Seq<Seq<char>>>,
    line: Seq<char>,
    ops: Seq<(int, Op)>,
)
    ensures
        !has_empty_span(line_pieces(stack, line, ops)) <==> !pops_untouched_span(stack, line, ops)
            && !ends_in_untouched_span(stack, line, ops),
{
    if pops_untouched_span(stack, line, ops) || ends_in_untouched_span(stack, line, ops) {
        lemma_untouched_span_is_empty(stack, line, ops);
    } else {
        lemma_touched_spans_hold_content(stack, line, ops);
    }
}

/// A text that holds a character is written as at least one character, so
/// that a span around it has content.
pub proof fn lemma_text_is_written(text: Seq<char>, prefix: Seq<char>)
    requires
        text.len() > 0,
    ensures
        render_piece(Piece::Text(text), prefix).len() > 0,
{
    lemma_escaped_nonempty(text);
}

/// The text between two different character boundaries holds a character.
proof fn lemma_text_between_boundaries(line: Seq<char>, from: int, to: int)
    requires
        on_boundary(line, from),
        on_boundary(line, to),
        from < to,
    ensures
        text_between(line, from, to).len() > 0,
{
    let bytes = encode_utf8(line);
    encode_utf8_valid_utf8(line);
    lemma_boundary_in_range(bytes, from);
    lemma_boundary_in_range(bytes, to);
    lemma_boundary_in_suffix(bytes, from, to);
    let suffix = bytes.subrange(from, bytes.len() as int);
    valid_utf8_split(suffix, to - from);
    assert(suffix.subrange(0, to - from) =~= bytes.subrange(from, to));
}

/// The texts written for a line up to any of its operations hold text, and
/// the text is written up to a character boundary.
proof fn lemma_emitted_texts(line: Seq<char>, ops: Seq<(int, Op)>)
    requires
        offsets_fit(line, ops),
    ensures
        texts_hold_text(emit_ops(line, ops).pieces),
        on_boundary(line, emit_ops(line, ops).cursor),
    decreases ops.len(),
{
    if ops.len() == 0 {
        encode_utf8_valid_utf8(line);
    } else {
        let before = ops.drop_last();
        let last = ops.len() - 1;
        assert forall|k: int| 0 <= k < before.len() implies #[trigger] offset_fits(
            line,
            before,
            k,
        ) by {
            assert(offset_fits(line, ops, k));
            assert(before[k] == ops[k]);
            assert(before.take(k) =~= ops.take(k));
        }
        lemma_emitted_texts(line, before);
        let e = emit_ops(line, before);
        assert(offset_fits(line, ops, last));
        assert(ops.take(last) =~= before);
        assert(ops[last] == ops.last());
        if ops.last().0 > e.cursor {
            lemma_text_between_boundaries(line, e.cursor, ops.last().0);
        }
    }
}

/// The texts among the pieces of a highlighted line hold text: where an
/// opening tag is not directly followed by a closing tag, the span has
/// content.
pub proof fn lemma_line_texts_hold_text(
    stack: Seq<Seq<Seq<char>>>,
    line: Seq<char>,
    ops: Seq<(int, Op)>,
)
    requires
        offsets_fit(line, ops),
    ensures
        texts_hold_text(line_pieces(stack, line, ops)),
{
    lemma_emitted_texts(line, ops);
    let e = emit_ops(line, ops);
    let end = encode_utf8(line).len() as int;
    if e.cursor < end {
        encode_utf8_valid_utf8(line);
        is_char_boundary_start_end_of_seq(encode_utf8(line));
        lemma_text_between_boundaries(line, e.cursor, end);
    }
}

} // verus!
