//! The spans of a line are well nested.

use crate::scope::Op;
use crate::spans::{
    advance, apply_op, closes, emit_ops, line_pieces, opens, stack_after, token_pieces, Emit,
    Piece,
};
use crate::text::text_between;
use vstd::prelude::*;

verus! {

/// By how much a piece changes the number of open spans.
pub open spec fn step(piece: Piece) -> int {
    match piece {
        Piece::Open(_) => 1,
        Piece::Close => -1,
        Piece::Text(_) => 0,
    }
}

/// How many spans are open behind the given pieces, where none was open in
/// front of them: the opening tags less the closing tags.
pub open spec fn depth(pieces: Seq<Piece>) -> int
    decreases pieces.len(),
{
    if pieces.len() == 0 {
        0
    } else {
        depth(pieces.drop_last()) + step(pieces.last())
    }
}

/// Whether no closing tag among the pieces comes without an open span to
/// close.
pub open spec fn closes_open_spans(pieces: Seq<Piece>) -> bool
    decreases pieces.len(),
{
    pieces.len() > 0 ==> closes_open_spans(pieces.drop_last()) && depth(pieces) >= 0
}

/// Whether the pieces form well nested markup: read from left to right
/// with a stack of open spans, every closing tag finds a span to close, and
/// no span is left open at the end.
pub open spec fn well_nested(pieces: Seq<Piece>) -> bool {
    closes_open_spans(pieces) && depth(pieces) == 0
}

/// Whether operation `k` finds a scope open if it is a pop.
pub open spec fn pop_fits(stack: Seq<Seq<Seq<char>>>, ops: Seq<(int, Op)>, k: int) -> bool {
    ops[k].1 is Pop ==> stack_after(stack, ops.take(k)).len() > 0
}

/// Whether no operation pops a scope while none is open.
pub open spec fn pops_fit(stack: Seq<Seq<Seq<char>>>, ops: Seq<(int, Op)>) -> bool {
    forall|k: int| 0 <= k < ops.len() ==> #[trigger] pop_fits(stack, ops, k)
}

/// Whether the last of the pieces is an opening tag.
pub open spec fn ends_on_open(pieces: Seq<Piece>) -> bool {
    pieces.len() > 0 && pieces.last() is Open
}

/// One more piece behind pieces whose closing tags all find an open span.
proof fn lemma_nested_push(pieces: Seq<Piece>, piece: Piece)
    requires
        closes_open_spans(pieces),
        depth(pieces) + step(piece) >= 0,
    ensures
        closes_open_spans(pieces.push(piece)),
        depth(pieces.push(piece)) == depth(pieces) + step(piece),
        depth(pieces) >= 0,
{
    assert(pieces.push(piece).drop_last() =~= pieces);
}

/// Where every closing tag finds an open span, it does so in what the
/// pieces begin with.
proof fn lemma_nested_prefix(front: Seq<Piece>, back: Seq<Piece>)
    requires
        closes_open_spans(front + back),
    ensures
        closes_open_spans(front),
    decreases back.len(),
{
    if back.len() == 0 {
        assert(front + back =~= front);
    } else {
        assert((front + back).drop_last() =~= front + back.drop_last());
        lemma_nested_prefix(front, back.drop_last());
    }
}

/// The opening tags of a stack are as many open spans as it has scopes.
proof fn lemma_opens_nested(stack: Seq<Seq<Seq<char>>>)
    ensures
        closes_open_spans(opens(stack)),
        depth(opens(stack)) == stack.len(),
    decreases stack.len(),
{
    if stack.len() > 0 {
        lemma_opens_nested(stack.drop_last());
        assert(opens(stack).drop_last() =~= opens(stack.drop_last()));
    }
}

/// Closing as many spans as are open leaves well nested markup.
proof fn lemma_closes_nested(pieces: Seq<Piece>, n: nat)
    requires
        closes_open_spans(pieces),
        n <= depth(pieces),
    ensures
        closes_open_spans(pieces + closes(n)),
        depth(pieces + closes(n)) == depth(pieces) - n,
    decreases n,
{
    if n == 0 {
        assert(pieces + closes(n) =~= pieces);
    } else {
        lemma_closes_nested(pieces, (n - 1) as nat);
        assert((pieces + closes(n)).drop_last() =~= pieces + closes((n - 1) as nat));
    }
}

/// One operation keeps the spans as deep as the stack is high.
proof fn lemma_step_nested(head: Seq<Piece>, e: Emit, line: Seq<char>, offset: int, op: Op)
    requires
        closes_open_spans(head + e.pieces),
        e.fresh ==> ends_on_open(e.pieces),
        op is Pop ==> depth(head + e.pieces) > 0,
    ensures
        ({
            let n = apply_op(advance(e, line, offset), op);
            &&& closes_open_spans(head + n.pieces)
            &&& depth(head + n.pieces) == depth(head + e.pieces) + (if op is Push {
                1int
            } else {
                -1int
            })
            &&& n.fresh ==> ends_on_open(n.pieces)
        }),
{
    let a = advance(e, line, offset);
    let n = apply_op(a, op);
    if offset > e.cursor {
        let text = Piece::Text(text_between(line, e.cursor, offset));
        lemma_nested_push(head + e.pieces, text);
        assert(head + a.pieces =~= (head + e.pieces).push(text));
    }
    assert(closes_open_spans(head + a.pieces));
    assert(depth(head + a.pieces) == depth(head + e.pieces));
    match op {
        Op::Push(scope) => {
            lemma_nested_push(head + a.pieces, Piece::Open(scope));
            assert(head + n.pieces =~= (head + a.pieces).push(Piece::Open(scope)));
        },
        Op::Pop => {
            if a.fresh {
                assert((head + a.pieces).drop_last() =~= head + n.pieces);
                assert((head + a.pieces).last() == a.pieces.last());
            } else {
                lemma_nested_push(head + a.pieces, Piece::Close);
                assert(head + n.pieces =~= (head + a.pieces).push(Piece::Close));
            }
        },
    }
}

/// A prefix of operations that pop no empty stack pops no empty stack.
proof fn lemma_pops_fit_prefix(stack: Seq<Seq<Seq<char>>>, ops: Seq<(int, Op)>)
    requires
        pops_fit(stack, ops),
        ops.len() > 0,
    ensures
        pops_fit(stack, ops.drop_last()),
        ops.last().1 is Pop ==> stack_after(stack, ops.drop_last()).len() > 0,
{
    let before = ops.drop_last();
    assert forall|k: int| 0 <= k < before.len() implies #[trigger] pop_fits(stack, before, k) by {
        assert(pop_fits(stack, ops, k));
        assert(before[k] == ops[k]);
        assert(before.take(k) =~= ops.take(k));
    }
    assert(pop_fits(stack, ops, ops.len() - 1));
    assert(ops.take(ops.len() - 1) =~= before);
}

/// While no operation pops an empty stack, the spans written for a line up
/// to any of its operations are as deep as the stack is high.
proof fn lemma_emitted_nested(
    stack: Seq<Seq<Seq<char>>>,
    line: Seq<char>,
    ops: Seq<(int, Op)>,
)
    requires
        pops_fit(stack, ops),
    ensures
        closes_open_spans(opens(stack) + emit_ops(line, ops).pieces),
        depth(opens(stack) + emit_ops(line, ops).pieces) == stack_after(stack, ops).len(),
        emit_ops(line, ops).fresh ==> ends_on_open(emit_ops(line, ops).pieces),
    decreases ops.len(),
{
    let head = opens(stack);
    if ops.len() == 0 {
        lemma_opens_nested(stack);
        assert(head + emit_ops(line, ops).pieces =~= head);
    } else {
        lemma_pops_fit_prefix(stack, ops);
        lemma_emitted_nested(stack, line, ops.drop_last());
        lemma_step_nested(head, emit_ops(line, ops.drop_last()), line, ops.last().0, ops.last().1);
    }
}

/// Where no operation pops a scope while none is open, the spans of the
/// line are well nested.
proof fn lemma_fit_pops_nest(stack: Seq<Seq<Seq<char>>>, line: Seq<char>, ops: Seq<(int, Op)>)
    requires
        pops_fit(stack, ops),
    ensures
        well_nested(line_pieces(stack, line, ops)),
{
    lemma_emitted_nested(stack, line, ops);
    let head = opens(stack);
    let e = emit_ops(line, ops);
    let body = token_pieces(line, ops);
    let n = stack_after(stack, ops).len();
    if body.len() > e.pieces.len() {
        assert((head + body).drop_last() =~= head + e.pieces);
    }
    assert(closes_open_spans(head + body));
    assert(depth(head + body) == n);
    lemma_closes_nested(head + body, n);
}

/// What is written stays: the pieces written up to a point where the last
/// span is not fresh begin the pieces written up to any later point, and a
/// fresh span of a later point lies behind them.
proof fn lemma_written_stays(line: Seq<char>, ops: Seq<(int, Op)>, k: int)
    requires
        0 <= k <= ops.len(),
        !emit_ops(line, ops.take(k)).fresh,
    ensures
        emit_ops(line, ops.take(k)).pieces.is_prefix_of(emit_ops(line, ops).pieces),
        emit_ops(line, ops).fresh ==> emit_ops(line, ops).pieces.len() > emit_ops(
            line,
            ops.take(k),
        ).pieces.len(),
    decreases ops.len(),
{
    let kept = emit_ops(line, ops.take(k)).pieces;
    if k == ops.len() {
        assert(ops.take(k) =~= ops);
        assert(kept.subrange(0, kept.len() as int) =~= kept);
    } else {
        let before = ops.drop_last();
        assert(before.take(k) =~= ops.take(k));
        lemma_written_stays(line, before, k);
        let e = emit_ops(line, before);
        let a = advance(e, line, ops.last().0);
        let n = apply_op(a, ops.last().1);
        assert(kept =~= a.pieces.subrange(0, kept.len() as int));
        assert(kept =~= n.pieces.subrange(0, kept.len() as int));
    }
}

/// The pieces of a line begin with the opening tags of the stack and the
/// pieces that were written up to a point where the last span was not
/// fresh.
pub(crate) proof fn lemma_line_begins_with(
    stack: Seq<Seq<Seq<char>>>,
    line: Seq<char>,
    ops: Seq<(int, Op)>,
    k: int,
) -> (back: Seq<Piece>)
    requires
        0 <= k <= ops.len(),
        !emit_ops(line, ops.take(k)).fresh,
    ensures
        line_pieces(stack, line, ops) == opens(stack) + emit_ops(line, ops.take(k)).pieces + back,
{
    lemma_written_stays(line, ops, k);
    let kept = emit_ops(line, ops.take(k)).pieces;
    let body = token_pieces(line, ops);
    let all = line_pieces(stack, line, ops);
    let from = opens(stack).len() + kept.len();
    let back = all.skip(from as int);
    assert(kept =~= body.subrange(0, kept.len() as int));
    assert(all =~= opens(stack) + kept + back);
    back
}

/// A fresh span was pushed by the last operation, so its scope is open.
proof fn lemma_fresh_is_open(stack: Seq<Seq<Seq<char>>>, line: Seq<char>, ops: Seq<(int, Op)>)
    requires
        emit_ops(line, ops).fresh,
    ensures
        stack_after(stack, ops).len() > 0,
{
    if ops.len() > 0 {
        assert(ops.last().1 is Push);
    }
}

/// Where all operations but the last pop no empty stack, and yet one does,
/// it is the last.
proof fn lemma_last_pop_strays(stack: Seq<Seq<Seq<char>>>, ops: Seq<(int, Op)>)
    requires
        !pops_fit(stack, ops),
        ops.len() > 0,
        pops_fit(stack, ops.drop_last()),
    ensures
        ops.last().1 is Pop,
        stack_after(stack, ops.drop_last()).len() == 0,
{
    let before = ops.drop_last();
    let last = ops.len() - 1;
    let j = choose|j: int| 0 <= j < ops.len() && !#[trigger] pop_fits(stack, ops, j);
    if j < last {
        assert(pop_fits(stack, before, j));
        assert(before[j] == ops[j]);
        assert(before.take(j) =~= ops.take(j));
        assert(false);
    }
    assert(ops.take(last) =~= before);
}

/// A pop that finds no scope open, behind operations that all found one,
/// writes a closing tag for which no span is open.
proof fn lemma_stray_pop_closes_nothing(
    stack: Seq<Seq<Seq<char>>>,
    line: Seq<char>,
    before: Seq<(int, Op)>,
    offset: int,
)
    requires
        pops_fit(stack, before),
        stack_after(stack, before).len() == 0,
    ensures
        !emit_ops(line, before.push((offset, Op::Pop))).fresh,
        !closes_open_spans(opens(stack) + emit_ops(line, before.push((offset, Op::Pop))).pieces),
{
    let head = opens(stack);
    let ops = before.push((offset, Op::Pop));
    assert(ops.drop_last() =~= before);
    lemma_emitted_nested(stack, line, before);
    let e = emit_ops(line, before);
    let a = advance(e, line, offset);
    let n = apply_op(a, Op::Pop);
    assert(n == emit_ops(line, ops));
    if offset > e.cursor {
        let text = Piece::Text(text_between(line, e.cursor, offset));
        lemma_nested_push(head + e.pieces, text);
        assert(head + a.pieces =~= (head + e.pieces).push(text));
    } else {
        if e.fresh {
            lemma_fresh_is_open(stack, line, before);
        }
    }
    assert(!a.fresh);
    assert(depth(head + a.pieces) == 0);
    assert((head + n.pieces).drop_last() =~= head + a.pieces);
    assert((head + n.pieces).last() == Piece::Close);
    assert(depth(head + n.pieces) == -1);
}

/// A pop while no scope is open writes a closing tag for which no span is
/// open.
proof fn lemma_stray_pop_is_written(
    stack: Seq<Seq<Seq<char>>>,
    line: Seq<char>,
    ops: Seq<(int, Op)>,
) -> (k: int)
    requires
        !pops_fit(stack, ops),
    ensures
        0 <= k <= ops.len(),
        !emit_ops(line, ops.take(k)).fresh,
        !closes_open_spans(opens(stack) + emit_ops(line, ops.take(k)).pieces),
    decreases ops.len(),
{
    let before = ops.drop_last();
    if pops_fit(stack, before) {
        lemma_last_pop_strays(stack, ops);
        lemma_stray_pop_closes_nothing(stack, line, before, ops.last().0);
        assert(before.push((ops.last().0, Op::Pop)) =~= ops);
        assert(ops.take(ops.len() as int) =~= ops);
        ops.len() as int
    } else {
        let k = lemma_stray_pop_is_written(stack, line, before);
        assert(before.take(k) =~= ops.take(k));
        k
    }
}

/// The spans of a highlighted line are well nested: every span that is
/// opened in the line's cell is closed in it, inside the spans that were
/// opened before it. This holds of every line whose operations pop no scope
/// while none is open, and of no other.
pub proof fn lemma_line_well_nested(
    stack: Seq<Seq<Seq<char>>>,
    line: Seq<char>,
    ops: Seq<(int, Op)>,
)
    ensures
        well_nested(line_pieces(stack, line, ops)) <==> pops_fit(stack, ops),
{
    if pops_fit(stack, ops) {
        lemma_fit_pops_nest(stack, line, ops);
    } else {
        let k = lemma_stray_pop_is_written(stack, line, ops);
        let back = lemma_line_begins_with(stack, line, ops, k);
        if closes_open_spans(line_pieces(stack, line, ops)) {
            lemma_nested_prefix(opens(stack) + emit_ops(line, ops.take(k)).pieces, back);
        }
    }
}

} // verus!
