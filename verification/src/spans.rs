//! Turns the scope operations of a line into nested `<span>` elements.
//!
//! Markup cannot cross the boundary of a table row, so every line is a
//! fragment of its own: the scopes that are open when the line starts are
//! opened again in front of it, and all that are open at its end are closed
//! behind it.

use crate::escape::{escaped, Escape};
use crate::scope::{
    class_names, ops_view, stack_view, write_classes_for_scope, ClassStyle, Op, ScopePath, ScopeOp,
};
use crate::text::{
    lemma_boundary_at_seam, lemma_boundary_in_range, lemma_boundary_in_suffix,
    lemma_encode_concat, lemma_encode_injective, on_boundary, text_between,
};
use vstd::prelude::*;
use vstd::string::*;
use vstd::utf8::*;

verus! {

/// One piece of the markup of a line.
pub enum Piece {
    /// The opening tag of a span for a scope.
    Open(Seq<Seq<char>>),
    /// The closing tag of the innermost open span.
    Close,
    /// Text of the line, which is written escaped.
    Text(Seq<char>),
}

/// The opening tag of the span for a scope.
pub open spec fn open_tag(scope: Seq<Seq<char>>, prefix: Seq<char>) -> Seq<char> {
    "<span class=\""@ + class_names(scope, prefix) + "\">"@
}

/// The closing tag of a span.
pub open spec fn close_tag() -> Seq<char> {
    "</span>"@
}

/// The characters that a piece is written as.
pub open spec fn render_piece(piece: Piece, prefix: Seq<char>) -> Seq<char> {
    match piece {
        Piece::Open(scope) => open_tag(scope, prefix),
        Piece::Close => close_tag(),
        Piece::Text(text) => escaped(text),
    }
}

/// The characters that a sequence of pieces is written as.
pub open spec fn render_pieces(pieces: Seq<Piece>, prefix: Seq<char>) -> Seq<char>
    decreases pieces.len(),
{
    if pieces.len() == 0 {
        Seq::empty()
    } else {
        render_pieces(pieces.drop_last(), prefix) + render_piece(pieces.last(), prefix)
    }
}

/// Where the writing of a line's tokens stands.
pub struct Emit {
    /// What has been written for the line's tokens.
    pub pieces: Seq<Piece>,
    /// The byte offset up to which the line's text has been written.
    pub cursor: int,
    /// Whether the last piece is the opening tag of a scope that was pushed
    /// with nothing written since.
    pub fresh: bool,
}

/// Writes the text of the line up to `offset`, if that lies ahead.
pub open spec fn advance(e: Emit, line: Seq<char>, offset: int) -> Emit {
    if offset > e.cursor {
        Emit {
            pieces: e.pieces.push(Piece::Text(text_between(line, e.cursor, offset))),
            cursor: offset,
            fresh: false,
        }
    } else {
        e
    }
}

/// Writes what an operation asks for. A push writes an opening tag. A pop
/// that directly follows its push takes that opening tag back, so that a
/// scope without content leaves no markup; any other pop writes a closing
/// tag.
pub open spec fn apply_op(e: Emit, op: Op) -> Emit {
    match op {
        Op::Push(scope) => Emit { pieces: e.pieces.push(Piece::Open(scope)), fresh: true, ..e },
        Op::Pop => if e.fresh {
            Emit { pieces: e.pieces.drop_last(), fresh: false, ..e }
        } else {
            Emit { pieces: e.pieces.push(Piece::Close), fresh: false, ..e }
        },
    }
}

/// Where the writing stands after the operations `ops`, taken in order: in
/// front of each, the text up to its offset is written.
pub open spec fn emit_ops(line: Seq<char>, ops: Seq<(int, Op)>) -> Emit
    decreases ops.len(),
{
    if ops.len() == 0 {
        Emit { pieces: Seq::empty(), cursor: 0, fresh: false }
    } else {
        apply_op(advance(emit_ops(line, ops.drop_last()), line, ops.last().0), ops.last().1)
    }
}

/// The pieces written for the tokens of a line: those of its operations,
/// and then the text that is left behind the last of them.
pub open spec fn token_pieces(line: Seq<char>, ops: Seq<(int, Op)>) -> Seq<Piece> {
    let e = emit_ops(line, ops);
    let end = encode_utf8(line).len() as int;
    if e.cursor < end {
        e.pieces.push(Piece::Text(text_between(line, e.cursor, end)))
    } else {
        e.pieces
    }
}

/// The stack of open scopes after the operations `ops`. A pop on an empty
/// stack leaves it empty.
pub open spec fn stack_after(stack: Seq<Seq<Seq<char>>>, ops: Seq<(int, Op)>) -> Seq<
    Seq<Seq<char>>,
>
    decreases ops.len(),
{
    if ops.len() == 0 {
        stack
    } else {
        let before = stack_after(stack, ops.drop_last());
        match ops.last().1 {
            Op::Push(scope) => before.push(scope),
            Op::Pop => if before.len() > 0 {
                before.drop_last()
            } else {
                before
            },
        }
    }
}

/// Whether the offset of operation `k` can be used to cut the line: it is
/// a character boundary of the line, unless the text is written up to it
/// already.
pub open spec fn offset_fits(line: Seq<char>, ops: Seq<(int, Op)>, k: int) -> bool {
    ops[k].0 > emit_ops(line, ops.take(k)).cursor ==> on_boundary(line, ops[k].0)
}

/// Whether the offsets of all of `ops` can be used to cut the line.
pub open spec fn offsets_fit(line: Seq<char>, ops: Seq<(int, Op)>) -> bool {
    forall|k: int| 0 <= k < ops.len() ==> #[trigger] offset_fits(line, ops, k)
}

/// The opening tags of the scopes of a stack, outermost first.
pub open spec fn opens(stack: Seq<Seq<Seq<char>>>) -> Seq<Piece> {
    stack.map_values(|scope: Seq<Seq<char>>| Piece::Open(scope))
}

/// `n` closing tags.
pub open spec fn closes(n: nat) -> Seq<Piece> {
    Seq::new(n, |i: int| Piece::Close)
}

/// The pieces of a highlighted line: the scopes open at its start opened
/// again, the pieces of its tokens, and one closing tag for each scope that
/// is open at its end.
pub open spec fn line_pieces(
    stack: Seq<Seq<Seq<char>>>,
    line: Seq<char>,
    ops: Seq<(int, Op)>,
) -> Seq<Piece> {
    opens(stack) + token_pieces(line, ops) + closes(stack_after(stack, ops).len())
}

/// Writing one more piece appends what it is written as.
pub proof fn lemma_render_push(pieces: Seq<Piece>, piece: Piece, prefix: Seq<char>)
    ensures
        render_pieces(pieces.push(piece), prefix) == render_pieces(pieces, prefix) + render_piece(
            piece,
            prefix,
        ),
{
    assert(pieces.push(piece).drop_last() =~= pieces);
}

/// Writing two runs of pieces one after the other writes their
/// concatenation.
pub proof fn lemma_render_concat(a: Seq<Piece>, b: Seq<Piece>, prefix: Seq<char>)
    ensures
        render_pieces(a + b, prefix) == render_pieces(a, prefix) + render_pieces(b, prefix),
    decreases b.len(),
{
    if b.len() == 0 {
        assert(a + b =~= a);
        assert(render_pieces(a, prefix) + render_pieces(b, prefix) =~= render_pieces(a, prefix));
    } else {
        lemma_render_concat(a, b.drop_last(), prefix);
        assert((a + b).drop_last() =~= a + b.drop_last());
        assert((a + b).last() == b.last());
        assert(render_pieces(a + b, prefix) =~= render_pieces(a, prefix) + render_pieces(
            b,
            prefix,
        ));
    }
}

/// Taking operations in two runs, one after the other, is taking them in
/// one.
pub proof fn lemma_stack_after_concat(
    stack: Seq<Seq<Seq<char>>>,
    first: Seq<(int, Op)>,
    second: Seq<(int, Op)>,
)
    ensures
        stack_after(stack, first + second) == stack_after(stack_after(stack, first), second),
    decreases second.len(),
{
    if second.len() == 0 {
        assert(first + second =~= first);
    } else {
        lemma_stack_after_concat(stack, first, second.drop_last());
        assert((first + second).drop_last() =~= first + second.drop_last());
        assert((first + second).last() == second.last());
    }
}

/// How far the text is written depends on the offsets of the operations
/// alone.
pub proof fn lemma_cursor_of_offsets(line: Seq<char>, a: Seq<(int, Op)>, b: Seq<(int, Op)>)
    requires
        a.len() == b.len(),
        forall|i: int| 0 <= i < a.len() ==> (#[trigger] a[i]).0 == b[i].0,
    ensures
        emit_ops(line, a).cursor == emit_ops(line, b).cursor,
    decreases a.len(),
{
    if a.len() > 0 {
        assert(a[a.len() - 1].0 == b[a.len() - 1].0);
        assert forall|i: int| 0 <= i < a.drop_last().len() implies (#[trigger] a.drop_last()[i]).0
            == b.drop_last()[i].0 by {
            assert(a[i].0 == b[i].0);
        }
        lemma_cursor_of_offsets(line, a.drop_last(), b.drop_last());
    }
}

/// Whether the offsets of operations fit a line depends on the offsets
/// alone, not on what the operations push or pop.
pub proof fn lemma_fit_of_offsets(line: Seq<char>, a: Seq<(int, Op)>, b: Seq<(int, Op)>)
    requires
        a.len() == b.len(),
        forall|i: int| 0 <= i < a.len() ==> (#[trigger] a[i]).0 == b[i].0,
    ensures
        offsets_fit(line, a) == offsets_fit(line, b),
{
    assert forall|k: int| 0 <= k < a.len() implies offset_fits(line, a, k) == offset_fits(
        line,
        b,
        k,
    ) by {
        assert(a[k].0 == b[k].0);
        assert forall|i: int| 0 <= i < a.take(k).len() implies (#[trigger] a.take(k)[i]).0
            == b.take(k)[i].0 by {
            assert(a[i].0 == b[i].0);
        }
        lemma_cursor_of_offsets(line, a.take(k), b.take(k));
    }
    if offsets_fit(line, a) {
        assert forall|k: int| 0 <= k < b.len() implies #[trigger] offset_fits(line, b, k) by {
            assert(offset_fits(line, a, k));
        }
    }
    if offsets_fit(line, b) {
        assert forall|k: int| 0 <= k < a.len() implies #[trigger] offset_fits(line, a, k) by {
            assert(offset_fits(line, b, k));
        }
    }
}

/// Appends the opening tag of the span for `scope`.
pub fn open_scope(out: &mut String, scope: &ScopePath, style: ClassStyle)
    ensures
        final(out)@ == old(out)@ + open_tag(scope@, style.prefix()),
{
    out.append("<span class=\"");
    write_classes_for_scope(out, scope, style);
    out.append("\">");
    assert(out@ =~= old(out)@ + open_tag(scope@, style.prefix()));
}

/// Appends the closing tag of a span.
pub fn close_scope(out: &mut String)
    ensures
        final(out)@ == old(out)@ + close_tag(),
{
    out.append("</span>");
}

/// Taking the operations one more at a time.
pub proof fn lemma_emit_step(
    line: Seq<char>,
    ops: Seq<(int, Op)>,
    stack: Seq<Seq<Seq<char>>>,
    k: int,
)
    requires
        0 <= k < ops.len(),
    ensures
        emit_ops(line, ops.take(k + 1)) == apply_op(
            advance(emit_ops(line, ops.take(k)), line, ops[k].0),
            ops[k].1,
        ),
        stack_after(stack, ops.take(k + 1)) == match ops[k].1 {
            Op::Push(scope) => stack_after(stack, ops.take(k)).push(scope),
            Op::Pop => if stack_after(stack, ops.take(k)).len() > 0 {
                stack_after(stack, ops.take(k)).drop_last()
            } else {
                stack_after(stack, ops.take(k))
            },
        },
{
    assert(ops.take(k + 1).drop_last() =~= ops.take(k));
}

/// The end of what the buffer held before a tag was appended is a place
/// where the buffer can be cut.
proof fn lemma_cut_point(before: Seq<char>, tag: Seq<char>)
    ensures
        encode_utf8(before).len() <= encode_utf8(before + tag).len(),
        is_char_boundary(encode_utf8(before + tag), encode_utf8(before).len() as int),
{
    lemma_encode_concat(before, tag);
    encode_utf8_valid_utf8(before);
    encode_utf8_valid_utf8(tag);
    lemma_boundary_at_seam(encode_utf8(before), encode_utf8(tag));
}

/// Cutting the buffer back to the length it had before a tag was appended
/// leaves what it held then.
proof fn lemma_cut_back(before: Seq<char>, tag: Seq<char>, after: Seq<char>)
    requires
        encode_utf8(after) == encode_utf8(before + tag).subrange(
            0,
            encode_utf8(before).len() as int,
        ),
    ensures
        after == before,
{
    lemma_encode_concat(before, tag);
    assert(encode_utf8(after) =~= encode_utf8(before));
    lemma_encode_injective(after, before);
}

/// Appends, escaped, the first `len` bytes of `rest`, and returns what is
/// left of `rest` behind them.
fn write_run<'a>(out: &mut String, rest: &'a str, len: usize) -> (tail: &'a str)
    requires
        is_char_boundary(rest.spec_bytes(), len as int),
    ensures
        final(out)@ == old(out)@ + escaped(decode_utf8(rest.spec_bytes().subrange(0, len as int))),
        tail.spec_bytes() == rest.spec_bytes().subrange(
            len as int,
            rest.spec_bytes().len() as int,
        ),
{
    let (run, tail) = rest.split_at(len);
    proof {
        encode_utf8_decode_utf8(run@);
    }
    Escape(run).fmt(out);
    tail
}

/// Ends a span. If nothing was written since its opening tag, which starts
/// at byte `span_start` of `out`, the tag is taken back; else a closing tag
/// is appended.
fn end_span(
    out: &mut String,
    span_empty: bool,
    span_start: usize,
    Ghost(kept): Ghost<Seq<char>>,
    Ghost(tag): Ghost<Seq<char>>,
)
    requires
        span_empty ==> old(out)@ == kept + tag && span_start == encode_utf8(kept).len(),
    ensures
        span_empty ==> final(out)@ == kept,
        !span_empty ==> final(out)@ == old(out)@ + close_tag(),
{
    if span_empty {
        proof {
            lemma_cut_point(kept, tag);
        }
        out.truncate(span_start);
        proof {
            lemma_cut_back(kept, tag, out@);
        }
    } else {
        close_scope(out);
    }
}

/// The step of the writer's loop, for the state of the writing: the text
/// up to the operation's offset, then what the operation asks for.
proof fn lemma_written_step(
    base: Seq<char>,
    prefix: Seq<char>,
    line: Seq<char>,
    e: Emit,
    offset: int,
    op: Op,
)
    ensures
        ({
            let a = advance(e, line, offset);
            let n = apply_op(a, op);
            &&& base + render_pieces(a.pieces, prefix) == base + render_pieces(e.pieces, prefix)
                + (if offset > e.cursor {
                escaped(text_between(line, e.cursor, offset))
            } else {
                Seq::<char>::empty()
            })
            &&& op is Push ==> n.pieces.drop_last() == a.pieces && n.pieces.len() > 0
                && n.pieces.last() == Piece::Open(op->Push_0) && base + render_pieces(
                n.pieces,
                prefix,
            ) == base + render_pieces(a.pieces, prefix) + open_tag(op->Push_0, prefix)
            &&& op is Pop && !a.fresh ==> base + render_pieces(n.pieces, prefix) == base
                + render_pieces(a.pieces, prefix) + close_tag()
            &&& op is Pop && a.fresh && a.pieces.len() > 0 ==> base + render_pieces(
                a.pieces,
                prefix,
            ) == base + render_pieces(n.pieces, prefix) + render_piece(a.pieces.last(), prefix)
        }),
{
    let a = advance(e, line, offset);
    let n = apply_op(a, op);
    if offset > e.cursor {
        lemma_render_push(e.pieces, Piece::Text(text_between(line, e.cursor, offset)), prefix);
        assert(base + render_pieces(a.pieces, prefix) =~= base + render_pieces(e.pieces, prefix)
            + escaped(text_between(line, e.cursor, offset)));
    } else {
        assert(base + render_pieces(a.pieces, prefix) =~= base + render_pieces(e.pieces, prefix)
            + Seq::<char>::empty());
    }
    match op {
        Op::Push(scope) => {
            lemma_render_push(a.pieces, Piece::Open(scope), prefix);
            assert(n.pieces.drop_last() =~= a.pieces);
            assert(base + render_pieces(n.pieces, prefix) =~= base + render_pieces(
                a.pieces,
                prefix,
            ) + open_tag(scope, prefix));
        },
        Op::Pop => {
            if a.fresh {
                if a.pieces.len() > 0 {
                    assert(base + render_pieces(a.pieces, prefix) =~= base + render_pieces(
                        n.pieces,
                        prefix,
                    ) + render_piece(a.pieces.last(), prefix));
                }
            } else {
                lemma_render_push(a.pieces, Piece::Close, prefix);
                assert(base + render_pieces(n.pieces, prefix) =~= base + render_pieces(
                    a.pieces,
                    prefix,
                ) + close_tag());
            }
        },
    }
}

/// Whether the offsets of `ops` can be used to cut `line`.
pub fn tokens_fit(line: &str, ops: &Vec<(usize, ScopeOp)>) -> (fit: bool)
    ensures
        fit == offsets_fit(line@, ops_view(ops@)),
{
    let ghost all = ops_view(ops@);
    let mut cursor: usize = 0;
    let mut k: usize = 0;
    assert(all.take(0) =~= Seq::<(int, Op)>::empty());
    while k < ops.len()
        invariant
            k <= ops.len(),
            all == ops_view(ops@),
            cursor == emit_ops(line@, all.take(k as int)).cursor,
            forall|j: int| 0 <= j < k ==> #[trigger] offset_fits(line@, all, j),
        decreases ops.len() - k,
    {
        let offset = ops[k].0;
        proof {
            lemma_emit_step(line@, all, Seq::empty(), k as int);
            assert(all[k as int].0 == offset);
        }
        if offset > cursor {
            if !line.is_char_boundary(offset) {
                assert(!offset_fits(line@, all, k as int));
                return false;
            }
            cursor = offset;
        }
        assert(offset_fits(line@, all, k as int));
        k += 1;
    }
    true
}

/// The writer of the markup inside the code cells: the output so far, the
/// scopes that are open, and the style of the class names.
pub struct SpanWriter {
    /// The markup written so far.
    pub html: String,
    /// The scopes that are open, outermost first.
    pub stack: Vec<ScopePath>,
    /// How class names are formed.
    pub style: ClassStyle,
}

impl SpanWriter {
    /// The open scopes as mathematical values.
    pub open spec fn scopes(&self) -> Seq<Seq<Seq<char>>> {
        stack_view(self.stack@)
    }

    /// A writer with nothing written and no scope open.
    pub fn new(style: ClassStyle) -> (writer: Self)
        ensures
            writer.html@ == Seq::<char>::empty(),
            writer.scopes() == Seq::<Seq<Seq<char>>>::empty(),
            writer.style == style,
    {
        let writer = SpanWriter { html: String::new(), stack: Vec::new(), style };
        assert(writer.scopes() =~= Seq::<Seq<Seq<char>>>::empty());
        writer
    }

    /// Opens a span for every scope that is open, outermost first. A line
    /// starts with this, since the spans of the line before it were closed
    /// at the end of its row.
    pub fn open_current_scopes(&mut self)
        ensures
            final(self).html@ == old(self).html@ + render_pieces(
                opens(old(self).scopes()),
                old(self).style.prefix(),
            ),
            final(self).stack == old(self).stack,
            final(self).style == old(self).style,
    {
        let ghost prefix = self.style.prefix();
        let ghost all = opens(self.scopes());
        let n = self.stack.len();
        let mut i: usize = 0;
        proof {
            assert(all.take(0) =~= Seq::<Piece>::empty());
            assert(self.html@ + render_pieces(all.take(0), prefix) =~= self.html@);
        }
        while i < n
            invariant
                i <= n,
                n == self.stack.len(),
                self.stack == old(self).stack,
                self.style == old(self).style,
                prefix == self.style.prefix(),
                all == opens(self.scopes()),
                self.html@ == old(self).html@ + render_pieces(all.take(i as int), prefix),
            decreases n - i,
        {
            proof {
                assert(all.take(i + 1) =~= all.take(i as int).push(all[i as int]));
                lemma_render_push(all.take(i as int), all[i as int], prefix);
            }
            open_scope(&mut self.html, &self.stack[i], self.style);
            i += 1;
            assert(self.html@ =~= old(self).html@ + render_pieces(all.take(i as int), prefix));
        }
        assert(all.take(n as int) =~= all);
    }

    /// Closes a span for every scope that is open. A line ends with this.
    pub fn close_current_scopes(&mut self)
        ensures
            final(self).html@ == old(self).html@ + render_pieces(
                closes(old(self).stack@.len()),
                old(self).style.prefix(),
            ),
            final(self).stack == old(self).stack,
            final(self).style == old(self).style,
    {
        let ghost prefix = self.style.prefix();
        let n = self.stack.len();
        let mut i: usize = 0;
        proof {
            assert(closes(0) =~= Seq::<Piece>::empty());
            assert(self.html@ + render_pieces(closes(0), prefix) =~= self.html@);
        }
        while i < n
            invariant
                i <= n,
                n == self.stack.len(),
                self.stack == old(self).stack,
                self.style == old(self).style,
                prefix == self.style.prefix(),
                self.html@ == old(self).html@ + render_pieces(closes(i as nat), prefix),
            decreases n - i,
        {
            proof {
                assert(closes((i + 1) as nat) =~= closes(i as nat).push(Piece::Close));
                lemma_render_push(closes(i as nat), Piece::Close, prefix);
            }
            close_scope(&mut self.html);
            i += 1;
            assert(self.html@ =~= old(self).html@ + render_pieces(closes(i as nat), prefix));
        }
    }

    /// Writes a highlighted line: the open scopes opened again, the tokens
    /// of the line, and the closing tags of all scopes open at its end.
    pub fn write_spans_for_line(&mut self, line: &str, ops: &Vec<(usize, ScopeOp)>)
        requires
            offsets_fit(line@, ops_view(ops@)),
        ensures
            final(self).html@ == old(self).html@ + render_pieces(
                line_pieces(old(self).scopes(), line@, ops_view(ops@)),
                old(self).style.prefix(),
            ),
            final(self).scopes() == stack_after(old(self).scopes(), ops_view(ops@)),
            final(self).style == old(self).style,
    {
        let ghost prefix = self.style.prefix();
        let ghost head = opens(self.scopes());
        let ghost body = token_pieces(line@, ops_view(ops@));
        let ghost tail = closes(stack_after(self.scopes(), ops_view(ops@)).len());
        self.open_current_scopes();
        self.write_spans_for_tokens(line, ops);
        self.close_current_scopes();
        proof {
            assert(self.stack@.len() == self.scopes().len());
            lemma_render_concat(head, body, prefix);
            lemma_render_concat(head + body, tail, prefix);
            assert(self.html@ =~= old(self).html@ + render_pieces(head + body + tail, prefix));
        }
    }

    /// Appends the escaped form of `s`.
    pub fn write_escaped_html(&mut self, s: &str)
        ensures
            final(self).html@ == old(self).html@ + escaped(s@),
            final(self).stack == old(self).stack,
            final(self).style == old(self).style,
    {
        Escape(s).fmt(&mut self.html);
    }

    /// Writes the tokens of `line`: its text, escaped, with the tags that
    /// the operations ask for in between, and keeps the stack of open
    /// scopes up to date.
    pub fn write_spans_for_tokens(&mut self, line: &str, ops: &Vec<(usize, ScopeOp)>)
        requires
            offsets_fit(line@, ops_view(ops@)),
        ensures
            final(self).html@ == old(self).html@ + render_pieces(
                token_pieces(line@, ops_view(ops@)),
                old(self).style.prefix(),
            ),
            final(self).scopes() == stack_after(old(self).scopes(), ops_view(ops@)),
            final(self).style == old(self).style,
    {
        let mut cur_index: usize = 0;
        let mut rest: &str = line;
        // whether the span that was opened last is still without content,
        // and where its opening tag starts
        let mut span_empty = false;
        let mut span_start: usize = 0;

        let ghost base = self.html@;
        let ghost prefix = self.style.prefix();
        let ghost bytes = encode_utf8(line@);
        let ghost all = ops_view(ops@);
        let ghost mut e = emit_ops(line@, all.take(0));
        proof {
            assert(all.take(0) =~= Seq::<(int, Op)>::empty());
            assert(base + render_pieces(e.pieces, prefix) =~= base);
            encode_utf8_valid_utf8(line@);
            assert(bytes.subrange(0, bytes.len() as int) =~= bytes);
        }
        let mut k: usize = 0;
        while k < ops.len()
            invariant
                k <= ops.len(),
                all == ops_view(ops@),
                bytes == encode_utf8(line@),
                valid_utf8(bytes),
                prefix == old(self).style.prefix(),
                offsets_fit(line@, all),
                e == emit_ops(line@, all.take(k as int)),
                self.html@ == base + render_pieces(e.pieces, prefix),
                cur_index == e.cursor,
                span_empty == e.fresh,
                is_char_boundary(bytes, cur_index as int),
                rest.spec_bytes() == bytes.subrange(cur_index as int, bytes.len() as int),
                e.fresh ==> e.pieces.len() > 0 && e.pieces.last() is Open && span_start
                    == encode_utf8(base + render_pieces(e.pieces.drop_last(), prefix)).len(),
                self.scopes() == stack_after(old(self).scopes(), all.take(k as int)),
                self.style == old(self).style,
            decreases ops.len() - k,
        {
            let i = ops[k].0;
            let ghost op = ops@[k as int].1@;
            let ghost a = advance(e, line@, i as int);
            let ghost open_stack = self.scopes();
            proof {
                lemma_emit_step(line@, all, old(self).scopes(), k as int);
                assert(all[k as int] == (i as int, op));
                assert(offset_fits(line@, all, k as int));
                lemma_written_step(base, prefix, line@, e, i as int, op);
            }
            if i > cur_index {
                proof {
                    lemma_boundary_in_range(bytes, i as int);
                    lemma_boundary_in_suffix(bytes, cur_index as int, i as int);
                    assert(rest.spec_bytes().subrange(0, i - cur_index) =~= bytes.subrange(
                        cur_index as int,
                        i as int,
                    ));
                    assert(rest.spec_bytes().subrange(
                        i - cur_index,
                        rest.spec_bytes().len() as int,
                    ) =~= bytes.subrange(i as int, bytes.len() as int));
                }
                span_empty = false;
                rest = write_run(&mut self.html, rest, i - cur_index);
                cur_index = i;
            }
            assert(self.html@ == base + render_pieces(a.pieces, prefix));
            match &ops[k].1 {
                ScopeOp::Push(scope) => {
                    span_start = self.html.as_str().as_bytes().len();
                    span_empty = true;
                    open_scope(&mut self.html, scope, self.style);
                    self.stack.push(scope.clone());
                    assert(self.scopes() =~= open_stack.push(scope@));
                },
                ScopeOp::Pop => {
                    end_span(
                        &mut self.html,
                        span_empty,
                        span_start,
                        Ghost(base + render_pieces(a.pieces.drop_last(), prefix)),
                        Ghost(render_piece(a.pieces.last(), prefix)),
                    );
                    span_empty = false;
                    self.stack.pop();
                    proof {
                        if open_stack.len() > 0 {
                            assert(self.scopes() =~= open_stack.drop_last());
                        } else {
                            assert(self.scopes() =~= open_stack);
                        }
                    }
                },
            }
            proof {
                e = apply_op(a, op);
            }
            k += 1;
        }
        proof {
            assert(all.take(k as int) =~= all);
            encode_utf8_decode_utf8(rest@);
            if cur_index < bytes.len() {
                lemma_render_push(
                    e.pieces,
                    Piece::Text(text_between(line@, cur_index as int, bytes.len() as int)),
                    prefix,
                );
            } else {
                lemma_boundary_in_range(bytes, cur_index as int);
                assert(rest@ =~= Seq::<char>::empty());
            }
        }
        Escape(rest).fmt(&mut self.html);
        assert(self.html@ =~= base + render_pieces(token_pieces(line@, all), prefix));
    }
}

} // verus!
