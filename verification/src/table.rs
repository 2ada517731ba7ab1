//! The table: one row for every line of the code, with the line's number
//! and its highlighted text.

use crate::escape::escaped;
use crate::lines::{lemma_first_line_len_bounds, lines, next_line};
use crate::markup::{
    close_row, close_table, open_row, open_table, row_close, row_open, table_close, table_open,
};
use crate::nesting::{lemma_line_well_nested, pop_fits, pops_fit, well_nested};
use crate::scope::{ops_view, ClassStyle, Op, ScopeOp, ScopePath};
use crate::spans::{
    lemma_fit_of_offsets, lemma_stack_after_concat, line_pieces, offsets_fit, opens,
    render_pieces, stack_after, tokens_fit, Piece, SpanWriter,
};
use crate::syntax::{
    applied_op, atom_count, elementary_ops, grammar_for, holds_syntax, parsed_line,
    scope_atoms, sound,
    sound_builder, stack_scopes, started, state_fits,
};
use syntect::parsing::{
    ParseState, ScopeStack, ScopeStackOp, SyntaxReference, SyntaxSet, SyntaxSetBuilder,
};
use vstd::prelude::*;
use vstd::utf8::*;

verus! {

/// Why no table was rendered.
#[derive(Debug, PartialEq, Eq)]
pub enum HighlightError {
    /// The syntax set holds no grammar for the file.
    GrammarNotFound,
    /// The tokenizer failed on a line, or gave an offset at which the line
    /// cannot be cut.
    Parse,
}

/// Whether a line is too long to be highlighted: longer, in bytes and with
/// its line feed, than the maximum, if there is one.
pub open spec fn bypassed(line: Seq<char>, max_line_len: Option<usize>) -> bool {
    max_line_len matches Some(n) && encode_utf8(line).len() > n
}

/// The scopes that are open when line `i` starts: those left open by the
/// highlighted lines in front of it. A line that is not highlighted leaves
/// them as they are.
pub open spec fn stack_before(
    lines: Seq<Seq<char>>,
    max_line_len: Option<usize>,
    tokens: Seq<Seq<(int, Op)>>,
    i: int,
) -> Seq<Seq<Seq<char>>>
    decreases i,
{
    if i <= 0 {
        Seq::empty()
    } else {
        let before = stack_before(lines, max_line_len, tokens, i - 1);
        if bypassed(lines[i - 1], max_line_len) {
            before
        } else {
            stack_after(before, tokens[i - 1])
        }
    }
}

/// The pieces in the code cell of line `i`, where the line is highlighted.
pub open spec fn cell_pieces(
    lines: Seq<Seq<char>>,
    max_line_len: Option<usize>,
    tokens: Seq<Seq<(int, Op)>>,
    i: int,
) -> Seq<Piece> {
    line_pieces(stack_before(lines, max_line_len, tokens, i), lines[i], tokens[i])
}

/// What the code cell of line `i` holds: the escaped line where it is too
/// long, and else its spans.
pub open spec fn cell(
    lines: Seq<Seq<char>>,
    max_line_len: Option<usize>,
    prefix: Seq<char>,
    tokens: Seq<Seq<(int, Op)>>,
    i: int,
) -> Seq<char> {
    if bypassed(lines[i], max_line_len) {
        escaped(lines[i])
    } else {
        render_pieces(cell_pieces(lines, max_line_len, tokens, i), prefix)
    }
}

/// The first `n` rows of the table.
pub open spec fn rows(
    lines: Seq<Seq<char>>,
    max_line_len: Option<usize>,
    prefix: Seq<char>,
    tokens: Seq<Seq<(int, Op)>>,
    n: int,
) -> Seq<char>
    decreases n,
{
    if n <= 0 {
        Seq::empty()
    } else {
        rows(lines, max_line_len, prefix, tokens, n - 1) + row_open((n - 1) as nat) + cell(
            lines,
            max_line_len,
            prefix,
            tokens,
            n - 1,
        ) + row_close()
    }
}

/// The table for the given lines, where `tokens` holds for every
/// highlighted line the operations that the tokenizer gave for it.
pub open spec fn table(
    lines: Seq<Seq<char>>,
    max_line_len: Option<usize>,
    prefix: Seq<char>,
    tokens: Seq<Seq<(int, Op)>>,
) -> Seq<char> {
    table_open() + rows(lines, max_line_len, prefix, tokens, lines.len() as int) + table_close()
}

/// The first `n` rows depend on the tokens of the first `n` lines only.
pub proof fn lemma_rows_of_first_tokens(
    lines: Seq<Seq<char>>,
    max_line_len: Option<usize>,
    prefix: Seq<char>,
    a: Seq<Seq<(int, Op)>>,
    b: Seq<Seq<(int, Op)>>,
    n: int,
)
    requires
        forall|j: int| 0 <= j < n ==> a[j] == b[j],
    ensures
        stack_before(lines, max_line_len, a, n) == stack_before(lines, max_line_len, b, n),
        rows(lines, max_line_len, prefix, a, n) == rows(lines, max_line_len, prefix, b, n),
    decreases n,
{
    if n > 0 {
        lemma_rows_of_first_tokens(lines, max_line_len, prefix, a, b, n - 1);
    }
}

/// The scopes that are open at the end of a highlighted line are the
/// scopes that are opened again at the start of the next line: the cell of
/// the next line, where that is highlighted too, begins with their opening
/// tags, outermost first.
pub proof fn lemma_next_line_reopens(
    lines: Seq<Seq<char>>,
    max_line_len: Option<usize>,
    tokens: Seq<Seq<(int, Op)>>,
    i: int,
)
    requires
        0 <= i,
        i + 1 < lines.len(),
        !bypassed(lines[i], max_line_len),
    ensures
        stack_before(lines, max_line_len, tokens, i + 1) == stack_after(
            stack_before(lines, max_line_len, tokens, i),
            tokens[i],
        ),
        !bypassed(lines[i + 1], max_line_len) ==> cell_pieces(
            lines,
            max_line_len,
            tokens,
            i + 1,
        ).take(stack_before(lines, max_line_len, tokens, i + 1).len() as int) == opens(
            stack_after(stack_before(lines, max_line_len, tokens, i), tokens[i]),
        ),
{
    let open = stack_before(lines, max_line_len, tokens, i + 1);
    let cell = cell_pieces(lines, max_line_len, tokens, i + 1);
    assert(cell.take(open.len() as int) =~= opens(open));
}

/// A line that is not highlighted leaves the open scopes as they are: the
/// line behind it starts with the scopes with which the long line started.
pub proof fn lemma_bypass_keeps_scopes(
    lines: Seq<Seq<char>>,
    max_line_len: Option<usize>,
    tokens: Seq<Seq<(int, Op)>>,
    i: int,
)
    requires
        0 <= i < lines.len(),
        bypassed(lines[i], max_line_len),
    ensures
        stack_before(lines, max_line_len, tokens, i + 1) == stack_before(
            lines,
            max_line_len,
            tokens,
            i,
        ),
{
}

/// The operations of the highlighted lines among the first `n`, in order.
pub open spec fn ops_before(
    lines: Seq<Seq<char>>,
    max_line_len: Option<usize>,
    tokens: Seq<Seq<(int, Op)>>,
    n: int,
) -> Seq<(int, Op)>
    decreases n,
{
    if n <= 0 {
        Seq::empty()
    } else if bypassed(lines[n - 1], max_line_len) {
        ops_before(lines, max_line_len, tokens, n - 1)
    } else {
        ops_before(lines, max_line_len, tokens, n - 1) + tokens[n - 1]
    }
}

/// The scopes that are open when a line starts are those that the
/// operations of all highlighted lines in front of it leave open, taken as
/// one stream from an empty stack.
pub proof fn lemma_stack_replays_stream(
    lines: Seq<Seq<char>>,
    max_line_len: Option<usize>,
    tokens: Seq<Seq<(int, Op)>>,
    n: int,
)
    ensures
        stack_before(lines, max_line_len, tokens, n) == stack_after(
            Seq::empty(),
            ops_before(lines, max_line_len, tokens, n),
        ),
    decreases n,
{
    if n > 0 {
        lemma_stack_replays_stream(lines, max_line_len, tokens, n - 1);
        if !bypassed(lines[n - 1], max_line_len) {
            lemma_stack_after_concat(
                Seq::empty(),
                ops_before(lines, max_line_len, tokens, n - 1),
                tokens[n - 1],
            );
        }
    }
}

/// The operations in front of a line begin the operations in front of
/// every later line.
proof fn lemma_ops_before_grow(
    lines: Seq<Seq<char>>,
    max_line_len: Option<usize>,
    tokens: Seq<Seq<(int, Op)>>,
    i: int,
    n: int,
)
    requires
        0 <= i <= n,
    ensures
        ops_before(lines, max_line_len, tokens, i).len() <= ops_before(
            lines,
            max_line_len,
            tokens,
            n,
        ).len(),
        ops_before(lines, max_line_len, tokens, n).take(
            ops_before(lines, max_line_len, tokens, i).len() as int,
        ) == ops_before(lines, max_line_len, tokens, i),
    decreases n - i,
{
    let short = ops_before(lines, max_line_len, tokens, i);
    let long = ops_before(lines, max_line_len, tokens, n);
    if i == n {
        assert(long.take(short.len() as int) =~= short);
    } else {
        lemma_ops_before_grow(lines, max_line_len, tokens, i, n - 1);
        let middle = ops_before(lines, max_line_len, tokens, n - 1);
        assert(long.take(short.len() as int) =~= middle.take(short.len() as int));
    }
}

/// In every document, the spans of every highlighted line are well nested:
/// each span that is opened in a cell is closed in that cell, inside the
/// spans opened before it. This holds of every document for which the
/// tokenizer, over all highlighted lines, pops no scope while none is open.
pub proof fn lemma_cell_well_nested(
    lines: Seq<Seq<char>>,
    max_line_len: Option<usize>,
    tokens: Seq<Seq<(int, Op)>>,
    i: int,
)
    requires
        0 <= i < lines.len(),
        !bypassed(lines[i], max_line_len),
        pops_fit(Seq::empty(), ops_before(lines, max_line_len, tokens, lines.len() as int)),
    ensures
        well_nested(cell_pieces(lines, max_line_len, tokens, i)),
{
    let all = ops_before(lines, max_line_len, tokens, lines.len() as int);
    let front = ops_before(lines, max_line_len, tokens, i);
    let stack = stack_before(lines, max_line_len, tokens, i);
    let ops = tokens[i];
    lemma_stack_replays_stream(lines, max_line_len, tokens, i);
    lemma_ops_before_grow(lines, max_line_len, tokens, i + 1, lines.len() as int);
    assert(ops_before(lines, max_line_len, tokens, i + 1) == front + ops);
    assert forall|k: int| 0 <= k < ops.len() implies #[trigger] pop_fits(stack, ops, k) by {
        let g = front.len() + k;
        assert(pop_fits(Seq::empty(), all, g));
        assert(all.take((front + ops).len() as int)[g] == (front + ops)[g]);
        assert(all[g] == ops[k]);
        assert(all.take(g) =~= (front + ops).take(g));
        assert((front + ops).take(g) =~= front + ops.take(k));
        lemma_stack_after_concat(Seq::empty(), front, ops.take(k));
    }
    lemma_line_well_nested(stack, lines[i], ops);
}

/// Whether `tokens` holds operations for every line, with offsets at which
/// the line can be cut where the line is highlighted.
pub open spec fn tokens_suit(
    lines: Seq<Seq<char>>,
    max_line_len: Option<usize>,
    tokens: Seq<Seq<(int, Op)>>,
) -> bool {
    &&& tokens.len() == lines.len()
    &&& forall|i: int|
        0 <= i < lines.len() && !bypassed(#[trigger] lines[i], max_line_len) ==> offsets_fit(
            lines[i],
            tokens[i],
        )
}

/// Whether a line is too long to be highlighted.
pub fn too_long(line: &str, max_line_len: Option<usize>) -> (long: bool)
    ensures
        long == bypassed(line@, max_line_len),
{
    match max_line_len {
        Some(n) => line.as_bytes().len() > n,
        None => false,
    }
}

/// Writes the row of the line with index `i`: its number, and in the code
/// cell its spans for the operations `ops`, or the escaped line where there
/// are none because the line is not highlighted. Only a highlighted line
/// changes the stack of open scopes.
pub fn write_row(
    writer: &mut SpanWriter,
    i: usize,
    line: &str,
    ops: Option<&Vec<(usize, ScopeOp)>>,
)
    requires
        i < usize::MAX,
        ops matches Some(ops) ==> offsets_fit(line@, ops_view(ops@)),
    ensures
        final(writer).html@ == old(writer).html@ + row_open(i as nat) + (match ops {
            Some(ops) => render_pieces(
                line_pieces(old(writer).scopes(), line@, ops_view(ops@)),
                old(writer).style.prefix(),
            ),
            None => escaped(line@),
        }) + row_close(),
        final(writer).scopes() == (match ops {
            Some(ops) => stack_after(old(writer).scopes(), ops_view(ops@)),
            None => old(writer).scopes(),
        }),
        final(writer).style == old(writer).style,
{
    open_row(&mut writer.html, i);
    match ops {
        Some(ops) => {
            writer.write_spans_for_line(line, ops);
        },
        None => {
            writer.write_escaped_html(line);
        },
    }
    close_row(&mut writer.html);
}

/// The elementary changes `changes`, each with the offset at which it takes
/// effect.
pub open spec fn changes_at(
    offset: int,
    changes: Seq<Option<syntect::parsing::Scope>>,
) -> Seq<(int, Option<syntect::parsing::Scope>)> {
    changes.map_values(|change: Option<syntect::parsing::Scope>| (offset, change))
}

/// What the operations of a line come to when they are applied to the
/// tokenizer's scope stack one after the other: the stack that is left,
/// and all elementary changes in order, each with the offset of its
/// operation. Where an operation cannot be applied, those behind it are not
/// applied, and there are no changes.
pub open spec fn changes_of(stack: ScopeStack, parsed: Seq<(usize, ScopeStackOp)>) -> (
    ScopeStack,
    Option<Seq<(int, Option<syntect::parsing::Scope>)>>,
)
    decreases parsed.len(),
{
    if parsed.len() == 0 {
        (stack, Some(Seq::empty()))
    } else {
        let (before, changes) = changes_of(stack, parsed.drop_last());
        match changes {
            None => (before, None),
            Some(changes) => {
                let (after, reported) = applied_op(before, parsed.last().1);
                match reported {
                    Ok(reported) => (
                        after,
                        Some(changes + changes_at(parsed.last().0 as int, reported)),
                    ),
                    Err(_) => (after, None),
                }
            },
        }
    }
}

/// Elementary changes as operations without the names of their scopes.
pub open spec fn unnamed(changes: Seq<(int, Option<syntect::parsing::Scope>)>) -> Seq<(int, Op)> {
    changes.map_values(
        |change: (int, Option<syntect::parsing::Scope>)|
            (
                change.0,
                if change.1 is Some {
                    Op::Push(Seq::empty())
                } else {
                    Op::Pop
                },
            ),
    )
}

/// Whether `op` is the operation of the elementary change `change`: a pop
/// for a pop, and for a push a push of as many names as the scope has
/// atoms.
pub open spec fn op_follows(op: Op, change: Option<syntect::parsing::Scope>) -> bool {
    match change {
        Some(scope) => op matches Op::Push(names) && names.len() == atom_count(scope),
        None => op is Pop,
    }
}

/// Whether `ops` are the operations of the elementary changes `changes`:
/// as many, at the same offsets, each the operation of its change.
pub open spec fn ops_follow(
    ops: Seq<(int, Op)>,
    changes: Seq<(int, Option<syntect::parsing::Scope>)>,
) -> bool {
    &&& ops.len() == changes.len()
    &&& forall|i: int|
        0 <= i < ops.len() ==> (#[trigger] ops[i]).0 == changes[i].0 && op_follows(
            ops[i].1,
            changes[i].1,
        )
}

/// Where the operations up to some point cannot all be applied, neither
/// can all the operations, and the stack is left as it was at that point.
proof fn lemma_changes_stop(stack: ScopeStack, parsed: Seq<(usize, ScopeStackOp)>, k: int)
    requires
        0 <= k <= parsed.len(),
        changes_of(stack, parsed.take(k)).1 is None,
    ensures
        changes_of(stack, parsed) == changes_of(stack, parsed.take(k)),
    decreases parsed.len(),
{
    if k == parsed.len() {
        assert(parsed.take(k) =~= parsed);
    } else {
        assert(parsed.drop_last().take(k) =~= parsed.take(k));
        lemma_changes_stop(stack, parsed.drop_last(), k);
    }
}

/// What the tokenizer makes of the first `n` lines, from the state and the
/// scope stack with which it starts: the state and the stack in which it
/// is left, and for every line its elementary changes.
///
/// A line that is too long is not shown to the tokenizer: it leaves state
/// and stack as they are and has no changes. Every other line is parsed in
/// the state that the lines before it left. Where a line cannot be parsed,
/// where one of its operations cannot be applied, and where an offset is
/// one at which the line cannot be cut, the lines behind it are not looked
/// at, and there are no changes at all.
pub open spec fn tokenized(
    state: ParseState,
    stack: ScopeStack,
    set: SyntaxSet,
    lines: Seq<Seq<char>>,
    max_line_len: Option<usize>,
    n: int,
) -> (ParseState, ScopeStack, Option<Seq<Seq<(int, Option<syntect::parsing::Scope>)>>>)
    decreases n,
{
    if n <= 0 {
        (state, stack, Some(Seq::empty()))
    } else {
        let (at, open, done) = tokenized(state, stack, set, lines, max_line_len, n - 1);
        match done {
            None => (at, open, None),
            Some(done) => if bypassed(lines[n - 1], max_line_len) {
                (at, open, Some(done.push(Seq::empty())))
            } else {
                let (next, parsed) = parsed_line(at, lines[n - 1], set);
                match parsed {
                    Err(_) => (next, open, None),
                    Ok(parsed) => {
                        let (left, changes) = changes_of(open, parsed);
                        match changes {
                            None => (next, left, None),
                            Some(changes) => if offsets_fit(lines[n - 1], unnamed(changes)) {
                                (next, left, Some(done.push(changes)))
                            } else {
                                (next, left, None)
                            },
                        }
                    },
                }
            },
        }
    }
}

/// Whether `out` is the outcome of a render for what the tokenizer made of
/// the lines. Where the tokenizer failed, the render fails. Else it gives
/// the table for operations that follow the tokenizer's changes, line by
/// line: as many as the changes, at the same offsets, a pop for a pop, and
/// for a push a push of as many names as the scope has atoms. What the
/// names are is not said here.
pub open spec fn rendered(
    made: Option<Seq<Seq<(int, Option<syntect::parsing::Scope>)>>>,
    lines: Seq<Seq<char>>,
    max_line_len: Option<usize>,
    prefix: Seq<char>,
    out: Result<String, HighlightError>,
) -> bool {
    match made {
        None => out == Err::<String, HighlightError>(HighlightError::Parse),
        Some(changes) => out matches Ok(html) && exists|tokens: Seq<Seq<(int, Op)>>|
            #![trigger table(lines, max_line_len, prefix, tokens)]
            {
                &&& tokens_suit(lines, max_line_len, tokens)
                &&& forall|i: int|
                    0 <= i < lines.len() && !bypassed(#[trigger] lines[i], max_line_len)
                        ==> ops_follow(tokens[i], changes[i])
                &&& html@ == table(lines, max_line_len, prefix, tokens)
            },
    }
}

/// Once the tokenizer has failed on a line, it has failed on the document.
pub proof fn lemma_failed_stays(
    state: ParseState,
    stack: ScopeStack,
    set: SyntaxSet,
    lines: Seq<Seq<char>>,
    max_line_len: Option<usize>,
    k: int,
    n: int,
)
    requires
        k <= n,
        tokenized(state, stack, set, lines, max_line_len, k).2 is None,
    ensures
        tokenized(state, stack, set, lines, max_line_len, n).2 is None,
    decreases n - k,
{
    if k < n {
        lemma_failed_stays(state, stack, set, lines, max_line_len, k, n - 1);
    }
}

/// A line that is too long advances neither the tokenizer nor its scope
/// stack: the lines behind it are parsed in the state that the lines in
/// front of it left.
pub proof fn lemma_bypass_leaves_tokenizer(
    state: ParseState,
    stack: ScopeStack,
    set: SyntaxSet,
    lines: Seq<Seq<char>>,
    max_line_len: Option<usize>,
    i: int,
)
    requires
        0 <= i < lines.len(),
        bypassed(lines[i], max_line_len),
    ensures
        tokenized(state, stack, set, lines, max_line_len, i + 1).0 == tokenized(
            state,
            stack,
            set,
            lines,
            max_line_len,
            i,
        ).0,
        tokenized(state, stack, set, lines, max_line_len, i + 1).1 == tokenized(
            state,
            stack,
            set,
            lines,
            max_line_len,
            i,
        ).1,
{
}

/// What the tokenizer makes of the first `n` lines depends on these lines
/// alone, and holds changes for each of them.
pub proof fn lemma_tokenized_of_first_lines(
    state: ParseState,
    stack: ScopeStack,
    set: SyntaxSet,
    a: Seq<Seq<char>>,
    b: Seq<Seq<char>>,
    max_line_len: Option<usize>,
    n: int,
)
    requires
        forall|j: int| 0 <= j < n ==> a[j] == b[j],
    ensures
        tokenized(state, stack, set, a, max_line_len, n) == tokenized(
            state,
            stack,
            set,
            b,
            max_line_len,
            n,
        ),
        tokenized(state, stack, set, a, max_line_len, n).2 matches Some(changes)
            ==> changes.len() == if n > 0 {
            n
        } else {
            0
        },
    decreases n,
{
    if n > 0 {
        lemma_tokenized_of_first_lines(state, stack, set, a, b, max_line_len, n - 1);
    }
}

/// The lines without the line with index `k`.
pub open spec fn without_line(lines: Seq<Seq<char>>, k: int) -> Seq<Seq<char>> {
    lines.take(k) + lines.skip(k + 1)
}

/// A line that is too long is as good as absent for the tokenizer: of the
/// document with the line it makes what it makes of the document without
/// it, and leaves the same state and the same scope stack. The changes
/// differ only in that the long line has its place among them, with no
/// changes.
pub proof fn lemma_bypassed_line_is_skipped(
    state: ParseState,
    stack: ScopeStack,
    set: SyntaxSet,
    lines: Seq<Seq<char>>,
    max_line_len: Option<usize>,
    k: int,
    n: int,
)
    requires
        0 <= k < n <= lines.len(),
        bypassed(lines[k], max_line_len),
    ensures
        ({
            let with = tokenized(state, stack, set, lines, max_line_len, n);
            let without = tokenized(
                state,
                stack,
                set,
                without_line(lines, k),
                max_line_len,
                n - 1,
            );
            &&& with.0 == without.0
            &&& with.1 == without.1
            &&& match without.2 {
                None => with.2 is None,
                Some(changes) => with.2 == Some(
                    changes.take(k).push(Seq::empty()) + changes.skip(k),
                ),
            }
        }),
    decreases n,
{
    let short = without_line(lines, k);
    if n == k + 1 {
        assert forall|j: int| 0 <= j < k implies lines[j] == short[j] by {}
        lemma_tokenized_of_first_lines(state, stack, set, lines, short, max_line_len, k);
        let before = tokenized(state, stack, set, short, max_line_len, k);
        if before.2 is Some {
            let changes = before.2->Some_0;
            assert(changes.take(k).push(Seq::empty()) + changes.skip(k) =~= changes.push(
                Seq::empty(),
            ));
        }
    } else {
        lemma_bypassed_line_is_skipped(state, stack, set, lines, max_line_len, k, n - 1);
        lemma_tokenized_of_first_lines(state, stack, set, short, short, max_line_len, n - 2);
        assert(short[n - 2] == lines[n - 1]);
        let before = tokenized(state, stack, set, short, max_line_len, n - 2);
        let after = tokenized(state, stack, set, short, max_line_len, n - 1);
        if before.2 is Some && after.2 is Some {
            let done = before.2->Some_0;
            let changes = after.2->Some_0;
            assert(changes == done.push(changes.last()));
            assert(changes.take(k).push(Seq::empty()) + changes.skip(k) =~= (done.take(k).push(
                Seq::empty(),
            ) + done.skip(k)).push(changes.last()));
        }
    }
}

/// How many bytes of markup are expected for a byte of code.
pub const MARKUP_PER_BYTE: usize = 8;

/// The length of code up to which the output is given its expected room in
/// advance.
pub const PRESIZED_CODE: usize = 0x0fff_ffff;

/// Renders code as a table, one row for each line, where the tokens of a
/// line stand in spans whose classes name their scopes.
///
/// Lines longer than `max_line_len`, if that is given, are not highlighted.
pub struct ClassedTableGenerator<'a> {
    syntax_set: &'a SyntaxSet,
    parse_state: ParseState,
    stack: ScopeStack,
    style: ClassStyle,
    code: &'a str,
    max_line_len: Option<usize>,
    filepath: String,
}

impl<'a> ClassedTableGenerator<'a> {
    /// Whether the generator is in working order: the tokenizer can work
    /// with its syntax set, which holds the contexts that the tokenizer's
    /// state refers to.
    pub closed spec fn wf(&self) -> bool {
        sound(*self.syntax_set) && state_fits(self.parse_state, *self.syntax_set)
    }

    /// The grammars that the tokenizer works with.
    pub closed spec fn syntaxes(&self) -> SyntaxSet {
        *self.syntax_set
    }

    /// The state of the tokenizer.
    pub closed spec fn tokenizer(&self) -> ParseState {
        self.parse_state
    }

    /// The tokenizer's stack of open scopes.
    pub closed spec fn open_scopes(&self) -> ScopeStack {
        self.stack
    }

    /// What the tokenizer makes of the code from where it stands: for every
    /// line its elementary changes, or nothing where it fails on a line.
    pub open spec fn made(&self) -> Option<Seq<Seq<(int, Option<syntect::parsing::Scope>)>>> {
        tokenized(
            self.tokenizer(),
            self.open_scopes(),
            self.syntaxes(),
            lines(self.code()),
            self.max_line_len(),
            lines(self.code()).len() as int,
        ).2
    }

    /// The code to render.
    pub closed spec fn code(&self) -> Seq<char> {
        self.code@
    }

    /// The length above which a line is not highlighted.
    pub closed spec fn max_line_len(&self) -> Option<usize> {
        self.max_line_len
    }

    /// The style of the class names.
    pub closed spec fn style(&self) -> ClassStyle {
        self.style
    }

    /// The path of the file that the code is from.
    pub closed spec fn path(&self) -> Seq<char> {
        self.filepath@
    }

    /// The path of the file that the code is from.
    pub fn filepath(&self) -> (path: &str)
        ensures
            path@ == self.path(),
    {
        self.filepath.as_str()
    }

    /// A generator for `code`, which is tokenized by the grammar `sr` of the
    /// syntax set `ss`. The tokenizer stands at the start of a file, and no
    /// scope is open.
    pub fn new(
        ss: &'a SyntaxSet,
        sr: &SyntaxReference,
        code: &'a str,
        max_line_len: Option<usize>,
        style: ClassStyle,
        filepath: String,
    ) -> (generator: Self)
        requires
            sound(*ss),
            holds_syntax(*ss, *sr),
        ensures
            generator.wf(),
            generator.syntaxes() == *ss,
            generator.tokenizer() == started(*sr),
            stack_scopes(generator.open_scopes()) == Seq::<syntect::parsing::Scope>::empty(),
            generator.code() == code@,
            generator.max_line_len() == max_line_len,
            generator.style() == style,
            generator.path() == filepath@,
    {
        ClassedTableGenerator {
            code,
            syntax_set: ss,
            parse_state: ParseState::new(sr),
            stack: ScopeStack::new(),
            style,
            max_line_len,
            filepath,
        }
    }

    /// Asks the tokenizer for the operations of the next line, each as its
    /// elementary pushes and pops with the offset at which it takes effect.
    ///
    /// The line is parsed in the state that the lines before it left, and
    /// the operations are applied to the tokenizer's scope stack one after
    /// the other. The result holds one operation for each elementary change
    /// that this reports, in order and at the offset of the tokenizer's
    /// operation: a pop for a pop, and for a push a push of as many names
    /// as the scope has atoms. The names are those that the scope
    /// repository gives, of which the contract says nothing. It is an error if the line cannot be parsed, if
    /// an operation cannot be applied, and if an offset is one at which the
    /// line cannot be cut.
    fn tokenize(&mut self, line: &str) -> (tokens: Result<Vec<(usize, ScopeOp)>, HighlightError>)
        requires
            old(self).wf(),
        ensures
            final(self).wf(),
            final(self).code() == old(self).code(),
            final(self).max_line_len() == old(self).max_line_len(),
            final(self).style() == old(self).style(),
            final(self).path() == old(self).path(),
            final(self).syntax_set == old(self).syntax_set,
            final(self).parse_state == parsed_line(
                old(self).parse_state,
                line@,
                *old(self).syntax_set,
            ).0,
            match parsed_line(old(self).parse_state, line@, *old(self).syntax_set).1 {
                Err(_) => tokens is Err && final(self).stack == old(self).stack,
                Ok(parsed) => {
                    &&& final(self).stack == changes_of(old(self).stack, parsed).0
                    &&& match changes_of(old(self).stack, parsed).1 {
                        None => tokens is Err,
                        Some(changes) => if offsets_fit(line@, unnamed(changes)) {
                            tokens matches Ok(ops) && ops_follow(ops_view(ops@), changes)
                        } else {
                            tokens is Err
                        },
                    }
                },
            },
            tokens matches Err(e) ==> e == HighlightError::Parse,
            tokens matches Ok(ops) ==> offsets_fit(line@, ops_view(ops@)),
    {
        let ghost start = self.stack;
        let parsed = match self.parse_state.parse_line(line, self.syntax_set) {
            Ok(parsed) => parsed,
            Err(_) => {
                return Err(HighlightError::Parse);
            },
        };
        let mut tokens: Vec<(usize, ScopeOp)> = Vec::new();
        let ghost mut changes: Seq<(int, Option<syntect::parsing::Scope>)> = Seq::empty();
        let mut j: usize = 0;
        proof {
            assert(parsed@.take(0) =~= Seq::<(usize, ScopeStackOp)>::empty());
        }
        while j < parsed.len()
            invariant
                self.wf(),
                self.code() == old(self).code(),
                self.max_line_len() == old(self).max_line_len(),
                self.style() == old(self).style(),
                self.path() == old(self).path(),
                self.syntax_set == old(self).syntax_set,
                self.parse_state == parsed_line(
                    old(self).parse_state,
                    line@,
                    *old(self).syntax_set,
                ).0,
                parsed_line(old(self).parse_state, line@, *old(self).syntax_set).1 == Ok::<
                    Seq<(usize, ScopeStackOp)>,
                    syntect::parsing::ParsingError,
                >(parsed@),
                start == old(self).stack,
                j <= parsed.len(),
                changes_of(start, parsed@.take(j as int)) == (self.stack, Some(changes)),
                ops_follow(ops_view(tokens@), changes),
            decreases parsed.len() - j,
        {
            let offset = parsed[j].0;
            proof {
                assert(parsed@.take(j + 1).drop_last() =~= parsed@.take(j as int));
                assert(parsed@.take(j + 1).last() == parsed@[j as int]);
            }
            let reported = match elementary_ops(&mut self.stack, &parsed[j].1) {
                Ok(reported) => reported,
                Err(_) => {
                    proof {
                        assert(changes_of(start, parsed@.take(j + 1)) == (
                            self.stack,
                            None::<Seq<(int, Option<syntect::parsing::Scope>)>>,
                        ));
                        lemma_changes_stop(start, parsed@, j + 1);
                    }
                    return Err(HighlightError::Parse);
                },
            };
            let ghost before = changes;
            let mut c: usize = 0;
            proof {
                assert(before + changes_at(offset as int, reported@.take(0)) =~= before);
            }
            while c < reported.len()
                invariant
                    c <= reported.len(),
                    ops_follow(
                        ops_view(tokens@),
                        before + changes_at(offset as int, reported@.take(c as int)),
                    ),
                decreases reported.len() - c,
            {
                let ghost so_far = before + changes_at(offset as int, reported@.take(c as int));
                let ghost written = ops_view(tokens@);
                match &reported[c] {
                    Some(scope) => {
                        tokens.push((offset, ScopeOp::Push(ScopePath { atoms: scope_atoms(scope) })));
                    },
                    None => {
                        tokens.push((offset, ScopeOp::Pop));
                    },
                }
                c += 1;
                proof {
                    let next = before + changes_at(offset as int, reported@.take(c as int));
                    assert(next =~= so_far.push((offset as int, reported@[c - 1])));
                    assert(ops_view(tokens@) =~= written.push(ops_view(tokens@)[written.len() as int]));
                }
            }
            proof {
                assert(reported@.take(reported.len() as int) =~= reported@);
                changes = before + changes_at(offset as int, reported@);
            }
            j += 1;
        }
        proof {
            assert(parsed@.take(parsed.len() as int) =~= parsed@);
            lemma_fit_of_offsets(line@, ops_view(tokens@), unnamed(changes));
        }
        if tokens_fit(line, &tokens) {
            Ok(tokens)
        } else {
            Err(HighlightError::Parse)
        }
    }

    /// Renders the table.
    ///
    /// The result is the table for the lines of the code and for what the
    /// tokenizer makes of the lines that are highlighted, from where it
    /// stands. The render fails exactly where the tokenizer fails on one of
    /// these lines: where the line cannot be parsed, where an operation
    /// cannot be applied, and where an offset is one at which the line
    /// cannot be cut.
    pub fn generate(self) -> (out: Result<String, HighlightError>)
        requires
            self.wf(),
        ensures
            rendered(
                self.made(),
                lines(self.code()),
                self.max_line_len(),
                self.style().prefix(),
                out,
            ),
            (forall|i: int|
                0 <= i < lines(self.code()).len() ==> bypassed(
                    #[trigger] lines(self.code())[i],
                    self.max_line_len(),
                )) ==> out is Ok,
    {
        let mut this = self;
        let ghost all = lines(this.code@);
        let ghost prefix = this.style.prefix();
        let max_line_len = this.max_line_len;
        let n = this.code.as_bytes().len();
        let room = if n <= PRESIZED_CODE {
            n * MARKUP_PER_BYTE
        } else {
            0
        };
        let mut writer = SpanWriter {
            html: String::with_capacity(room),
            stack: Vec::new(),
            style: this.style,
        };
        open_table(&mut writer.html);

        let mut rest: &str = this.code;
        let mut i: usize = 0;
        let ghost mut tokens: Seq<Seq<(int, Op)>> = Seq::empty();
        let ghost mut made: Seq<Seq<(int, Option<syntect::parsing::Scope>)>> = Seq::empty();
        proof {
            assert(all.skip(0) =~= all);
            assert(writer.html@ =~= table_open() + rows(all, max_line_len, prefix, tokens, 0));
            assert(writer.scopes() =~= stack_before(all, max_line_len, tokens, 0));
        }
        while !rest.is_empty()
            invariant
                this.wf(),
                this.code() == self.code(),
                this.max_line_len() == self.max_line_len(),
                this.style() == self.style(),
                this.syntax_set == self.syntax_set,
                all == lines(self.code()),
                prefix == self.style().prefix(),
                max_line_len == self.max_line_len(),
                writer.style == self.style(),
                0 <= i <= all.len(),
                i + encode_utf8(rest@).len() <= n,
                lines(rest@) == all.skip(i as int),
                tokens.len() == i,
                made.len() == i,
                tokenized(
                    self.parse_state,
                    self.stack,
                    *self.syntax_set,
                    all,
                    max_line_len,
                    i as int,
                ) == (this.parse_state, this.stack, Some(made)),
                forall|j: int|
                    0 <= j < i && !bypassed(#[trigger] all[j], max_line_len) ==> offsets_fit(
                        all[j],
                        tokens[j],
                    ) && ops_follow(tokens[j], made[j]),
                writer.html@ == table_open() + rows(all, max_line_len, prefix, tokens, i as int),
                writer.scopes() == stack_before(all, max_line_len, tokens, i as int),
            decreases rest@.len(),
        {
            let (line, tail) = next_line(rest);
            proof {
                lemma_first_line_len_bounds(rest@);
                let left = lines(rest@);
                assert(left == seq![line@] + lines(tail@));
                assert(left[0] == line@);
                assert(left.skip(1) =~= lines(tail@));
                assert(i < all.len());
                assert(all[i as int] == left[0]);
                assert(all.skip(i as int + 1) =~= left.skip(1));
            }
            let ghost ops: Seq<(int, Op)> = Seq::empty();
            let ghost changes: Seq<(int, Option<syntect::parsing::Scope>)> = Seq::empty();
            if too_long(line, max_line_len) {
                write_row(&mut writer, i, line, None);
            } else {
                let ghost at = this.parse_state;
                let ghost open = this.stack;
                match this.tokenize(line) {
                    Ok(given) => {
                        proof {
                            ops = ops_view(given@);
                            changes = changes_of(
                                open,
                                parsed_line(at, line@, *self.syntax_set).1->Ok_0,
                            ).1->Some_0;
                        }
                        write_row(&mut writer, i, line, Some(&given));
                    },
                    Err(error) => {
                        proof {
                            assert(!bypassed(all[i as int], max_line_len));
                            assert(tokenized(
                                self.parse_state,
                                self.stack,
                                *self.syntax_set,
                                all,
                                max_line_len,
                                i + 1,
                            ).2 is None);
                            lemma_failed_stays(
                                self.parse_state,
                                self.stack,
                                *self.syntax_set,
                                all,
                                max_line_len,
                                i + 1,
                                all.len() as int,
                            );
                        }
                        return Err(error);
                    },
                }
            }
            proof {
                let extended = tokens.push(ops);
                lemma_rows_of_first_tokens(all, max_line_len, prefix, tokens, extended, i as int);
                assert(writer.html@ =~= table_open() + rows(
                    all,
                    max_line_len,
                    prefix,
                    extended,
                    i + 1,
                ));
                tokens = extended;
                made = made.push(changes);
            }
            rest = tail;
            i += 1;
        }
        close_table(&mut writer.html);
        proof {
            assert(all.skip(i as int).len() == 0);
            assert(writer.html@ =~= table(all, max_line_len, prefix, tokens));
            assert(tokens_suit(all, max_line_len, tokens));
            assert(self.made() == Some(made));
        }
        Ok(writer.html)
    }
}

/// The syntax set that holds the grammar for plain text and no other. The
/// tokenizer can work with it on any text, and it has a grammar for files
/// with the extension `txt`.
pub fn plain_text_set() -> (set: SyntaxSet)
    ensures
        sound(set),
        grammar_for(set, "txt"@) is Some,
{
    let mut builder = SyntaxSetBuilder::new();
    builder.add_plain_text_syntax();
    builder.build()
}

/// Renders `code` as a table with the grammar that `ss` holds for files
/// with the given extension.
///
/// It is an error if `ss` holds no such grammar. Else the result is that
/// of a generator for the grammar, whose tokenizer stands at the start of a
/// file and whose scope stack holds nothing.
pub fn highlight(
    ss: &SyntaxSet,
    extension: &str,
    code: &str,
    max_line_len: Option<usize>,
    style: ClassStyle,
    filepath: String,
) -> (out: Result<String, HighlightError>)
    requires
        sound(*ss),
    ensures
        match grammar_for(*ss, extension@) {
            None => out == Err::<String, HighlightError>(HighlightError::GrammarNotFound),
            Some(grammar) => exists|stack: ScopeStack|
                #![trigger stack_scopes(stack)]
                {
                    &&& stack_scopes(stack) == Seq::<syntect::parsing::Scope>::empty()
                    &&& rendered(
                        tokenized(
                            started(grammar),
                            stack,
                            *ss,
                            lines(code@),
                            max_line_len,
                            lines(code@).len() as int,
                        ).2,
                        lines(code@),
                        max_line_len,
                        style.prefix(),
                        out,
                    )
                },
        },
        (forall|i: int|
            0 <= i < lines(code@).len() ==> bypassed(#[trigger] lines(code@)[i], max_line_len))
            ==> !(out matches Err(HighlightError::Parse)),
{
    match ss.find_syntax_by_extension(extension) {
        Some(sr) => {
            let generator = ClassedTableGenerator::new(ss, sr, code, max_line_len, style, filepath);
            let ghost stack = generator.open_scopes();
            let out = generator.generate();
            proof {
                assert(stack_scopes(stack) == Seq::<syntect::parsing::Scope>::empty());
            }
            out
        },
        None => Err(HighlightError::GrammarNotFound),
    }
}

} // verus!
