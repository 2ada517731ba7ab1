//! The tokenizer: the types and functions of `syntect` that the crate
//! uses, with what is assumed of them.

use syntect::parsing::{
    BasicScopeStackOp, ParseState, ParsingError, ScopeError, ScopeStack, ScopeStackOp,
    SyntaxReference, SyntaxSet, SyntaxSetBuilder,
};
use vstd::prelude::*;

verus! {

/// A set of grammars.
#[verifier::external_type_specification]
#[verifier::external_body]
pub struct ExSyntaxSet(SyntaxSet);

/// The grammars from which a set is built.
#[verifier::external_type_specification]
#[verifier::external_body]
pub struct ExSyntaxSetBuilder(SyntaxSetBuilder);

/// One grammar of a set.
#[verifier::external_type_specification]
#[verifier::external_body]
pub struct ExSyntaxReference(SyntaxReference);

/// What the tokenizer carries from line to line.
#[verifier::external_type_specification]
#[verifier::external_body]
pub struct ExParseState(ParseState);

/// Why the tokenizer failed on a line.
#[verifier::external_type_specification]
#[verifier::external_body]
pub struct ExParsingError(ParsingError);

/// The tokenizer's own stack of scopes, which resolves its operations.
#[verifier::external_type_specification]
#[verifier::external_body]
pub struct ExScopeStack(ScopeStack);

/// An operation of the tokenizer on the scope stack, which may stand for
/// several pushes or pops.
#[verifier::external_type_specification]
#[verifier::external_body]
pub struct ExScopeStackOp(ScopeStackOp);

/// Why an operation could not be applied to the scope stack.
#[verifier::external_type_specification]
#[verifier::external_body]
pub struct ExScopeError(ScopeError);

/// A scope as the tokenizer holds it, packed into numbers.
#[verifier::external_type_specification]
#[verifier::external_body]
pub struct ExPackedScope(syntect::parsing::Scope);

/// Whether the tokenizer can work with `set` on any text without a panic:
/// the contexts of every grammar of `set` can be read, every grammar holds
/// the context in which parsing starts, and every pattern of its grammars
/// compiles whenever it is used, with whatever text stands for its
/// back-references. Neither a search in the set nor the loading of a
/// grammar from text shows this of a grammar, so it is for the caller to
/// know it of a set that was loaded from elsewhere.
pub uninterp spec fn sound(set: SyntaxSet) -> bool;

/// Whether a set can be built from `builder` with which the tokenizer can
/// work: `SyntaxSetBuilder::build` returns for it, which it does where
/// every reference of its grammars that is linked to a context already
/// points to a context of the builder, and the set that it makes is one
/// that the tokenizer can work with.
pub uninterp spec fn sound_builder(builder: SyntaxSetBuilder) -> bool;

/// Whether a grammar of `builder` lists the file extension, letters of
/// ASCII compared without regard to case.
pub uninterp spec fn lists_extension(builder: SyntaxSetBuilder, extension: Seq<char>) -> bool;

/// Whether `syntax` is one of the grammars of `set`, linked to the contexts
/// that `set` holds.
pub uninterp spec fn holds_syntax(set: SyntaxSet, syntax: SyntaxReference) -> bool;

/// Whether every context that `state` refers to is one that `set` holds.
/// Parsing with a set of which this is not true may panic.
pub uninterp spec fn state_fits(state: ParseState, set: SyntaxSet) -> bool;

/// The state in which `ParseState::new` lets the parsing of a file start
/// for a grammar.
pub uninterp spec fn started(syntax: SyntaxReference) -> ParseState;

/// The scopes that a scope stack holds, outermost first.
pub uninterp spec fn stack_scopes(stack: ScopeStack) -> Seq<syntect::parsing::Scope>;

/// `SyntaxSetBuilder::new` makes a builder without grammars, from which a
/// set without grammars is built.
pub assume_specification[ SyntaxSetBuilder::new ]() -> (builder: SyntaxSetBuilder)
    ensures
        sound_builder(builder),
;

/// `SyntaxSetBuilder::add_plain_text_syntax` adds the grammar for plain
/// text behind the grammars of the builder. The grammar is loaded from a
/// fixed text: it lists the extension `txt`, has its start context, no
/// pattern but the empty one of the start context, and no reference that
/// is linked already. The loader locks the global scope repository and
/// panics if that lock is poisoned, which it is only after a panic in
/// another thread.
pub assume_specification[ SyntaxSetBuilder::add_plain_text_syntax ](builder: &mut SyntaxSetBuilder)
    ensures
        sound_builder(*old(builder)) ==> sound_builder(*final(builder)),
        lists_extension(*final(builder), "txt"@),
;

/// `SyntaxSetBuilder::build` links the grammars of the builder and makes
/// the set of them. It adds no pattern and takes no context away, and
/// every grammar keeps its file extensions, so that a search finds a
/// grammar for every extension that the builder lists. It panics where a
/// reference that is linked already points to no context of the builder,
/// which the precondition rules out.
pub assume_specification[ SyntaxSetBuilder::build ](builder: SyntaxSetBuilder) -> (set: SyntaxSet)
    requires
        sound_builder(builder),
    ensures
        sound(set),
        forall|extension: Seq<char>| #[trigger]
            lists_extension(builder, extension) ==> grammar_for(set, extension) is Some,
;

/// The grammar that `SyntaxSet::find_syntax_by_extension` finds in `set`
/// for a file extension, if it finds one.
pub uninterp spec fn grammar_for(set: SyntaxSet, extension: Seq<char>) -> Option<SyntaxReference>;

/// `SyntaxSet::find_syntax_by_extension` searches the grammars of the set
/// for one that lists the extension, so what it finds depends on the set
/// and the extension alone, and a grammar that it returns is one of the
/// set.
pub assume_specification<'a>[ SyntaxSet::find_syntax_by_extension ](
    set: &'a SyntaxSet,
    extension: &str,
) -> (found: Option<&'a SyntaxReference>)
    ensures
        match found {
            Some(syntax) => grammar_for(*set, extension@) == Some(*syntax) && holds_syntax(
                *set,
                *syntax,
            ),
            None => grammar_for(*set, extension@) is None,
        },
;

/// `ParseState::new` makes the state in which the parsing of a file
/// starts. The state depends on the grammar alone: it refers to the start
/// context of the grammar, which every set that holds the grammar holds
/// too. It panics for a grammar without start context, which a grammar of
/// a set that the tokenizer can work with is not.
pub assume_specification[ ParseState::new ](syntax: &SyntaxReference) -> (state: ParseState)
    requires
        exists|set: SyntaxSet| sound(set) && #[trigger] holds_syntax(set, *syntax),
    ensures
        state == started(*syntax),
        forall|set: SyntaxSet| #[trigger] holds_syntax(set, *syntax) ==> state_fits(state, set),
;

/// What `ParseState::parse_line` makes of a line: the state in which it
/// leaves the tokenizer, and what it returns.
pub uninterp spec fn parsed_line(state: ParseState, line: Seq<char>, set: SyntaxSet) -> (
    ParseState,
    Result<Seq<(usize, ScopeStackOp)>, ParsingError>,
);

/// `ParseState::parse_line` parses one line and returns the operations on
/// the scope stack with their byte offsets, or an error. What it returns
/// and the state in which it leaves the tokenizer depend on the state, the
/// line and the set alone. The state goes on referring to contexts of the
/// same set. Nothing is assumed of the operations themselves. It may panic
/// with a set that the tokenizer cannot work with, and with a state that
/// refers to contexts of another set; the precondition rules both out.
pub assume_specification[ ParseState::parse_line ](
    state: &mut ParseState,
    line: &str,
    syntax_set: &SyntaxSet,
) -> (parsed: Result<Vec<(usize, ScopeStackOp)>, ParsingError>)
    requires
        sound(*syntax_set),
        state_fits(*old(state), *syntax_set),
    ensures
        state_fits(*final(state), *syntax_set),
        *final(state) == parsed_line(*old(state), line@, *syntax_set).0,
        match parsed {
            Ok(ops) => parsed_line(*old(state), line@, *syntax_set).1 == Ok::<
                Seq<(usize, ScopeStackOp)>,
                ParsingError,
            >(ops@),
            Err(error) => parsed_line(*old(state), line@, *syntax_set).1 == Err::<
                Seq<(usize, ScopeStackOp)>,
                ParsingError,
            >(error),
        },
;

/// `ScopeStack::new` makes a scope stack that holds no scope.
pub assume_specification[ ScopeStack::new ]() -> (stack: ScopeStack)
    ensures
        stack_scopes(stack) == Seq::<syntect::parsing::Scope>::empty(),
;

/// What `ScopeStack::apply_with_hook` makes of an operation: the stack
/// that it leaves, and the elementary changes that it reports to its hook,
/// in order, `Some` with the scope for a push and `None` for a pop, or its
/// error.
pub uninterp spec fn applied_op(stack: ScopeStack, op: ScopeStackOp) -> (
    ScopeStack,
    Result<Seq<Option<syntect::parsing::Scope>>, ScopeError>,
);

/// `ScopeStack::apply_with_hook` applies `op` to `stack` and reports each
/// elementary change through its hook. This hands the changes back in the
/// order in which they were reported: `Some` with the scope for a push,
/// `None` for a pop. They and the stack that is left depend on the stack
/// and the operation alone. Nothing is assumed of the changes themselves.
#[verifier::external_body]
pub(crate) fn elementary_ops(stack: &mut ScopeStack, op: &ScopeStackOp) -> (changes: Result<
    Vec<Option<syntect::parsing::Scope>>,
    ScopeError,
>)
    ensures
        *final(stack) == applied_op(*old(stack), *op).0,
        match changes {
            Ok(reported) => applied_op(*old(stack), *op).1 == Ok::<
                Seq<Option<syntect::parsing::Scope>>,
                ScopeError,
            >(reported@),
            Err(error) => applied_op(*old(stack), *op).1 == Err::<
                Seq<Option<syntect::parsing::Scope>>,
                ScopeError,
            >(error),
        },
{
    let mut changes = Vec::new();
    stack.apply_with_hook(op, |change, _| changes.push(match change {
        BasicScopeStackOp::Push(scope) => Some(scope),
        BasicScopeStackOp::Pop => None,
    }))?;
    Ok(changes)
}

/// How many atoms a scope has, as `Scope::len` counts them.
pub uninterp spec fn atom_count(scope: syntect::parsing::Scope) -> nat;

/// The names of the atoms of `scope`, in order, as the global repository
/// `SCOPE_REPO` gives them through `ScopeRepository::atom_str`: one name
/// for each atom. Nothing is assumed of the names themselves, which depend
/// on what the repository holds.
#[verifier::external_body]
#[allow(deprecated)]
pub(crate) fn scope_atoms(scope: &syntect::parsing::Scope) -> (names: Vec<String>)
    ensures
        names@.len() == atom_count(*scope),
{
    let repo = syntect::parsing::SCOPE_REPO.lock().unwrap_or_else(|poisoned| poisoned.into_inner());
    (0..scope.len() as usize).map(|i| repo.atom_str(scope.atom_at(i)).to_string()).collect()
}

} // verus!
