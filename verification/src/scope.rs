//! Scopes, the operations that open and close them, and how a scope is
//! written as the value of a `class` attribute.

use vstd::prelude::*;
use vstd::string::*;

verus! {

/// A lexical classification: the names of its atoms, from the most general
/// to the most specific.
pub struct ScopePath {
    pub atoms: Vec<String>,
}

impl View for ScopePath {
    type V = Seq<Seq<char>>;

    open spec fn view(&self) -> Seq<Seq<char>> {
        self.atoms@.map_values(|atom: String| atom@)
    }
}

impl Clone for ScopePath {
    fn clone(&self) -> (copy: Self)
        ensures
            copy@ == self@,
    {
        let mut atoms: Vec<String> = Vec::new();
        let mut i: usize = 0;
        while i < self.atoms.len()
            invariant
                i <= self.atoms.len(),
                atoms.len() == i,
                forall|k: int| 0 <= k < i ==> atoms[k]@ == self.atoms[k]@,
            decreases self.atoms.len() - i,
        {
            atoms.push(self.atoms[i].clone());
            i += 1;
        }
        let copy = ScopePath { atoms };
        assert(copy@ =~= self@);
        copy
    }
}

/// A change to the stack of open scopes.
pub enum ScopeOp {
    /// Opens a scope inside those that are open.
    Push(ScopePath),
    /// Closes the scope that was opened last.
    Pop,
}

/// What a scope operation is, with the scope as its atoms' names.
pub enum Op {
    Push(Seq<Seq<char>>),
    Pop,
}

impl View for ScopeOp {
    type V = Op;

    open spec fn view(&self) -> Op {
        match self {
            ScopeOp::Push(scope) => Op::Push(scope@),
            ScopeOp::Pop => Op::Pop,
        }
    }
}

/// The operations of one line with the byte offsets at which they take
/// effect, as mathematical values.
pub open spec fn ops_view(ops: Seq<(usize, ScopeOp)>) -> Seq<(int, Op)> {
    ops.map_values(|t: (usize, ScopeOp)| (t.0 as int, t.1@))
}

/// The scopes of a stack, outermost first, as mathematical values.
pub open spec fn stack_view(stack: Seq<ScopePath>) -> Seq<Seq<Seq<char>>> {
    stack.map_values(|scope: ScopePath| scope@)
}

/// How the atoms of a scope become class names.
#[derive(Clone, Copy)]
pub enum ClassStyle {
    /// Each atom is a class of its own name.
    Spaced,
    /// As `Spaced`, with `prefix` in front of every name.
    SpacedPrefixed { prefix: &'static str },
}

impl ClassStyle {
    /// What is written in front of every class name.
    pub open spec fn prefix(self) -> Seq<char> {
        match self {
            ClassStyle::Spaced => Seq::empty(),
            ClassStyle::SpacedPrefixed { prefix } => prefix@,
        }
    }
}

/// The value of the `class` attribute for a scope: the atoms' names in
/// order, each behind `prefix`, with one space between neighbours.
pub open spec fn class_names(scope: Seq<Seq<char>>, prefix: Seq<char>) -> Seq<char>
    decreases scope.len(),
{
    if scope.len() == 0 {
        Seq::empty()
    } else {
        let gap = if scope.len() == 1 {
            Seq::<char>::empty()
        } else {
            seq![' ']
        };
        class_names(scope.drop_last(), prefix) + gap + prefix + scope.last()
    }
}

/// Appends the class names of `scope` to `out`.
pub fn write_classes_for_scope(out: &mut String, scope: &ScopePath, style: ClassStyle)
    ensures
        final(out)@ == old(out)@ + class_names(scope@, style.prefix()),
{
    let n = scope.atoms.len();
    let mut i: usize = 0;
    assert(scope@.take(0) =~= Seq::<Seq<char>>::empty());
    assert(old(out)@ + Seq::<char>::empty() =~= old(out)@);
    while i < n
        invariant
            n == scope.atoms.len(),
            i <= n,
            out@ == old(out)@ + class_names(scope@.take(i as int), style.prefix()),
        decreases n - i,
    {
        proof {
            let upto = scope@.take(i + 1);
            assert(upto.drop_last() =~= scope@.take(i as int));
            assert(upto.last() == scope.atoms[i as int]@);
            reveal_strlit(" ");
            assert(" "@ =~= seq![' ']);
        }
        if i != 0 {
            out.append(" ");
        }
        if let ClassStyle::SpacedPrefixed { prefix } = style {
            out.append(prefix);
        }
        out.append(scope.atoms[i].as_str());
        i += 1;
        assert(out@ =~= old(out)@ + class_names(scope@.take(i as int), style.prefix()));
    }
    assert(scope@.take(n as int) =~= scope@);
}

} // verus!
