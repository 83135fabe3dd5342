//! The input language: operations, the structured syntax tree, and the
//! function definitions the analyzer accepts.
//!
//! The tree is assumed to come from a conventional parser that has already
//! resolved every identifier to a binding index and made scopes explicit
//! (each binding's scope exit appears as an `EndScope` operation).  The
//! well-formedness conditions below record exactly that contract.

use crate::place::Place;
use vstd::prelude::*;

verus! {

/// Whether a loan grants shared (read-only) or unique (read-write) access.
#[derive(Clone, Copy, PartialEq, Eq, Structural, Debug)]
pub enum LoanKind {
    Shared,
    Unique,
}

/// One reference argument of a call: the place lent to the callee and the
/// kind of access the callee receives.
#[derive(Clone, Debug)]
pub struct CallArg {
    pub place: Place,
    pub kind: LoanKind,
}

/// A primitive operation: the leaves of the syntax tree, and the contents
/// of control-flow graph nodes.
#[derive(Clone, Debug)]
pub enum Op {
    /// `let x = <fresh value>`: declares and initializes binding `var`.
    Init { var: usize },
    /// `x = <fresh value>`: reassigns binding `var`, which must be mutable.
    Assign { var: usize },
    /// `let d = <src>`: moves the value out of `src` into binding `dst`.
    ///
    /// Part of the validated-input contract: this is for moves of owned
    /// values only.  A loan's region follows the liveness of the one
    /// binding the loan names, so a front end lowers a copy of a
    /// reference binding (`let r2 = r1;`) as a fresh `Borrow` of the lent
    /// place held by `r2`, never as a `MoveInto` of `r1`.
    MoveInto { dst: usize, src: Place },
    /// `let d = &place` / `let d = &mut place`: creates a loan held by `dst`.
    Borrow { dst: usize, place: Place, kind: LoanKind },
    /// A read of the value stored at `place` (printing it, comparing it...).
    Read { place: Place },
    /// A write to the storage of `place` that needs unique access, such as
    /// growing a vector in place.
    Write { place: Place },
    /// A call that lends each `args[i].place` to the callee for the duration
    /// of the call.  When `dst` is `Some(r)`, the call returns a reference
    /// derived from its arguments and `r` binds it: every argument loan then
    /// lives as long as `r` does.  When `dst` is `None`, the loans end when
    /// the call returns.
    Call { args: Vec<CallArg>, dst: Option<usize> },
    /// The lexical scope of binding `var` ends here; its storage is dropped.
    EndScope { var: usize },
    /// No effect: a join point inserted by the control-flow graph builder.
    Skip,
}

/// A structured function body: statements, sequencing, branching, looping.
pub enum Ast {
    Stmt(Op),
    Sequence(Box<Ast>, Box<Ast>),
    If(Box<Ast>, Box<Ast>),
    Loop(Box<Ast>),
}

/// A function to analyze: how many bindings it declares, which of them are
/// mutable, and its body.
pub struct FnDef {
    pub n_vars: usize,
    pub muta: Vec<bool>,
    pub body: Ast,
}

/// Every binding index an operation mentions is within the function's
/// binding table.
pub open spec fn op_wf(op: Op, n_vars: nat) -> bool {
    match op {
        Op::Init { var } => var < n_vars,
        Op::Assign { var } => var < n_vars,
        Op::MoveInto { dst, src } => dst < n_vars && src.base < n_vars,
        Op::Borrow { dst, place, kind: _ } => dst < n_vars && place.base < n_vars,
        Op::Read { place } => place.base < n_vars,
        Op::Write { place } => place.base < n_vars,
        Op::Call { args, dst } => {
            &&& forall|i: int| 0 <= i < args@.len() ==> (#[trigger] args@[i]).place.base < n_vars
            &&& match dst {
                Some(r) => r < n_vars,
                None => true,
            }
        },
        Op::EndScope { var } => var < n_vars,
        Op::Skip => true,
    }
}

/// Every operation in the tree is well formed for `n_vars` bindings.
pub open spec fn ast_wf(ast: Ast, n_vars: nat) -> bool
    decreases ast,
{
    match ast {
        Ast::Stmt(op) => op_wf(op, n_vars),
        Ast::Sequence(a, b) => ast_wf(*a, n_vars) && ast_wf(*b, n_vars),
        Ast::If(a, b) => ast_wf(*a, n_vars) && ast_wf(*b, n_vars),
        Ast::Loop(a) => ast_wf(*a, n_vars),
    }
}

/// The operation appears as a leaf of the tree.
pub open spec fn ast_contains_op(ast: Ast, op: Op) -> bool
    decreases ast,
{
    match ast {
        Ast::Stmt(o) => o == op,
        Ast::Sequence(a, b) => ast_contains_op(*a, op) || ast_contains_op(*b, op),
        Ast::If(a, b) => ast_contains_op(*a, op) || ast_contains_op(*b, op),
        Ast::Loop(a) => ast_contains_op(*a, op),
    }
}

/// Decides whether one operation only mentions declared bindings.
fn op_wf_check(op: &Op, n_vars: usize) -> (r: bool)
    ensures
        r == op_wf(*op, n_vars as nat),
{
    match op {
        Op::Init { var } => *var < n_vars,
        Op::Assign { var } => *var < n_vars,
        Op::MoveInto { dst, src } => *dst < n_vars && src.base < n_vars,
        Op::Borrow { dst, place, kind: _ } => *dst < n_vars && place.base < n_vars,
        Op::Read { place } => place.base < n_vars,
        Op::Write { place } => place.base < n_vars,
        Op::Call { args, dst } => {
            let mut ok = match dst {
                Some(r) => *r < n_vars,
                None => true,
            };
            let mut i: usize = 0;
            while i < args.len()
                invariant
                    i <= args@.len(),
                    ok == ((match *dst {
                        Some(r) => r < n_vars,
                        None => true,
                    }) && forall|k: int|
                        0 <= k < i ==> (#[trigger] args@[k]).place.base < n_vars),
                decreases args@.len() - i,
            {
                if args[i].place.base >= n_vars {
                    ok = false;
                }
                i += 1;
            }
            ok
        },
        Op::EndScope { var } => *var < n_vars,
        Op::Skip => true,
    }
}

/// Decides whether every operation of the tree is well formed.
fn ast_wf_check(ast: &Ast, n_vars: usize) -> (r: bool)
    ensures
        r == ast_wf(*ast, n_vars as nat),
    decreases *ast,
{
    match ast {
        Ast::Stmt(op) => op_wf_check(op, n_vars),
        Ast::Sequence(a, b) => ast_wf_check(a, n_vars) && ast_wf_check(b, n_vars),
        Ast::If(a, b) => ast_wf_check(a, n_vars) && ast_wf_check(b, n_vars),
        Ast::Loop(a) => ast_wf_check(a, n_vars),
    }
}

impl FnDef {
    /// The validated-input contract: one mutability flag per binding, and a
    /// body whose operations only mention declared bindings.
    pub open spec fn wf(self) -> bool {
        &&& self.muta@.len() == self.n_vars
        &&& ast_wf(self.body, self.n_vars as nat)
    }

    /// Decides the validated-input contract, so that a caller handed an
    /// arbitrary tree can test it before analysis.
    pub fn is_wf(&self) -> (r: bool)
        ensures
            r == self.wf(),
    {
        self.muta.len() == self.n_vars && ast_wf_check(&self.body, self.n_vars)
    }
}

/// A leaf of a well-formed tree is itself well formed.
pub proof fn lemma_contains_wf(ast: Ast, op: Op, n_vars: nat)
    requires
        ast_wf(ast, n_vars),
        ast_contains_op(ast, op),
    ensures
        op_wf(op, n_vars),
    decreases ast,
{
    match ast {
        Ast::Stmt(_) => {},
        Ast::Sequence(a, b) => {
            if ast_contains_op(*a, op) {
                lemma_contains_wf(*a, op, n_vars);
            } else {
                lemma_contains_wf(*b, op, n_vars);
            }
        },
        Ast::If(a, b) => {
            if ast_contains_op(*a, op) {
                lemma_contains_wf(*a, op, n_vars);
            } else {
                lemma_contains_wf(*b, op, n_vars);
            }
        },
        Ast::Loop(a) => {
            lemma_contains_wf(*a, op, n_vars);
        },
    }
}

/// An operation that neither borrows nor moves nor reassigns an immutable
/// binding.  Calls are excluded because their argument loans are borrows.
pub open spec fn op_quiet(op: Op, muta: Seq<bool>) -> bool {
    match op {
        Op::MoveInto { dst: _, src: _ } => false,
        Op::Borrow { dst: _, place: _, kind: _ } => false,
        Op::Call { args: _, dst: _ } => false,
        Op::Assign { var } => var < muta.len() && muta[var as int],
        _ => true,
    }
}

/// Every leaf of the tree is quiet: the program performs no borrow, no
/// move, and no assignment to an immutable binding.
pub open spec fn ast_quiet(ast: Ast, muta: Seq<bool>) -> bool
    decreases ast,
{
    match ast {
        Ast::Stmt(op) => op_quiet(op, muta),
        Ast::Sequence(a, b) => ast_quiet(*a, muta) && ast_quiet(*b, muta),
        Ast::If(a, b) => ast_quiet(*a, muta) && ast_quiet(*b, muta),
        Ast::Loop(a) => ast_quiet(*a, muta),
    }
}

/// An operation that takes no unique access to any place: no write, no
/// reassignment, and only shared loans.
pub open spec fn op_read_only(op: Op) -> bool {
    match op {
        Op::Write { place: _ } => false,
        Op::Assign { var: _ } => false,
        Op::Borrow { dst: _, place: _, kind } => kind == LoanKind::Shared,
        Op::Call { args, dst: _ } => forall|i: int|
            0 <= i < args@.len() ==> (#[trigger] args@[i]).kind == LoanKind::Shared,
        _ => true,
    }
}

/// Every leaf of the tree is read-only towards borrowed data: all loans are
/// shared and nothing writes or reassigns.  Moves remain allowed.
pub open spec fn ast_read_only(ast: Ast) -> bool
    decreases ast,
{
    match ast {
        Ast::Stmt(op) => op_read_only(op),
        Ast::Sequence(a, b) => ast_read_only(*a) && ast_read_only(*b),
        Ast::If(a, b) => ast_read_only(*a) && ast_read_only(*b),
        Ast::Loop(a) => ast_read_only(*a),
    }
}

/// A leaf of a quiet tree is itself quiet.
pub proof fn lemma_contains_quiet(ast: Ast, op: Op, muta: Seq<bool>)
    requires
        ast_quiet(ast, muta),
        ast_contains_op(ast, op),
    ensures
        op_quiet(op, muta),
    decreases ast,
{
    match ast {
        Ast::Stmt(_) => {},
        Ast::Sequence(a, b) => {
            if ast_contains_op(*a, op) {
                lemma_contains_quiet(*a, op, muta);
            } else {
                lemma_contains_quiet(*b, op, muta);
            }
        },
        Ast::If(a, b) => {
            if ast_contains_op(*a, op) {
                lemma_contains_quiet(*a, op, muta);
            } else {
                lemma_contains_quiet(*b, op, muta);
            }
        },
        Ast::Loop(a) => {
            lemma_contains_quiet(*a, op, muta);
        },
    }
}

/// A leaf of a read-only tree is itself read-only.
pub proof fn lemma_contains_read_only(ast: Ast, op: Op)
    requires
        ast_read_only(ast),
        ast_contains_op(ast, op),
    ensures
        op_read_only(op),
    decreases ast,
{
    match ast {
        Ast::Stmt(_) => {},
        Ast::Sequence(a, b) => {
            if ast_contains_op(*a, op) {
                lemma_contains_read_only(*a, op);
            } else {
                lemma_contains_read_only(*b, op);
            }
        },
        Ast::If(a, b) => {
            if ast_contains_op(*a, op) {
                lemma_contains_read_only(*a, op);
            } else {
                lemma_contains_read_only(*b, op);
            }
        },
        Ast::Loop(a) => {
            lemma_contains_read_only(*a, op);
        },
    }
}

} // verus!
