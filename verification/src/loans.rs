//! Loans: the borrows a program creates, collected from its graph.
//!
//! Each `Borrow` node contributes one loan; a call that binds a returned
//! reference contributes one loan per lent argument, all held by the
//! binding of the result.  A loan's region is not stored: it is derived
//! during analysis from where the loan can still reach and where its
//! holding binding is still live.

use crate::ast::{LoanKind, Op};
use crate::cfg::{Cfg, cfg_wf};
use crate::place::Place;
use vstd::prelude::*;

verus! {

/// One loan: the place lent out, the access it grants, the binding that
/// holds the resulting reference, and the node that created it.
pub struct Loan {
    pub place: Place,
    pub kind: LoanKind,
    pub dest: usize,
    pub node: usize,
}

/// The loan records what the operation lends: same place (by content),
/// same kind, and the binding that receives the reference.
pub open spec fn loan_from_op(l: Loan, op: Op) -> bool {
    match op {
        Op::Borrow { dst, place, kind } => {
            &&& l.dest == dst
            &&& l.kind == kind
            &&& l.place.base == place.base
            &&& l.place.path@ == place.path@
        },
        Op::Call { args, dst } => match dst {
            Some(r) => {
                &&& l.dest == r
                &&& exists|j: int|
                    0 <= j < args@.len() && (#[trigger] args@[j]).place.base == l.place.base
                        && args@[j].place.path@ == l.place.path@ && args@[j].kind == l.kind
            },
            None => false,
        },
        _ => false,
    }
}

/// Every loan of the table was created by the operation at its node.
pub open spec fn loans_from_cfg(loans: Seq<Loan>, c: Cfg) -> bool {
    forall|i: int|
        0 <= i < loans.len() ==> (#[trigger] loans[i]).node < c.ops@.len() && loan_from_op(
            loans[i],
            c.ops@[loans[i].node as int],
        )
}

/// The table holds the loan a `Call` at node `n` creates for argument `j`.
pub open spec fn call_loan_present(
    loans: Seq<Loan>,
    n: int,
    r: usize,
    args: Seq<crate::ast::CallArg>,
    j: int,
) -> bool {
    exists|i: int|
        0 <= i < loans.len() && (#[trigger] loans[i]).node == n && loans[i].dest == r
            && loans[i].place.base == args[j].place.base && loans[i].place.path@
            == args[j].place.path@ && loans[i].kind == args[j].kind
}

/// Nodes below `upto` have all their loans in the table.
pub open spec fn loans_cover_upto(loans: Seq<Loan>, c: Cfg, upto: int) -> bool {
    forall|n: int|
        0 <= n < upto ==> match #[trigger] c.ops@[n] {
            Op::Borrow { dst: _, place: _, kind: _ } => exists|i: int|
                0 <= i < loans.len() && (#[trigger] loans[i]).node == n,
            Op::Call { args, dst } => match dst {
                Some(r) => forall|j: int| 0 <= j < args@.len() ==> call_loan_present(loans, n, r, args@, j),
                None => true,
            },
            _ => true,
        }
}

/// Every borrow of the graph is in the table: a `Borrow` node contributes
/// its loan, and a call that binds a returned reference contributes one
/// loan per lent argument.
pub open spec fn loans_cover(loans: Seq<Loan>, c: Cfg) -> bool {
    loans_cover_upto(loans, c, c.ops@.len() as int)
}

/// Appending loans to the table never removes coverage.
proof fn lemma_cover_grows(c: Cfg, pre: Seq<Loan>, post: Seq<Loan>, upto: int)
    requires
        pre.len() <= post.len(),
        forall|i: int| 0 <= i < pre.len() ==> post[i] == pre[i],
        loans_cover_upto(pre, c, upto),
    ensures
        loans_cover_upto(post, c, upto),
{
    assert forall|n: int| 0 <= n < upto implies match #[trigger] c.ops@[n] {
        Op::Borrow { dst: _, place: _, kind: _ } => exists|i: int|
            0 <= i < post.len() && (#[trigger] post[i]).node == n,
        Op::Call { args, dst } => match dst {
            Some(r) => forall|j: int| 0 <= j < args@.len() ==> call_loan_present(post, n, r, args@, j),
            None => true,
        },
        _ => true,
    } by {
        match c.ops@[n] {
            Op::Borrow { dst: _, place: _, kind: _ } => {
                let i = choose|i: int| 0 <= i < pre.len() && (#[trigger] pre[i]).node == n;
                assert(post[i].node == n);
            },
            Op::Call { args, dst } => {
                match dst {
                    Some(r) => {
                        assert forall|j: int| 0 <= j < args@.len() implies call_loan_present(
                            post,
                            n,
                            r,
                            args@,
                            j,
                        ) by {
                            assert(call_loan_present(pre, n, r, args@, j));
                            let i = choose|i: int|
                                0 <= i < pre.len() && (#[trigger] pre[i]).node == n && pre[i].dest
                                    == r && pre[i].place.base == args@[j].place.base
                                    && pre[i].place.path@ == args@[j].place.path@ && pre[i].kind
                                    == args@[j].kind;
                            assert(post[i] == pre[i]);
                        }
                    },
                    None => {},
                }
            },
            _ => {},
        }
    }
}

/// Collects the loan table of a graph, in node order.
pub fn build_loans(cfg: &Cfg) -> (loans: Vec<Loan>)
    requires
        cfg_wf(*cfg),
    ensures
        loans_from_cfg(loans@, *cfg),
        loans_cover(loans@, *cfg),
{
    let mut loans: Vec<Loan> = Vec::new();
    let mut n: usize = 0;
    while n < cfg.ops.len()
        invariant
            loans_from_cfg(loans@, *cfg),
            n <= cfg.ops@.len(),
            loans_cover_upto(loans@, *cfg, n as int),
        decreases cfg.ops@.len() - n,
    {
        let ghost pre_node = loans@;
        match &cfg.ops[n] {
            Op::Borrow { dst, place, kind } => {
                loans.push(Loan { place: place.duplicate(), kind: *kind, dest: *dst, node: n });
                proof {
                    lemma_cover_grows(*cfg, pre_node, loans@, n as int);
                    assert(loans@[loans@.len() - 1].node == n as int);
                }
            },
            Op::Call { args, dst } => {
                match dst {
                    Some(r) => {
                        let mut j: usize = 0;
                        while j < args.len()
                            invariant
                                loans_from_cfg(loans@, *cfg),
                                j <= args@.len(),
                                n < cfg.ops@.len(),
                                cfg.ops@[n as int] == (Op::Call { args: *args, dst: Some(*r) }),
                                loans_cover_upto(loans@, *cfg, n as int),
                                forall|q: int|
                                    0 <= q < j ==> call_loan_present(
                                        loans@,
                                        n as int,
                                        *r,
                                        args@,
                                        q,
                                    ),
                            decreases args@.len() - j,
                        {
                            let ghost pre = loans@;
                            loans.push(
                                Loan {
                                    place: args[j].place.duplicate(),
                                    kind: args[j].kind,
                                    dest: *r,
                                    node: n,
                                },
                            );
                            proof {
                                let l = loans@.last();
                                assert(args@[j as int].place.base == l.place.base
                                    && args@[j as int].place.path@ == l.place.path@
                                    && args@[j as int].kind == l.kind);
                                lemma_cover_grows(*cfg, pre, loans@, n as int);
                                assert forall|q: int| 0 <= q < j + 1 implies call_loan_present(
                                    loans@,
                                    n as int,
                                    *r,
                                    args@,
                                    q,
                                ) by {
                                    if q < j {
                                        assert(call_loan_present(pre, n as int, *r, args@, q));
                                        let i = choose|i: int|
                                            0 <= i < pre.len() && (#[trigger] pre[i]).node
                                                == n as int && pre[i].dest == *r
                                                && pre[i].place.base == args@[q].place.base
                                                && pre[i].place.path@ == args@[q].place.path@
                                                && pre[i].kind == args@[q].kind;
                                        assert(loans@[i] == pre[i]);
                                        assert((loans@[i]).node == n as int && loans@[i].dest == *r
                                            && loans@[i].place.base == args@[q].place.base
                                            && loans@[i].place.path@ == args@[q].place.path@
                                            && loans@[i].kind == args@[q].kind);
                                    } else {
                                        let i = loans@.len() - 1;
                                        assert((loans@[i]).node == n as int && loans@[i].dest == *r
                                            && loans@[i].place.base == args@[q].place.base
                                            && loans@[i].place.path@ == args@[q].place.path@
                                            && loans@[i].kind == args@[q].kind);
                                    }
                                }
                            }
                            j += 1;
                        }
                    },
                    None => {},
                }
            },
            _ => {},
        }
        n += 1;
    }
    loans
}

} // verus!
