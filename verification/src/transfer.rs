//! The per-operation semantics of the analysis: how one operation changes
//! the ownership states and the reachable-loan set, which conditions it
//! must meet to pass silently, and which diagnostics it raises otherwise.
//!
//! The checking rules are the mutable-xor-shared discipline: a unique loan
//! tolerates no overlapping access at all, shared loans tolerate each
//! other; a place may be moved only while it owns its value and no
//! conflicting loan is live; only mutable bindings may be reassigned.

use crate::ast::{CallArg, LoanKind, Op};
use crate::diag::{AliasKind, DiagKind, Diagnostic};
use crate::loans::Loan;
use crate::place::{Place, conflicts, conflicts_spec};
use crate::state::{OwnState, move_free};
use vstd::prelude::*;

verus! {

/// `s` with entry `i` set to `v` (unchanged when `i` is out of range).
pub open spec fn upd(s: Seq<OwnState>, i: usize, v: OwnState) -> Seq<OwnState> {
    if i < s.len() {
        s.update(i as int, v)
    } else {
        s
    }
}

/// The operation (re)defines binding `v`: any value or reference `v` held
/// before it is gone after it.
pub open spec fn op_defs(op: Op, v: usize) -> bool {
    match op {
        Op::Init { var } => var == v,
        Op::Assign { var } => var == v,
        Op::MoveInto { dst, src: _ } => dst == v,
        Op::Borrow { dst, place: _, kind: _ } => dst == v,
        Op::Call { args: _, dst } => dst == Some(v),
        Op::EndScope { var } => var == v,
        _ => false,
    }
}

/// The operation reads binding `v` (through any place rooted at it).
/// These are the uses that keep a reference binding — and with it every
/// loan it holds — alive.
pub open spec fn op_uses(op: Op, v: usize) -> bool {
    match op {
        Op::MoveInto { dst: _, src } => src.base == v,
        Op::Borrow { dst: _, place, kind: _ } => place.base == v,
        Op::Read { place } => place.base == v,
        Op::Write { place } => place.base == v,
        Op::Call { args, dst: _ } => exists|i: int|
            0 <= i < args@.len() && (#[trigger] args@[i]).place.base == v,
        _ => false,
    }
}

/// The operation creates loans (recorded in the loan table at its node).
pub open spec fn gens_loans(op: Op) -> bool {
    match op {
        Op::Borrow { dst: _, place: _, kind: _ } => true,
        Op::Call { args: _, dst } => dst is Some,
        _ => false,
    }
}

/// Ownership states after the operation: initialization, reassignment and
/// the destination of a move become `Owned`; the source of a move becomes
/// `Moved`; a scope exit becomes `Uninit`; everything else is unchanged.
pub open spec fn own_after(op: Op, own: Seq<OwnState>) -> Seq<OwnState> {
    match op {
        Op::Init { var } => upd(own, var, OwnState::Owned),
        Op::Assign { var } => upd(own, var, OwnState::Owned),
        Op::MoveInto { dst, src } => upd(upd(own, src.base, OwnState::Moved), dst, OwnState::Owned),
        Op::Borrow { dst, place: _, kind: _ } => upd(own, dst, OwnState::Owned),
        Op::Call { args: _, dst } => match dst {
            Some(r) => upd(own, r, OwnState::Owned),
            None => own,
        },
        Op::EndScope { var } => upd(own, var, OwnState::Uninit),
        _ => own,
    }
}

/// Reachable loans after the operation at `node`: a loan is dropped when
/// its holding binding is redefined, and the loans the node itself creates
/// are added.
pub open spec fn reach_after(op: Op, node: usize, reach: Seq<bool>, loans: Seq<Loan>) -> Seq<
    bool,
> {
    Seq::new(
        reach.len(),
        |i: int|
            (reach[i] && !op_defs(op, loans[i].dest)) || (gens_loans(op) && loans[i].node == node),
    )
}

/// Loan `i` is active at a point: it still reaches the point, and the
/// binding holding its reference is still live there — its region, in
/// other words, covers the point.
pub open spec fn loan_active(reach: Seq<bool>, live: Seq<bool>, loans: Seq<Loan>, i: int) -> bool {
    &&& 0 <= i < loans.len()
    &&& i < reach.len()
    &&& reach[i]
    &&& loans[i].dest < live.len()
    &&& live[loans[i].dest as int]
}

/// One argument pair of a call may coexist.
pub open spec fn pair_ok(args: Seq<CallArg>, a: int, b: int) -> bool {
    !(conflicts_spec(args[a].place, args[b].place) && (args[a].kind == LoanKind::Unique
        || args[b].kind == LoanKind::Unique))
}

/// The first `j` arguments of a call all borrow owned places.
pub open spec fn call_args_own_ok(args: Seq<CallArg>, own: Seq<OwnState>, j: int) -> bool {
    forall|a: int|
        0 <= a < j ==> (#[trigger] args[a]).place.base < own.len() && own[args[a].place.base as int]
            == OwnState::Owned
}

/// The first `j` arguments of a call collide with no active loan.
pub open spec fn call_args_no_conflict(
    args: Seq<CallArg>,
    reach: Seq<bool>,
    live: Seq<bool>,
    loans: Seq<Loan>,
    j: int,
) -> bool {
    forall|a: int|
        0 <= a < j ==> no_access_conflict(
            (#[trigger] args[a]).place,
            args[a].kind == LoanKind::Unique,
            reach,
            live,
            loans,
        )
}

/// Every argument pair whose later member is below `b` may coexist.
pub open spec fn pairs_ok_upto(args: Seq<CallArg>, b: int) -> bool {
    forall|x: int, y: int| 0 <= x < y < b ==> pair_ok(args, x, y)
}

/// The ownership-state side of the checks: what the operation demands of
/// the current states, exactly.  Moves and plain accesses are rejected on
/// a moved (or maybe-moved) place; borrows demand full ownership, so they
/// are also rejected on an uninitialized place.  A plain read of an
/// uninitialized place raises nothing: the input contract has every
/// identifier resolved and initialized before use, and the taxonomy has
/// no kind for it.
pub open spec fn own_ok(op: Op, muta: Seq<bool>, own: Seq<OwnState>) -> bool {
    match op {
        Op::Assign { var } => var < muta.len() && muta[var as int],
        Op::MoveInto { dst: _, src } => src.base < own.len() && move_free(own[src.base as int]),
        Op::Borrow { dst: _, place, kind: _ } => place.base < own.len() && own[place.base as int]
            == OwnState::Owned,
        Op::Read { place } => place.base < own.len() && move_free(own[place.base as int]),
        Op::Write { place } => place.base < own.len() && move_free(own[place.base as int]),
        Op::Call { args, dst: _ } => call_args_own_ok(args@, own, args@.len() as int),
        _ => true,
    }
}

/// An access of `p` (write or read) collides with loan `l`: the places
/// overlap, and at least one side needs unique access.
pub open spec fn access_clash(p: Place, is_write: bool, l: Loan) -> bool {
    conflicts_spec(p, l.place) && (is_write || l.kind == LoanKind::Unique)
}

/// No active loan collides with an access of `p`.
pub open spec fn no_access_conflict(
    p: Place,
    is_write: bool,
    reach: Seq<bool>,
    live: Seq<bool>,
    loans: Seq<Loan>,
) -> bool {
    forall|i: int|
        loan_active(reach, live, loans, i) ==> !access_clash(p, is_write, #[trigger] loans[i])
}

/// The arguments of one call may coexist: no two of them overlap unless
/// both are shared.
pub open spec fn args_pairwise_ok(args: Seq<CallArg>) -> bool {
    pairs_ok_upto(args, args.len() as int)
}

/// The loan side of the checks: what the operation demands of the active
/// loans, exactly.  A reassignment writes the whole binding, so it clashes
/// with every active loan rooted at it; a move tolerates no conflicting
/// active loan of either kind; reads, writes and new loans follow
/// `access_clash`; a call also checks its arguments against each other.
pub open spec fn no_conflict(op: Op, reach: Seq<bool>, live: Seq<bool>, loans: Seq<Loan>) -> bool {
    match op {
        Op::Assign { var } => forall|i: int|
            loan_active(reach, live, loans, i) ==> (#[trigger] loans[i]).place.base != var,
        Op::MoveInto { dst: _, src } => forall|i: int|
            loan_active(reach, live, loans, i) ==> !conflicts_spec(src, (#[trigger] loans[i]).place),
        Op::Borrow { dst: _, place, kind } => no_access_conflict(
            place,
            kind == LoanKind::Unique,
            reach,
            live,
            loans,
        ),
        Op::Read { place } => no_access_conflict(place, false, reach, live, loans),
        Op::Write { place } => no_access_conflict(place, true, reach, live, loans),
        Op::Call { args, dst: _ } => {
            &&& call_args_no_conflict(args@, reach, live, loans, args@.len() as int)
            &&& args_pairwise_ok(args@)
        },
        _ => true,
    }
}

/// How an aliasing violation is classified, from the offending access and
/// the kind of the loan it collides with.
pub open spec fn alias_kind_spec(write_access: bool, lk: LoanKind) -> AliasKind {
    if write_access {
        if lk == LoanKind::Unique {
            AliasKind::WriteWhileWrite
        } else {
            AliasKind::WriteWhileRead
        }
    } else {
        AliasKind::ReadWhileWrite
    }
}

fn alias_kind(write_access: bool, lk: LoanKind) -> (r: AliasKind)
    ensures
        r == alias_kind_spec(write_access, lk),
{
    if write_access {
        if lk == LoanKind::Unique {
            AliasKind::WriteWhileWrite
        } else {
            AliasKind::WriteWhileRead
        }
    } else {
        AliasKind::ReadWhileWrite
    }
}

/// Whether the operation (re)defines binding `v`.
pub fn op_defs_exec(op: &Op, v: usize) -> (r: bool)
    ensures
        r == op_defs(*op, v),
{
    match op {
        Op::Init { var } => *var == v,
        Op::Assign { var } => *var == v,
        Op::MoveInto { dst, src: _ } => *dst == v,
        Op::Borrow { dst, place: _, kind: _ } => *dst == v,
        Op::Call { args: _, dst } => match dst {
            Some(r) => *r == v,
            None => false,
        },
        Op::EndScope { var } => *var == v,
        _ => false,
    }
}

/// Whether the operation reads binding `v`.
pub fn op_uses_exec(op: &Op, v: usize) -> (r: bool)
    ensures
        r == op_uses(*op, v),
{
    match op {
        Op::MoveInto { dst: _, src } => src.base == v,
        Op::Borrow { dst: _, place, kind: _ } => place.base == v,
        Op::Read { place } => place.base == v,
        Op::Write { place } => place.base == v,
        Op::Call { args, dst: _ } => {
            let mut i: usize = 0;
            let mut found = false;
            while i < args.len()
                invariant
                    i <= args@.len(),
                    found == exists|k: int|
                        0 <= k < i && (#[trigger] args@[k]).place.base == v,
                decreases args@.len() - i,
            {
                if args[i].place.base == v {
                    found = true;
                }
                i += 1;
            }
            found
        },
        _ => false,
    }
}

/// Applies one operation to the dataflow state: the transfer function of
/// the analysis.
pub fn apply_op(
    op: &Op,
    node: usize,
    own: &mut Vec<OwnState>,
    reach: &mut Vec<bool>,
    loans: &Vec<Loan>,
)
    requires
        crate::ast::op_wf(*op, old(own)@.len() as nat),
        old(reach)@.len() == loans@.len(),
    ensures
        final(own)@ == own_after(*op, old(own)@),
        final(reach)@ == reach_after(*op, node, old(reach)@, loans@),
{
    let ghost reach0 = reach@;
    let g = match op {
        Op::Borrow { dst: _, place: _, kind: _ } => true,
        Op::Call { args: _, dst } => dst.is_some(),
        _ => false,
    };
    assert(g == gens_loans(*op));
    let mut updated: Vec<bool> = Vec::new();
    let mut i: usize = 0;
    while i < reach.len()
        invariant
            reach@ == reach0,
            reach@.len() == loans@.len(),
            i <= reach@.len(),
            updated@.len() == i,
            forall|k: int|
                0 <= k < i ==> updated@[k] == ((reach0[k] && !op_defs(*op, loans@[k].dest)) || (
                gens_loans(*op) && loans@[k].node == node)),
            g == gens_loans(*op),
        decreases reach@.len() - i,
    {
        let d = op_defs_exec(op, loans[i].dest);
        let val = (reach[i] && !d) || (g && loans[i].node == node);
        updated.push(val);
        i += 1;
    }
    *reach = updated;
    proof {
        let after = reach_after(*op, node, reach0, loans@);
        assert(after.len() == reach0.len());
        assert forall|k: int| 0 <= k < reach@.len() implies reach@[k] == after[k] by {
            assert(after[k] == ((reach0[k] && !op_defs(*op, loans@[k].dest)) || (gens_loans(*op)
                && loans@[k].node == node)));
        }
        assert(reach@ =~= after);
    }
    match op {
        Op::Init { var } => {
            own.set(*var, OwnState::Owned);
        },
        Op::Assign { var } => {
            own.set(*var, OwnState::Owned);
        },
        Op::MoveInto { dst, src } => {
            own.set(src.base, OwnState::Moved);
            own.set(*dst, OwnState::Owned);
        },
        Op::Borrow { dst, place: _, kind: _ } => {
            own.set(*dst, OwnState::Owned);
        },
        Op::Call { args: _, dst } => {
            match dst {
                Some(r) => {
                    own.set(*r, OwnState::Owned);
                },
                None => {},
            }
        },
        Op::EndScope { var } => {
            own.set(*var, OwnState::Uninit);
        },
        _ => {},
    }
}

/// Scans the active loans for collisions with one access of `p` and
/// appends an aliasing diagnostic for each collision found.  Appends
/// nothing exactly when the access conflicts with no active loan.
fn check_access(
    p: &Place,
    is_write: bool,
    node: usize,
    reach: &Vec<bool>,
    live: &Vec<bool>,
    loans: &Vec<Loan>,
    ds: &mut Vec<Diagnostic>,
)
    requires
        reach@.len() == loans@.len(),
    ensures
        final(ds)@.len() >= old(ds)@.len(),
        forall|k: int| 0 <= k < old(ds)@.len() ==> final(ds)@[k] == old(ds)@[k],
        (final(ds)@.len() == old(ds)@.len()) == no_access_conflict(
            *p,
            is_write,
            reach@,
            live@,
            loans@,
        ),
        forall|k: int|
            old(ds)@.len() <= k < final(ds)@.len() ==> (#[trigger] final(ds)@[k]).point == node && (
            final(ds)@[k].kind matches DiagKind::Aliasing(_)) && (is_write || exists|i: int|
                loan_active(reach@, live@, loans@, i) && (#[trigger] loans@[i]).kind
                    == LoanKind::Unique),
        forall|k: int|
            old(ds)@.len() <= k < final(ds)@.len() ==> exists|i: int|
                loan_active(reach@, live@, loans@, i) && access_clash(
                    *p,
                    is_write,
                    #[trigger] loans@[i],
                ) && (#[trigger] final(ds)@[k]).related == Some(loans@[i].node),
{
    let ghost len0 = ds@.len();
    let mut i: usize = 0;
    while i < loans.len()
        invariant
            reach@.len() == loans@.len(),
            i <= loans@.len(),
            ds@.len() >= len0,
            forall|k: int| 0 <= k < len0 ==> ds@[k] == old(ds)@[k],
            (ds@.len() == len0) == (forall|t: int|
                0 <= t < i ==> !(loan_active(reach@, live@, loans@, t) && access_clash(
                    *p,
                    is_write,
                    #[trigger] loans@[t],
                ))),
            forall|k: int|
                len0 <= k < ds@.len() ==> (#[trigger] ds@[k]).point == node && (ds@[k].kind
                    matches DiagKind::Aliasing(_)) && (is_write || exists|t: int|
                    loan_active(reach@, live@, loans@, t) && (#[trigger] loans@[t]).kind
                        == LoanKind::Unique),
            forall|k: int|
                len0 <= k < ds@.len() ==> exists|t: int|
                    loan_active(reach@, live@, loans@, t) && access_clash(
                        *p,
                        is_write,
                        #[trigger] loans@[t],
                    ) && (#[trigger] ds@[k]).related == Some(loans@[t].node),
        decreases loans@.len() - i,
    {
        let active = reach[i] && loans[i].dest < live.len() && live[loans[i].dest];
        if active {
            let clash = conflicts(p, &loans[i].place) && (is_write || loans[i].kind
                == LoanKind::Unique);
            if clash {
                ds.push(
                    Diagnostic {
                        kind: DiagKind::Aliasing(alias_kind(is_write, loans[i].kind)),
                        place: p.duplicate(),
                        point: node,
                        related: Some(loans[i].node),
                    },
                );
                proof {
                    assert(loan_active(reach@, live@, loans@, i as int));
                }
            }
        }
        i += 1;
    }
}

/// Scans the active loans for conflicts with moving `src` out and appends
/// a `MoveWhileBorrowed` diagnostic for each.  Appends nothing exactly
/// when no active loan conflicts with `src`.
fn check_move(
    src: &Place,
    node: usize,
    reach: &Vec<bool>,
    live: &Vec<bool>,
    loans: &Vec<Loan>,
    ds: &mut Vec<Diagnostic>,
)
    requires
        reach@.len() == loans@.len(),
    ensures
        final(ds)@.len() >= old(ds)@.len(),
        forall|k: int| 0 <= k < old(ds)@.len() ==> final(ds)@[k] == old(ds)@[k],
        (final(ds)@.len() == old(ds)@.len()) == (forall|i: int|
            loan_active(reach@, live@, loans@, i) ==> !conflicts_spec(
                *src,
                (#[trigger] loans@[i]).place,
            )),
        forall|k: int|
            old(ds)@.len() <= k < final(ds)@.len() ==> (#[trigger] final(ds)@[k]).point == node
                && final(ds)@[k].kind == DiagKind::MoveWhileBorrowed,
{
    let ghost len0 = ds@.len();
    let mut i: usize = 0;
    while i < loans.len()
        invariant
            reach@.len() == loans@.len(),
            i <= loans@.len(),
            ds@.len() >= len0,
            forall|k: int| 0 <= k < len0 ==> ds@[k] == old(ds)@[k],
            (ds@.len() == len0) == (forall|t: int|
                0 <= t < i ==> !(loan_active(reach@, live@, loans@, t) && conflicts_spec(
                    *src,
                    (#[trigger] loans@[t]).place,
                ))),
            forall|k: int|
                len0 <= k < ds@.len() ==> (#[trigger] ds@[k]).point == node && ds@[k].kind
                    == DiagKind::MoveWhileBorrowed,
        decreases loans@.len() - i,
    {
        let active = reach[i] && loans[i].dest < live.len() && live[loans[i].dest];
        if active && conflicts(src, &loans[i].place) {
            ds.push(
                Diagnostic {
                    kind: DiagKind::MoveWhileBorrowed,
                    place: src.duplicate(),
                    point: node,
                    related: Some(loans[i].node),
                },
            );
            proof {
                assert(loan_active(reach@, live@, loans@, i as int));
            }
        }
        i += 1;
    }
}

/// Checks the arguments of one call: each place lent must be owned, each
/// collides with no active loan, and the arguments must tolerate each
/// other pairwise.  Appends one diagnostic per violation to an initially
/// empty list.
fn check_call(
    args: &Vec<CallArg>,
    node: usize,
    own: &Vec<OwnState>,
    reach: &Vec<bool>,
    live: &Vec<bool>,
    loans: &Vec<Loan>,
    ds: &mut Vec<Diagnostic>,
)
    requires
        reach@.len() == loans@.len(),
        forall|a: int| 0 <= a < args@.len() ==> (#[trigger] args@[a]).place.base < own@.len(),
        old(ds)@.len() == 0,
    ensures
        (final(ds)@.len() == 0) == (call_args_own_ok(args@, own@, args@.len() as int)
            && call_args_no_conflict(args@, reach@, live@, loans@, args@.len() as int)
            && args_pairwise_ok(args@)),
        forall|k: int| 0 <= k < final(ds)@.len() ==> (#[trigger] final(ds)@[k]).point == node,
        forall|k: int|
            0 <= k < final(ds)@.len() ==> (((#[trigger] final(ds)@[k]).kind
                matches DiagKind::Aliasing(_)) ==> (exists|a: int|
                0 <= a < args@.len() && (#[trigger] args@[a]).kind == LoanKind::Unique) || exists|
                i: int,
            |
                loan_active(reach@, live@, loans@, i) && (#[trigger] loans@[i]).kind
                    == LoanKind::Unique),
{
    let mut j: usize = 0;
    while j < args.len()
        invariant
            reach@.len() == loans@.len(),
            forall|a: int| 0 <= a < args@.len() ==> (#[trigger] args@[a]).place.base < own@.len(),
            j <= args@.len(),
            (ds@.len() == 0) == (call_args_own_ok(args@, own@, j as int) && call_args_no_conflict(
                args@,
                reach@,
                live@,
                loans@,
                j as int,
            )),
            forall|k: int| 0 <= k < ds@.len() ==> (#[trigger] ds@[k]).point == node,
            forall|k: int|
                0 <= k < ds@.len() ==> (((#[trigger] ds@[k]).kind matches DiagKind::Aliasing(_))
                    ==> (exists|a: int|
                    0 <= a < args@.len() && (#[trigger] args@[a]).kind == LoanKind::Unique)
                    || exists|i: int|
                    loan_active(reach@, live@, loans@, i) && (#[trigger] loans@[i]).kind
                        == LoanKind::Unique),
        decreases args@.len() - j,
    {
        let base = args[j].place.base;
        if !matches!(own[base], OwnState::Owned) {
            ds.push(
                Diagnostic {
                    kind: DiagKind::BorrowOfMovedOrUninit,
                    place: args[j].place.duplicate(),
                    point: node,
                    related: None,
                },
            );
        }
        let uniq = matches!(args[j].kind, LoanKind::Unique);
        check_access(&args[j].place, uniq, node, reach, live, loans, ds);
        j += 1;
    }
    let mut b: usize = 0;
    while b < args.len()
        invariant
            reach@.len() == loans@.len(),
            b <= args@.len(),
            (ds@.len() == 0) == (call_args_own_ok(args@, own@, args@.len() as int)
                && call_args_no_conflict(args@, reach@, live@, loans@, args@.len() as int)
                && pairs_ok_upto(args@, b as int)),
            forall|k: int| 0 <= k < ds@.len() ==> (#[trigger] ds@[k]).point == node,
            forall|k: int|
                0 <= k < ds@.len() ==> (((#[trigger] ds@[k]).kind matches DiagKind::Aliasing(_))
                    ==> (exists|a: int|
                    0 <= a < args@.len() && (#[trigger] args@[a]).kind == LoanKind::Unique)
                    || exists|i: int|
                    loan_active(reach@, live@, loans@, i) && (#[trigger] loans@[i]).kind
                        == LoanKind::Unique),
        decreases args@.len() - b,
    {
        let mut a: usize = 0;
        while a < b
            invariant
                reach@.len() == loans@.len(),
                a <= b < args@.len(),
                (ds@.len() == 0) == (call_args_own_ok(args@, own@, args@.len() as int)
                    && call_args_no_conflict(args@, reach@, live@, loans@, args@.len() as int)
                    && pairs_ok_upto(args@, b as int) && (forall|x: int|
                    0 <= x < a ==> pair_ok(args@, x, b as int))),
                forall|k: int| 0 <= k < ds@.len() ==> (#[trigger] ds@[k]).point == node,
                forall|k: int|
                    0 <= k < ds@.len() ==> (((#[trigger] ds@[k]).kind matches DiagKind::Aliasing(_))
                        ==> (exists|a2: int|
                        0 <= a2 < args@.len() && (#[trigger] args@[a2]).kind == LoanKind::Unique)
                        || exists|i: int|
                        loan_active(reach@, live@, loans@, i) && (#[trigger] loans@[i]).kind
                            == LoanKind::Unique),
            decreases b - a,
        {
            let ua = matches!(args[a].kind, LoanKind::Unique);
            let ub = matches!(args[b].kind, LoanKind::Unique);
            if (ua || ub) && conflicts(&args[a].place, &args[b].place) {
                ds.push(
                    Diagnostic {
                        kind: DiagKind::Aliasing(alias_kind(ub, args[a].kind)),
                        place: args[b].place.duplicate(),
                        point: node,
                        related: Some(node),
                    },
                );
                proof {
                    assert(!pair_ok(args@, a as int, b as int));
                }
            }
            a += 1;
        }
        b += 1;
    }
}

/// Computes the diagnostics one operation raises against the state it
/// executes in: the checking rules of the analysis.  The returned sequence
/// is empty exactly when the operation respects both the ownership states
/// and the active loans; every diagnostic points at this node; and an
/// aliasing diagnostic arises only from an operation that takes unique
/// access somewhere, or from an active unique loan.
#[verifier::rlimit(60)]
pub fn diags_op(
    op: &Op,
    node: usize,
    own: &Vec<OwnState>,
    reach: &Vec<bool>,
    live: &Vec<bool>,
    loans: &Vec<Loan>,
    muta: &Vec<bool>,
) -> (ds: Vec<Diagnostic>)
    requires
        own@.len() == muta@.len(),
        reach@.len() == loans@.len(),
        crate::ast::op_wf(*op, own@.len() as nat),
    ensures
        (ds@.len() == 0) == (own_ok(*op, muta@, own@) && no_conflict(*op, reach@, live@, loans@)),
        forall|k: int| 0 <= k < ds@.len() ==> (#[trigger] ds@[k]).point == node,
        forall|k: int|
            0 <= k < ds@.len() ==> (((#[trigger] ds@[k]).kind matches DiagKind::Aliasing(_))
                ==> !crate::ast::op_read_only(*op) || exists|i: int|
                loan_active(reach@, live@, loans@, i) && (#[trigger] loans@[i]).kind
                    == LoanKind::Unique),
        *op matches Op::Assign { var } ==> (!muta@[var as int] ==> ds@.len() > 0 && ds@[0].kind
            == DiagKind::AssignToImmutable && ds@[0].place.base == var),
        *op matches Op::MoveInto { dst: _, src } ==> (!move_free(own@[src.base as int])
            ==> ds@.len() > 0 && ds@[0].kind == DiagKind::UseAfterMove && ds@[0].place.base
            == src.base),
        *op matches Op::Borrow { dst: _, place, kind: _ } ==> (own@[place.base as int]
            != OwnState::Owned ==> ds@.len() > 0 && ds@[0].kind == DiagKind::BorrowOfMovedOrUninit
            && ds@[0].place.base == place.base),
        *op matches Op::Read { place } ==> (!move_free(own@[place.base as int]) ==> ds@.len() > 0
            && ds@[0].kind == DiagKind::UseAfterMove && ds@[0].place.base == place.base),
        *op matches Op::Write { place } ==> (!move_free(own@[place.base as int]) ==> ds@.len() > 0
            && ds@[0].kind == DiagKind::UseAfterMove && ds@[0].place.base == place.base),
        forall|k: int|
            0 <= k < ds@.len() ==> (((#[trigger] ds@[k]).kind matches DiagKind::Aliasing(_))
                ==> match *op {
                Op::Borrow { dst: _, place, kind: _ } => exists|i: int|
                    loan_active(reach@, live@, loans@, i) && conflicts_spec(
                        place,
                        (#[trigger] loans@[i]).place,
                    ) && ds@[k].related == Some(loans@[i].node),
                Op::Read { place } => exists|i: int|
                    loan_active(reach@, live@, loans@, i) && conflicts_spec(
                        place,
                        (#[trigger] loans@[i]).place,
                    ) && ds@[k].related == Some(loans@[i].node),
                Op::Write { place } => exists|i: int|
                    loan_active(reach@, live@, loans@, i) && conflicts_spec(
                        place,
                        (#[trigger] loans@[i]).place,
                    ) && ds@[k].related == Some(loans@[i].node),
                _ => true,
            }),
{
    let mut ds: Vec<Diagnostic> = Vec::new();
    match op {
        Op::Init { var: _ } => {},
        Op::Skip => {},
        Op::EndScope { var: _ } => {},
        Op::Assign { var } => {
            if !muta[*var] {
                ds.push(
                    Diagnostic {
                        kind: DiagKind::AssignToImmutable,
                        place: Place::var(*var),
                        point: node,
                        related: None,
                    },
                );
            }
            let p = Place::var(*var);
            proof {
                assert(forall|l: Loan|
                    access_clash(p, true, l) == ((#[trigger] l.place).base == *var));
            }
            check_access(&p, true, node, reach, live, loans, &mut ds);
        },
        Op::MoveInto { dst: _, src } => {
            if !(matches!(own[src.base], OwnState::Owned) || matches!(
                own[src.base],
                OwnState::Uninit,
            )) {
                ds.push(
                    Diagnostic {
                        kind: DiagKind::UseAfterMove,
                        place: src.duplicate(),
                        point: node,
                        related: None,
                    },
                );
            }
            check_move(src, node, reach, live, loans, &mut ds);
        },
        Op::Borrow { dst: _, place, kind } => {
            if !matches!(own[place.base], OwnState::Owned) {
                ds.push(
                    Diagnostic {
                        kind: DiagKind::BorrowOfMovedOrUninit,
                        place: place.duplicate(),
                        point: node,
                        related: None,
                    },
                );
            }
            check_access(place, matches!(kind, LoanKind::Unique), node, reach, live, loans, &mut ds);
        },
        Op::Read { place } => {
            if !(matches!(own[place.base], OwnState::Owned) || matches!(
                own[place.base],
                OwnState::Uninit,
            )) {
                ds.push(
                    Diagnostic {
                        kind: DiagKind::UseAfterMove,
                        place: place.duplicate(),
                        point: node,
                        related: None,
                    },
                );
            }
            check_access(place, false, node, reach, live, loans, &mut ds);
        },
        Op::Write { place } => {
            if !(matches!(own[place.base], OwnState::Owned) || matches!(
                own[place.base],
                OwnState::Uninit,
            )) {
                ds.push(
                    Diagnostic {
                        kind: DiagKind::UseAfterMove,
                        place: place.duplicate(),
                        point: node,
                        related: None,
                    },
                );
            }
            check_access(place, true, node, reach, live, loans, &mut ds);
        },
        Op::Call { args, dst } => {
            proof {
                assert(*op == (Op::Call { args: *args, dst: *dst }));
            }
            check_call(args, node, own, reach, live, loans, &mut ds);
            proof {
                if exists|a: int| 0 <= a < args@.len() && (#[trigger] args@[a]).kind
                    == LoanKind::Unique {
                    assert(!crate::ast::op_read_only(*op));
                }
            }
        },
    }
    ds
}


/// A quiet operation (no borrow, no move, no call, assignment only to a
/// mutable binding) keeps the state move-free and creates no loan.
pub proof fn lemma_quiet_transfer(
    op: Op,
    node: usize,
    own: Seq<OwnState>,
    reach: Seq<bool>,
    loans: Seq<Loan>,
    muta: Seq<bool>,
)
    requires
        crate::ast::op_quiet(op, muta),
        crate::state::own_all_move_free(own),
        crate::state::reach_all_false(reach),
    ensures
        crate::state::own_all_move_free(own_after(op, own)),
        crate::state::reach_all_false(reach_after(op, node, reach, loans)),
{
    assert forall|v: int| 0 <= v < own_after(op, own).len() implies move_free(
        #[trigger] own_after(op, own)[v],
    ) by {
        assert(move_free(own[v]));
    }
    assert forall|i: int| 0 <= i < reach_after(op, node, reach, loans).len() implies !(
    #[trigger] reach_after(op, node, reach, loans)[i]) by {
        assert(!reach[i]);
    }
}

/// A quiet operation raises nothing against a move-free state with no
/// reachable loan: the silence half of the soundness floor.
pub proof fn lemma_quiet_op_clean(
    op: Op,
    muta: Seq<bool>,
    own: Seq<OwnState>,
    reach: Seq<bool>,
    live: Seq<bool>,
    loans: Seq<Loan>,
)
    requires
        crate::ast::op_quiet(op, muta),
        crate::ast::op_wf(op, own.len() as nat),
        crate::state::own_all_move_free(own),
        crate::state::reach_all_false(reach),
    ensures
        own_ok(op, muta, own),
        no_conflict(op, reach, live, loans),
{
    assert forall|i: int| !loan_active(reach, live, loans, i) by {
        if 0 <= i < reach.len() {
            assert(!reach[i]);
        }
    }
    match op {
        Op::Read { place } => {
            assert(move_free(own[place.base as int]));
        },
        Op::Write { place } => {
            assert(move_free(own[place.base as int]));
        },
        _ => {},
    }
}

/// An active unique loan blocks every overlapping operation: whichever of
/// a write, a read, a move or a new loan touches a conflicting place while
/// a unique loan is active, the conflict check fails.
pub proof fn lemma_active_unique_loan_blocks(
    op: Op,
    reach: Seq<bool>,
    live: Seq<bool>,
    loans: Seq<Loan>,
    i: int,
)
    requires
        loan_active(reach, live, loans, i),
        loans[i].kind == LoanKind::Unique,
        match op {
            Op::Assign { var } => loans[i].place.base == var,
            Op::MoveInto { dst: _, src } => conflicts_spec(src, loans[i].place),
            Op::Borrow { dst: _, place, kind: _ } => conflicts_spec(place, loans[i].place),
            Op::Read { place } => conflicts_spec(place, loans[i].place),
            Op::Write { place } => conflicts_spec(place, loans[i].place),
            _ => false,
        },
    ensures
        !no_conflict(op, reach, live, loans),
{
}

/// Reassigning a mutable binding restores ownership: after a move out of
/// it and a later reassignment, reading it passes the ownership checks
/// again.
pub proof fn lemma_move_then_reassign_clears(
    own: Seq<OwnState>,
    muta: Seq<bool>,
    dst: usize,
    src: Place,
    p: Place,
)
    requires
        src.base < own.len(),
        dst < own.len(),
        dst != src.base,
        p.base == src.base,
    ensures
        own_after(Op::MoveInto { dst, src }, own)[src.base as int] == OwnState::Moved,
        own_after(
            Op::Assign { var: src.base },
            own_after(Op::MoveInto { dst, src }, own),
        )[src.base as int] == OwnState::Owned,
        own_ok(
            Op::Read { place: p },
            muta,
            own_after(Op::Assign { var: src.base }, own_after(Op::MoveInto { dst, src }, own)),
        ),
{
}


/// A loan whose holding binding is not live is not active: past the last
/// use of the reference, the loan blocks nothing.  Together with the
/// liveness bound on unread bindings, this is why truncating a region at
/// its last use silences every conflict after that point.
pub proof fn lemma_dead_holder_loan_inactive(
    reach: Seq<bool>,
    live: Seq<bool>,
    loans: Seq<Loan>,
    i: int,
)
    requires
        0 <= i < loans.len(),
        loans[i].dest < live.len() ==> !live[loans[i].dest as int],
    ensures
        !loan_active(reach, live, loans, i),
{
}

} // verus!
