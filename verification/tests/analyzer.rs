//! End-to-end checks of the analyzer on small programs: clean programs,
//! each violation kind, last-use truncation of loan regions, and the
//! branch join.

use borrowck::analyze::analyze;
use borrowck::ast::{Ast, CallArg, FnDef, LoanKind, Op};
use borrowck::diag::{AliasKind, DiagKind, Diagnostic};
use borrowck::place::{PathStep, Place};

fn var(v: usize) -> Place {
    Place::var(v)
}

fn idx(v: usize) -> Place {
    Place::var(v).project(PathStep::Index)
}

fn field(v: usize, f: usize) -> Place {
    Place::var(v).project(PathStep::Field(f))
}

fn chain(mut stmts: Vec<Ast>) -> Ast {
    let mut body = stmts.pop().expect("a program needs at least one statement");
    while let Some(s) = stmts.pop() {
        body = Ast::Sequence(Box::new(s), Box::new(body));
    }
    body
}

fn straight(n_vars: usize, muta: Vec<bool>, ops: Vec<Op>) -> FnDef {
    let stmts: Vec<Ast> = ops.into_iter().map(Ast::Stmt).collect();
    FnDef { n_vars, muta, body: chain(stmts) }
}

fn run(f: FnDef) -> Vec<Diagnostic> {
    analyze(f).expect("the fixed point of these small programs is reached")
}

fn kinds(ds: &[Diagnostic]) -> Vec<DiagKind> {
    ds.iter().map(|d| d.kind).collect()
}

#[test]
fn shared_loans_read_after_mutation_conflict() {
    // let mut v = ...; let r1 = &v[0]; let r2 = &v[1]; v.push(..); read r1; read r2
    let ds = run(straight(
        3,
        vec![true, false, false],
        vec![
            Op::Init { var: 0 },
            Op::Borrow { dst: 1, place: idx(0), kind: LoanKind::Shared },
            Op::Borrow { dst: 2, place: idx(0), kind: LoanKind::Shared },
            Op::Write { place: var(0) },
            Op::Read { place: var(1) },
            Op::Read { place: var(2) },
        ],
    ));
    assert_eq!(
        kinds(&ds),
        vec![
            DiagKind::Aliasing(AliasKind::WriteWhileRead),
            DiagKind::Aliasing(AliasKind::WriteWhileRead),
        ]
    );
    assert_eq!(ds[0].point, 4);
    assert_eq!(ds[0].related, Some(2));
    assert_eq!(ds[1].related, Some(3));
}

#[test]
fn unused_loans_do_not_block_mutation() {
    // Same borrows, but the references are never read: regions are empty.
    let ds = run(straight(
        3,
        vec![true, false, false],
        vec![
            Op::Init { var: 0 },
            Op::Borrow { dst: 1, place: idx(0), kind: LoanKind::Shared },
            Op::Borrow { dst: 2, place: idx(0), kind: LoanKind::Shared },
            Op::Write { place: var(0) },
        ],
    ));
    assert!(ds.is_empty());
}

#[test]
fn loans_used_before_mutation_do_not_block_it() {
    // Reads happen before the push: both regions end at their last use.
    let ds = run(straight(
        3,
        vec![true, false, false],
        vec![
            Op::Init { var: 0 },
            Op::Borrow { dst: 1, place: idx(0), kind: LoanKind::Shared },
            Op::Borrow { dst: 2, place: idx(0), kind: LoanKind::Shared },
            Op::Read { place: var(1) },
            Op::Read { place: var(2) },
            Op::Write { place: var(0) },
        ],
    ));
    assert!(ds.is_empty());
}

#[test]
fn call_loans_end_at_return() {
    // borrow_fn(&v[0], &v[1]); v.push(..): nothing outlives the call.
    let ds = run(straight(
        1,
        vec![true],
        vec![
            Op::Init { var: 0 },
            Op::Call {
                args: vec![
                    CallArg { place: idx(0), kind: LoanKind::Shared },
                    CallArg { place: idx(0), kind: LoanKind::Shared },
                ],
                dst: None,
            },
            Op::Write { place: var(0) },
        ],
    ));
    assert!(ds.is_empty());
}

#[test]
fn call_result_extends_loans_to_its_last_use() {
    // let r = borrow_fn(&v[0], &v[1]); v.push(..); read r
    let ds = run(straight(
        2,
        vec![true, false],
        vec![
            Op::Init { var: 0 },
            Op::Call {
                args: vec![
                    CallArg { place: idx(0), kind: LoanKind::Shared },
                    CallArg { place: idx(0), kind: LoanKind::Shared },
                ],
                dst: Some(1),
            },
            Op::Write { place: var(0) },
            Op::Read { place: var(1) },
        ],
    ));
    assert_eq!(
        kinds(&ds),
        vec![
            DiagKind::Aliasing(AliasKind::WriteWhileRead),
            DiagKind::Aliasing(AliasKind::WriteWhileRead),
        ]
    );
    assert_eq!(ds[0].point, 3);
    assert_eq!(ds[0].related, Some(2));
}

#[test]
fn unique_and_shared_loans_both_block_the_push() {
    // let r1 = &mut v[0]; let r2 = &v[1]; v.push(..); read both
    let ds = run(straight(
        3,
        vec![true, false, false],
        vec![
            Op::Init { var: 0 },
            Op::Borrow { dst: 1, place: idx(0), kind: LoanKind::Unique },
            Op::Borrow { dst: 2, place: idx(0), kind: LoanKind::Shared },
            Op::Write { place: var(0) },
            Op::Read { place: var(1) },
            Op::Read { place: var(2) },
        ],
    ));
    assert_eq!(
        kinds(&ds),
        vec![
            DiagKind::Aliasing(AliasKind::ReadWhileWrite),
            DiagKind::Aliasing(AliasKind::WriteWhileWrite),
            DiagKind::Aliasing(AliasKind::WriteWhileRead),
        ]
    );
    assert_eq!(ds[0].point, 3);
    assert_eq!(ds[1].point, 4);
    assert_eq!(ds[2].point, 4);
}

#[test]
fn read_after_move_is_reported() {
    // let v2 = v1; read v1
    let ds = run(straight(
        2,
        vec![false, false],
        vec![
            Op::Init { var: 0 },
            Op::MoveInto { dst: 1, src: var(0) },
            Op::Read { place: var(0) },
        ],
    ));
    assert_eq!(kinds(&ds), vec![DiagKind::UseAfterMove]);
    assert_eq!(ds[0].point, 3);
    assert_eq!(ds[0].place.base, 0);
}

#[test]
fn reassignment_clears_the_moved_state() {
    // let mut v1 = ...; let v2 = v1; v1 = ...; read v1
    let ds = run(straight(
        2,
        vec![true, false],
        vec![
            Op::Init { var: 0 },
            Op::MoveInto { dst: 1, src: var(0) },
            Op::Assign { var: 0 },
            Op::Read { place: var(0) },
        ],
    ));
    assert!(ds.is_empty());
}

#[test]
fn quiet_program_with_branches_and_loop_is_clean() {
    let body = Ast::Sequence(
        Box::new(Ast::Stmt(Op::Init { var: 0 })),
        Box::new(Ast::Sequence(
            Box::new(Ast::If(
                Box::new(Ast::Stmt(Op::Read { place: var(0) })),
                Box::new(Ast::Stmt(Op::Write { place: var(0) })),
            )),
            Box::new(Ast::Sequence(
                Box::new(Ast::Loop(Box::new(Ast::Stmt(Op::Read { place: var(0) })))),
                Box::new(Ast::Stmt(Op::EndScope { var: 0 })),
            )),
        )),
    );
    let ds = run(FnDef { n_vars: 1, muta: vec![true], body });
    assert!(ds.is_empty());
}

#[test]
fn two_shared_loans_tolerate_each_other() {
    let ds = run(straight(
        3,
        vec![false, false, false],
        vec![
            Op::Init { var: 0 },
            Op::Borrow { dst: 1, place: var(0), kind: LoanKind::Shared },
            Op::Borrow { dst: 2, place: var(0), kind: LoanKind::Shared },
            Op::Read { place: var(1) },
            Op::Read { place: var(2) },
            Op::Read { place: var(0) },
        ],
    ));
    assert!(ds.is_empty());
}

#[test]
fn unique_loan_blocks_overlapping_write_until_last_use() {
    let violating = straight(
        2,
        vec![true, false],
        vec![
            Op::Init { var: 0 },
            Op::Borrow { dst: 1, place: var(0), kind: LoanKind::Unique },
            Op::Write { place: var(0) },
            Op::Read { place: var(1) },
        ],
    );
    let ds = run(violating);
    assert_eq!(kinds(&ds), vec![DiagKind::Aliasing(AliasKind::WriteWhileWrite)]);
    // Removing the offending write leaves the same program clean.
    let fixed = straight(
        2,
        vec![true, false],
        vec![
            Op::Init { var: 0 },
            Op::Borrow { dst: 1, place: var(0), kind: LoanKind::Unique },
            Op::Read { place: var(1) },
        ],
    );
    assert!(run(fixed).is_empty());
}

#[test]
fn move_while_borrowed_is_reported() {
    let ds = run(straight(
        3,
        vec![false, false, false],
        vec![
            Op::Init { var: 0 },
            Op::Borrow { dst: 1, place: var(0), kind: LoanKind::Shared },
            Op::MoveInto { dst: 2, src: var(0) },
            Op::Read { place: var(1) },
        ],
    ));
    assert_eq!(kinds(&ds), vec![DiagKind::MoveWhileBorrowed]);
    assert_eq!(ds[0].point, 3);
    assert_eq!(ds[0].related, Some(2));
}

#[test]
fn assigning_an_immutable_binding_is_reported() {
    let ds = run(straight(
        1,
        vec![false],
        vec![Op::Init { var: 0 }, Op::Assign { var: 0 }],
    ));
    assert_eq!(kinds(&ds), vec![DiagKind::AssignToImmutable]);
    assert_eq!(ds[0].point, 2);
}

#[test]
fn borrowing_a_moved_place_is_reported() {
    let ds = run(straight(
        3,
        vec![false, false, false],
        vec![
            Op::Init { var: 0 },
            Op::MoveInto { dst: 1, src: var(0) },
            Op::Borrow { dst: 2, place: var(0), kind: LoanKind::Shared },
        ],
    ));
    assert_eq!(kinds(&ds), vec![DiagKind::BorrowOfMovedOrUninit]);
}

#[test]
fn move_on_one_branch_poisons_the_join() {
    let body = Ast::Sequence(
        Box::new(Ast::Stmt(Op::Init { var: 0 })),
        Box::new(Ast::Sequence(
            Box::new(Ast::If(
                Box::new(Ast::Stmt(Op::MoveInto { dst: 1, src: var(0) })),
                Box::new(Ast::Stmt(Op::Skip)),
            )),
            Box::new(Ast::Stmt(Op::Read { place: var(0) })),
        )),
    );
    let ds = run(FnDef { n_vars: 2, muta: vec![false, false], body });
    assert_eq!(kinds(&ds), vec![DiagKind::UseAfterMove]);
}

#[test]
fn distinct_fields_may_be_borrowed_uniquely_at_once() {
    let ds = run(straight(
        3,
        vec![true, false, false],
        vec![
            Op::Init { var: 0 },
            Op::Borrow { dst: 1, place: field(0, 0), kind: LoanKind::Unique },
            Op::Borrow { dst: 2, place: field(0, 1), kind: LoanKind::Unique },
            Op::Read { place: var(1) },
            Op::Read { place: var(2) },
        ],
    ));
    assert!(ds.is_empty());
}

#[test]
fn one_field_borrowed_uniquely_twice_conflicts() {
    let ds = run(straight(
        3,
        vec![true, false, false],
        vec![
            Op::Init { var: 0 },
            Op::Borrow { dst: 1, place: field(0, 0), kind: LoanKind::Unique },
            Op::Borrow { dst: 2, place: field(0, 0), kind: LoanKind::Unique },
            Op::Read { place: var(1) },
            Op::Read { place: var(2) },
        ],
    ));
    assert_eq!(kinds(&ds), vec![DiagKind::Aliasing(AliasKind::WriteWhileWrite)]);
}

#[test]
fn call_with_unique_and_shared_argument_on_one_base_conflicts() {
    let ds = run(straight(
        1,
        vec![true],
        vec![
            Op::Init { var: 0 },
            Op::Call {
                args: vec![
                    CallArg { place: idx(0), kind: LoanKind::Unique },
                    CallArg { place: idx(0), kind: LoanKind::Shared },
                ],
                dst: None,
            },
        ],
    ));
    assert_eq!(kinds(&ds), vec![DiagKind::Aliasing(AliasKind::ReadWhileWrite)]);
}

#[test]
fn a_fresh_shared_loan_each_iteration_is_clean() {
    // loop { let r = &v; read r }
    let body = Ast::Sequence(
        Box::new(Ast::Stmt(Op::Init { var: 0 })),
        Box::new(Ast::Loop(Box::new(Ast::Sequence(
            Box::new(Ast::Stmt(Op::Borrow { dst: 1, place: var(0), kind: LoanKind::Shared })),
            Box::new(Ast::Stmt(Op::Read { place: var(1) })),
        )))),
    );
    let ds = run(FnDef { n_vars: 2, muta: vec![false, false], body });
    assert!(ds.is_empty());
}

#[test]
fn writing_under_a_unique_loan_inside_a_loop_conflicts() {
    // loop { let r = &mut v; v.push(..); read r }
    let body = Ast::Sequence(
        Box::new(Ast::Stmt(Op::Init { var: 0 })),
        Box::new(Ast::Loop(Box::new(Ast::Sequence(
            Box::new(Ast::Stmt(Op::Borrow { dst: 1, place: var(0), kind: LoanKind::Unique })),
            Box::new(Ast::Sequence(
                Box::new(Ast::Stmt(Op::Write { place: var(0) })),
                Box::new(Ast::Stmt(Op::Read { place: var(1) })),
            )),
        )))),
    );
    let ds = run(FnDef { n_vars: 2, muta: vec![true, false], body });
    assert_eq!(kinds(&ds), vec![DiagKind::Aliasing(AliasKind::WriteWhileWrite)]);
}

#[test]
fn reborrowing_into_the_same_binding_ends_the_first_loan() {
    // r = &v; read r; r = &w; v.push(..): the first loan ended at its last use.
    let ds = run(straight(
        3,
        vec![true, true, false],
        vec![
            Op::Init { var: 0 },
            Op::Init { var: 1 },
            Op::Borrow { dst: 2, place: var(0), kind: LoanKind::Shared },
            Op::Read { place: var(2) },
            Op::Borrow { dst: 2, place: var(1), kind: LoanKind::Shared },
            Op::Write { place: var(0) },
            Op::Read { place: var(2) },
        ],
    ));
    assert!(ds.is_empty());
}
