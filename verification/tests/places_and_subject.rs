//! Direct checks of the place model and of the small subject type.

use borrowck::analyze::analyze;
use borrowck::ast::{Ast, FnDef, LoanKind, Op};
use borrowck::place::{conflicts, disjoint_siblings, PathStep, Place};
use borrowck::subject::{larger_of, A};

fn var(v: usize) -> Place {
    Place::var(v)
}

#[test]
fn a_base_conflicts_with_its_projections() {
    let v = var(0);
    let elem = var(0).project(PathStep::Index);
    let f = var(0).project(PathStep::Field(3));
    assert!(conflicts(&v, &elem));
    assert!(conflicts(&elem, &v));
    assert!(conflicts(&v, &f));
    assert!(conflicts(&v, &v));
}

#[test]
fn distinct_variables_never_conflict() {
    assert!(!conflicts(&var(0), &var(1)));
    assert!(!conflicts(&var(0).project(PathStep::Index), &var(1).project(PathStep::Index)));
}

#[test]
fn index_accesses_into_one_base_conflict() {
    let a = var(0).project(PathStep::Index);
    let b = var(0).project(PathStep::Index);
    assert!(conflicts(&a, &b));
}

#[test]
fn sibling_fields_are_disjoint() {
    let a = var(0).project(PathStep::Field(0));
    let b = var(0).project(PathStep::Field(1));
    assert!(!conflicts(&a, &b));
    assert!(conflicts(&a, &a));
}

#[test]
fn deeper_paths_conflict_through_their_prefix() {
    let outer = var(2).project(PathStep::Field(1));
    let inner = var(2).project(PathStep::Field(1)).project(PathStep::Index);
    assert!(conflicts(&outer, &inner));
    let other = var(2).project(PathStep::Field(0)).project(PathStep::Index);
    assert!(!conflicts(&inner, &other));
}

#[test]
fn disjoint_siblings_are_recognized_and_never_conflict() {
    let a = var(0).project(PathStep::Field(0));
    let b = var(0).project(PathStep::Field(1));
    assert!(disjoint_siblings(&a, &b));
    assert!(!conflicts(&a, &b));
    // Same final field: not siblings.
    assert!(!disjoint_siblings(&a, &a));
    // Index siblings may alias, so they are not disjoint.
    let x = var(0).project(PathStep::Index);
    let y = var(0).project(PathStep::Index);
    assert!(!disjoint_siblings(&x, &y));
    // A place and its projection are not siblings either.
    assert!(!disjoint_siblings(&var(0), &a));
}

#[test]
fn larger_of_prefers_the_second_on_a_tie() {
    assert_eq!(larger_of(3, 2), 3);
    assert_eq!(larger_of(2, 3), 3);
    assert_eq!(larger_of(5, 5), 5);
    assert_eq!(larger_of(-7, -9), -7);
}

#[test]
fn owned_data_and_borrowed_slices_are_clean() {
    // let s = ..; let owned_s = s.to_string(); let owned_s2 = s.to_owned();
    // let ref_s = owned_s.as_str(); let ref_s2 = &owned_s2[..];
    // then print all four: only shared borrows and reads, no diagnostics.
    let stmts = vec![
        Op::Init { var: 0 },
        Op::Init { var: 1 },
        Op::Init { var: 2 },
        Op::Borrow { dst: 3, place: Place::var(1), kind: LoanKind::Shared },
        Op::Borrow { dst: 4, place: Place::var(2), kind: LoanKind::Shared },
        Op::Read { place: Place::var(1) },
        Op::Read { place: Place::var(2) },
        Op::Read { place: Place::var(3) },
        Op::Read { place: Place::var(4) },
    ];
    let mut body = Ast::Stmt(Op::EndScope { var: 0 });
    for op in stmts.into_iter().rev() {
        body = Ast::Sequence(Box::new(Ast::Stmt(op)), Box::new(body));
    }
    let f = FnDef { n_vars: 5, muta: vec![false; 5], body };
    assert!(f.is_wf());
    let ds = analyze(f).expect("fixed point");
    assert!(ds.is_empty());
}

#[test]
fn subject_keeps_its_value_through_both_accesses() {
    let mut a = A::new(7);
    a.read();
    a.mutate();
    assert_eq!(a.val, 7);
}
