//! Diagnostics: the violations the analyzer reports, and the one internal
//! failure it can signal.

use crate::place::Place;
use vstd::prelude::*;

verus! {

/// Which two kinds of access collided in an aliasing violation, named from
/// the offending access first: a write over an outstanding shared loan, a
/// write over an outstanding unique loan, or a read under an outstanding
/// unique loan.
#[derive(Clone, Copy, PartialEq, Eq, Structural, Debug)]
pub enum AliasKind {
    WriteWhileRead,
    WriteWhileWrite,
    ReadWhileWrite,
}

/// The classification of a reported violation.
#[derive(Clone, Copy, PartialEq, Eq, Structural, Debug)]
pub enum DiagKind {
    /// A place was read, written, moved or borrowed after its value was
    /// moved out (or may have been moved out on some path).
    UseAfterMove,
    /// A place was moved out while a conflicting loan was still live.
    MoveWhileBorrowed,
    /// Two overlapping accesses, at least one of them unique, were live at
    /// once.
    Aliasing(AliasKind),
    /// A binding not declared mutable was reassigned.
    AssignToImmutable,
    /// A borrow of a place that does not currently own a value.
    BorrowOfMovedOrUninit,
}

/// One reported violation: its kind, the place at fault, the graph node of
/// the offending operation, and, for conflicts with a loan, the node at
/// which that loan was created.
#[derive(Clone, Debug)]
pub struct Diagnostic {
    pub kind: DiagKind,
    pub place: Place,
    pub point: usize,
    pub related: Option<usize>,
}

/// The one fatal outcome: the fixed-point iteration did not stabilize
/// within the iteration cap.  This signals an internal capacity limit, not
/// a defect of the analyzed program.
#[derive(Clone, Copy, PartialEq, Eq, Structural, Debug)]
pub enum AnalysisError {
    LimitExceeded,
}

} // verus!
