//! A static ownership and borrowing analyzer for a small imperative language.
//!
//! Programs are given as an abstract syntax tree over *places* (variable
//! paths such as `v`, `v[i]`, `s.f`).  The analyzer lowers the tree to a
//! control-flow graph, tracks per-place ownership (owned, moved-from,
//! uninitialized) and the set of outstanding loans across that graph with a
//! fixed-point dataflow pass, and reports every violation of the
//! single-owner / mutable-xor-shared discipline it finds.  Loan regions are
//! non-lexical: a loan ends at the last use of the reference that holds it,
//! not at the end of its scope.

pub mod analyze;
pub mod ast;
pub mod cfg;
pub mod diag;
pub mod liveness;
pub mod loans;
pub mod place;
pub mod state;
pub mod subject;
pub mod transfer;
