//! The smallest subject of the discipline the analyzer enforces: a value
//! with one unique-access method and one shared-access method.  `mutate`
//! takes the receiver uniquely and immediately reborrows it shared for
//! `read` — the very pattern of access the analyzer's loans model.

use vstd::prelude::*;

verus! {

/// A value accessed both ways.
pub struct A {
    pub val: i32,
}

impl A {
    /// Wraps a value.
    pub fn new(val: i32) -> (a: A)
        ensures
            a.val == val,
    {
        A { val }
    }

    /// Unique access to the value; it only reads, so the value is kept.
    pub fn mutate(&mut self)
        ensures
            final(self).val == old(self).val,
    {
        self.read()
    }

    /// Shared access to the value.
    pub fn read(&self) {
    }
}

/// Selects the larger of two values, preferring the second on a tie: the
/// computational core of a function that reads two shared references and
/// returns one of them.
pub fn larger_of(a: i32, b: i32) -> (r: i32)
    ensures
        r == if a > b {
            a
        } else {
            b
        },
{
    if a > b {
        a
    } else {
        b
    }
}

} // verus!
