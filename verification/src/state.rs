//! Per-binding ownership states and their join, the lattice the dataflow
//! pass runs over.

use vstd::prelude::*;

verus! {

/// The ownership state of one binding at one program point.
#[derive(Clone, Copy, PartialEq, Eq, Structural, Debug)]
pub enum OwnState {
    /// No value: never initialized, or its scope has ended.
    Uninit,
    /// Holds a valid value.
    Owned,
    /// Its value was moved out on every path reaching this point.
    Moved,
    /// Paths disagree: moved out (or dropped) on some path, still owned on
    /// another.  Any use is flagged as a potential use after move.
    MaybeMoved,
}

/// The join of two branch states.  Equal states join to themselves; any
/// disagreement that involves a move is widened to `MaybeMoved`; a place
/// initialized on one path only joins to `Uninit`, the conservative choice
/// that still permits re-initialization.
pub open spec fn join_spec(a: OwnState, b: OwnState) -> OwnState {
    if a == b {
        a
    } else if a == OwnState::Moved || a == OwnState::MaybeMoved || b == OwnState::Moved || b
        == OwnState::MaybeMoved {
        OwnState::MaybeMoved
    } else {
        OwnState::Uninit
    }
}

/// A state is move-free when it is not `Moved` and not `MaybeMoved`.
pub open spec fn move_free(a: OwnState) -> bool {
    a != OwnState::Moved && a != OwnState::MaybeMoved
}

/// Joins one pair of ownership states.
pub fn join(a: OwnState, b: OwnState) -> (r: OwnState)
    ensures
        r == join_spec(a, b),
{
    if a == b {
        a
    } else {
        match (a, b) {
            (OwnState::Moved, _) => OwnState::MaybeMoved,
            (OwnState::MaybeMoved, _) => OwnState::MaybeMoved,
            (_, OwnState::Moved) => OwnState::MaybeMoved,
            (_, OwnState::MaybeMoved) => OwnState::MaybeMoved,
            _ => OwnState::Uninit,
        }
    }
}

/// Every binding's state is move-free.
pub open spec fn own_all_move_free(own: Seq<OwnState>) -> bool {
    forall|v: int| 0 <= v < own.len() ==> move_free(#[trigger] own[v])
}

/// No loan reaches this point.
pub open spec fn reach_all_false(reach: Seq<bool>) -> bool {
    forall|i: int| 0 <= i < reach.len() ==> !(#[trigger] reach[i])
}

/// The join is commutative and idempotent, and it preserves move-freedom:
/// a `Moved` or `MaybeMoved` state never appears from joining states that
/// had none.
pub proof fn lemma_join_properties(a: OwnState, b: OwnState)
    ensures
        join_spec(a, b) == join_spec(b, a),
        join_spec(a, a) == a,
        move_free(a) && move_free(b) ==> move_free(join_spec(a, b)),
{
}

} // verus!
