//! Places: paths to assignable storage locations.
//!
//! A place is a variable (identified by its index in the enclosing
//! function's binding table) followed by zero or more projection steps,
//! either a named field or an index access.  Two places conflict when they
//! can denote overlapping storage.  Index values are not tracked
//! symbolically, so any two index accesses into the same base are treated
//! as overlapping; distinct fields of the same base are disjoint.

use vstd::prelude::*;

verus! {

/// One projection step of a place path: a field access (fields are
/// identified by number) or an index access (the index value itself is
/// deliberately not recorded).
#[derive(Clone, Copy, PartialEq, Eq, Structural, Debug)]
pub enum PathStep {
    Field(usize),
    Index,
}

/// A path to a storage location: a root variable and its projection steps.
#[derive(Clone, Debug)]
pub struct Place {
    pub base: usize,
    pub path: Vec<PathStep>,
}

/// Whether two single projection steps can denote overlapping storage.
/// Distinct fields are disjoint; any two index accesses may alias.
pub open spec fn step_overlaps(a: PathStep, b: PathStep) -> bool {
    match (a, b) {
        (PathStep::Field(i), PathStep::Field(j)) => i == j,
        (PathStep::Index, PathStep::Index) => true,
        _ => false,
    }
}

/// Two places conflict when one may alias a prefix of the other: the same
/// root variable, and every pair of steps up to the shorter path overlaps.
/// In particular a base conflicts with each of its projections, and any two
/// index accesses into one base conflict with each other.
pub open spec fn conflicts_spec(p: Place, q: Place) -> bool {
    &&& p.base == q.base
    &&& forall|i: int|
        0 <= i < p.path@.len() && i < q.path@.len() ==> step_overlaps(
            #[trigger] p.path@[i],
            q.path@[i],
        )
}

/// Two places are disjoint siblings when they agree on everything but their
/// last step, and those last steps are distinct fields.  Such places never
/// conflict, which is what permits borrowing two fields of one struct at
/// once.
pub open spec fn disjoint_siblings_spec(p: Place, q: Place) -> bool {
    &&& p.base == q.base
    &&& p.path@.len() == q.path@.len()
    &&& p.path@.len() > 0
    &&& forall|i: int|
        0 <= i < p.path@.len() - 1 ==> step_overlaps(#[trigger] p.path@[i], q.path@[i])
    &&& match (p.path@.last(), q.path@.last()) {
        (PathStep::Field(i), PathStep::Field(j)) => i != j,
        _ => false,
    }
}

impl Place {
    /// A place that is just a variable, with no projection.
    pub fn var(base: usize) -> (p: Place)
        ensures
            p.base == base,
            p.path@.len() == 0,
    {
        Place { base, path: Vec::new() }
    }

    /// An equal place: same base, same steps.
    pub fn duplicate(&self) -> (p: Place)
        ensures
            p.base == self.base,
            p.path@ == self.path@,
    {
        let mut path: Vec<PathStep> = Vec::new();
        let mut i: usize = 0;
        while i < self.path.len()
            invariant
                i <= self.path@.len(),
                path@ == self.path@.subrange(0, i as int),
            decreases self.path@.len() - i,
        {
            path.push(self.path[i]);
            i += 1;
        }
        assert(path@ =~= self.path@);
        Place { base: self.base, path }
    }

    /// This place extended by one projection step.
    pub fn project(&self, step: PathStep) -> (p: Place)
        ensures
            p.base == self.base,
            p.path@ == self.path@.push(step),
    {
        let mut p = self.duplicate();
        p.path.push(step);
        p
    }
}

/// Decides whether two places may denote overlapping storage.
pub fn conflicts(p: &Place, q: &Place) -> (r: bool)
    ensures
        r == conflicts_spec(*p, *q),
{
    if p.base != q.base {
        return false;
    }
    let n = if p.path.len() < q.path.len() {
        p.path.len()
    } else {
        q.path.len()
    };
    let mut i: usize = 0;
    while i < n
        invariant
            n <= p.path@.len(),
            n <= q.path@.len(),
            n == p.path@.len() || n == q.path@.len(),
            i <= n,
            forall|j: int| 0 <= j < i ==> step_overlaps(#[trigger] p.path@[j], q.path@[j]),
        decreases n - i,
    {
        let ok = match (p.path[i], q.path[i]) {
            (PathStep::Field(a), PathStep::Field(b)) => a == b,
            (PathStep::Index, PathStep::Index) => true,
            _ => false,
        };
        if !ok {
            return false;
        }
        i += 1;
    }
    true
}

/// Decides whether two places are disjoint siblings: same path but for
/// the last step, which is a different field on each side.
pub fn disjoint_siblings(p: &Place, q: &Place) -> (r: bool)
    ensures
        r == disjoint_siblings_spec(*p, *q),
{
    if p.base != q.base || p.path.len() != q.path.len() || p.path.len() == 0 {
        return false;
    }
    let n = p.path.len() - 1;
    let mut i: usize = 0;
    while i < n
        invariant
            p.path@.len() == q.path@.len(),
            n == p.path@.len() - 1,
            i <= n,
            forall|j: int| 0 <= j < i ==> step_overlaps(#[trigger] p.path@[j], q.path@[j]),
        decreases n - i,
    {
        let ok = match (p.path[i], q.path[i]) {
            (PathStep::Field(a), PathStep::Field(b)) => a == b,
            (PathStep::Index, PathStep::Index) => true,
            _ => false,
        };
        if !ok {
            return false;
        }
        i += 1;
    }
    match (p.path[n], q.path[n]) {
        (PathStep::Field(a), PathStep::Field(b)) => a != b,
        _ => false,
    }
}

/// Conflict is symmetric: overlap does not depend on the order of the two
/// places.
pub proof fn lemma_conflicts_symmetric(p: Place, q: Place)
    ensures
        conflicts_spec(p, q) == conflicts_spec(q, p),
{
    assert forall|a: PathStep, b: PathStep| step_overlaps(a, b) == step_overlaps(b, a) by {}
}

/// Disjoint siblings never conflict: two distinct fields of one base may be
/// borrowed independently.
pub proof fn lemma_disjoint_siblings_do_not_conflict(p: Place, q: Place)
    requires
        disjoint_siblings_spec(p, q),
    ensures
        !conflicts_spec(p, q),
{
    let n = p.path@.len() as int;
    assert(!step_overlaps(p.path@[n - 1], q.path@[n - 1]));
}

} // verus!
