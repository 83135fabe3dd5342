//! The analysis driver: forward fixed-point dataflow over the graph, then
//! one reporting pass that collects every diagnostic in node order.
//!
//! The per-node state joins ownership over all predecessors (disagreement
//! that involves a move widens to `MaybeMoved`) and unions the reachable
//! loans, so a violation on any path is found.  Iteration is capped; an
//! exhausted cap is the analysis's one fatal outcome.

use crate::ast::{
    FnDef, Op, ast_quiet, ast_read_only, lemma_contains_quiet, lemma_contains_read_only,
    lemma_contains_wf, op_wf, LoanKind,
};
use crate::ast::{ast_contains_op, CallArg};
use crate::cfg::{Cfg, build_cfg, cfg_wf, cfg_covers, cfg_ops_from};
use crate::diag::{AnalysisError, DiagKind, Diagnostic};
use crate::liveness::{FIXED_POINT_CAP, compute_liveness};
use crate::loans::{build_loans, loan_from_op};
use crate::state::{OwnState, join, own_all_move_free, reach_all_false};
use crate::transfer::{
    apply_op, args_pairwise_ok, diags_op, lemma_quiet_op_clean, lemma_quiet_transfer, loan_active,
    no_conflict, own_ok,
};
use vstd::prelude::*;

verus! {

/// The dataflow state flowing out of one node: one ownership state per
/// binding, one reachability bit per loan.
struct DfState {
    own: Vec<OwnState>,
    reach: Vec<bool>,
}

/// All per-node states have the right widths.
spec fn outs_shaped(outs: Seq<DfState>, n_nodes: int, n_vars: usize, n_loans: int) -> bool {
    &&& outs.len() == n_nodes
    &&& forall|m: int| 0 <= m < outs.len() ==> (#[trigger] outs[m]).own@.len() == n_vars
    &&& forall|m: int| 0 <= m < outs.len() ==> (#[trigger] outs[m]).reach@.len() == n_loans
}

/// Every state is move-free and reaches no loan: the invariant a program
/// without borrows and moves maintains.
spec fn outs_quiet(outs: Seq<DfState>) -> bool {
    forall|m: int|
        0 <= m < outs.len() ==> own_all_move_free((#[trigger] outs[m]).own@) && reach_all_false(
            outs[m].reach@,
        )
}

/// Computes each node's predecessors from the successor lists.
fn compute_preds(cfg: &Cfg) -> (preds: Vec<Vec<usize>>)
    requires
        cfg_wf(*cfg),
    ensures
        preds@.len() == cfg.ops@.len(),
        forall|n: int, k: int|
            0 <= n < preds@.len() && 0 <= k < preds@[n]@.len() ==> #[trigger] (preds@[n]@[k])
                < cfg.ops@.len(),
{
    let n_nodes = cfg.ops.len();
    let mut preds: Vec<Vec<usize>> = Vec::new();
    while preds.len() < n_nodes
        invariant
            preds@.len() <= n_nodes,
            forall|n: int| 0 <= n < preds@.len() ==> (#[trigger] preds@[n])@.len() == 0,
        decreases n_nodes - preds@.len(),
    {
        preds.push(Vec::new());
    }
    let mut n: usize = 0;
    while n < n_nodes
        invariant
            cfg_wf(*cfg),
            n_nodes == cfg.ops@.len(),
            n <= n_nodes,
            preds@.len() == n_nodes,
            forall|m: int, k: int|
                0 <= m < preds@.len() && 0 <= k < preds@[m]@.len() ==> #[trigger] (preds@[m]@[k])
                    < n_nodes,
        decreases n_nodes - n,
    {
        let row = &cfg.succs[n];
        let mut j: usize = 0;
        while j < row.len()
            invariant
                cfg_wf(*cfg),
                n_nodes == cfg.ops@.len(),
                n < n_nodes,
                row == &cfg.succs@[n as int],
                j <= row@.len(),
                preds@.len() == n_nodes,
                forall|m: int, k: int|
                    0 <= m < preds@.len() && 0 <= k < preds@[m]@.len() ==> #[trigger] (
                    preds@[m]@[k]) < n_nodes,
            decreases row@.len() - j,
        {
            let t = row[j];
            let mut updated: Vec<usize> = Vec::new();
            let existing = &preds[t];
            let mut i: usize = 0;
            while i < existing.len()
                invariant
                    i <= existing@.len(),
                    updated@ == existing@.subrange(0, i as int),
                    existing == &preds@[t as int],
                    t < preds@.len(),
                    n < n_nodes,
                    forall|k: int| 0 <= k < (#[trigger] existing@).len() ==> existing@[k] < n_nodes,
                decreases existing@.len() - i,
            {
                updated.push(existing[i]);
                i += 1;
            }
            updated.push(n);
            preds.set(t, updated);
            j += 1;
        }
        n += 1;
    }
    preds
}

/// The state on entry to a node: the join of the out-states of those
/// predecessors the iteration has already computed, or the initial state
/// (everything uninitialized, no loans) when there is none.  Predecessors
/// not yet computed are skipped rather than joined, so a loop's back edge
/// contributes only once it carries a real state.  Joining preserves
/// move-freedom and loan-freedom.
fn in_state(
    outs: &Vec<DfState>,
    defined: &Vec<bool>,
    preds_row: &Vec<usize>,
    n_vars: usize,
    n_loans: usize,
) -> (st: DfState)
    requires
        defined@.len() == outs@.len(),
        forall|k: int| 0 <= k < preds_row@.len() ==> (#[trigger] preds_row@[k]) < outs@.len(),
        forall|m: int| 0 <= m < outs@.len() ==> (#[trigger] outs@[m]).own@.len() == n_vars,
        forall|m: int| 0 <= m < outs@.len() ==> (#[trigger] outs@[m]).reach@.len() == n_loans,
    ensures
        st.own@.len() == n_vars,
        st.reach@.len() == n_loans,
        outs_quiet(outs@) ==> own_all_move_free(st.own@) && reach_all_false(st.reach@),
{
    let mut st = fresh_state(n_vars, n_loans);
    let mut seen = false;
    let mut k: usize = 0;
    while k < preds_row.len()
        invariant
            defined@.len() == outs@.len(),
            forall|t: int| 0 <= t < preds_row@.len() ==> (#[trigger] preds_row@[t]) < outs@.len(),
            forall|m: int| 0 <= m < outs@.len() ==> (#[trigger] outs@[m]).own@.len() == n_vars,
            forall|m: int| 0 <= m < outs@.len() ==> (#[trigger] outs@[m]).reach@.len() == n_loans,
            k <= preds_row@.len(),
            st.own@.len() == n_vars,
            st.reach@.len() == n_loans,
            outs_quiet(outs@) ==> own_all_move_free(st.own@) && reach_all_false(st.reach@),
        decreases preds_row@.len() - k,
    {
        let p = preds_row[k];
        if defined[p] {
            if !seen {
                let mut own: Vec<OwnState> = Vec::new();
                let mut reach: Vec<bool> = Vec::new();
                let mut v: usize = 0;
                while v < n_vars
                    invariant
                        p < outs@.len(),
                        outs@[p as int].own@.len() == n_vars,
                        v <= n_vars,
                        own@.len() == v,
                        forall|w: int|
                            0 <= w < v ==> (#[trigger] own@[w]) == outs@[p as int].own@[w],
                    decreases n_vars - v,
                {
                    own.push(outs[p].own[v]);
                    v += 1;
                }
                let mut i: usize = 0;
                while i < n_loans
                    invariant
                        p < outs@.len(),
                        outs@[p as int].reach@.len() == n_loans,
                        i <= n_loans,
                        reach@.len() == i,
                        forall|w: int|
                            0 <= w < i ==> (#[trigger] reach@[w]) == outs@[p as int].reach@[w],
                    decreases n_loans - i,
                {
                    reach.push(outs[p].reach[i]);
                    i += 1;
                }
                st = DfState { own, reach };
                seen = true;
            } else {
                let ghost gouts = outs@;
                let mut v2: usize = 0;
                while v2 < n_vars
                    invariant
                        p < outs@.len(),
                        outs@ == gouts,
                        outs@[p as int].own@.len() == n_vars,
                        v2 <= n_vars,
                        st.own@.len() == n_vars,
                        st.reach@.len() == n_loans,
                        outs_quiet(outs@) ==> own_all_move_free(st.own@),
                        outs_quiet(outs@) ==> reach_all_false(st.reach@),
                    decreases n_vars - v2,
                {
                    let joined = join(st.own[v2], outs[p].own[v2]);
                    st.own.set(v2, joined);
                    v2 += 1;
                }
                let mut i2: usize = 0;
                while i2 < n_loans
                    invariant
                        p < outs@.len(),
                        outs@ == gouts,
                        outs@[p as int].reach@.len() == n_loans,
                        i2 <= n_loans,
                        st.own@.len() == n_vars,
                        st.reach@.len() == n_loans,
                        outs_quiet(outs@) ==> own_all_move_free(st.own@),
                        outs_quiet(outs@) ==> reach_all_false(st.reach@),
                    decreases n_loans - i2,
                {
                    let combined = st.reach[i2] || outs[p].reach[i2];
                    st.reach.set(i2, combined);
                    i2 += 1;
                }
            }
        }
        k += 1;
    }
    st
}

/// A fresh dataflow state: every binding uninitialized, no loan reaching.
fn fresh_state(n_vars: usize, n_loans: usize) -> (st: DfState)
    ensures
        st.own@.len() == n_vars,
        st.reach@.len() == n_loans,
        own_all_move_free(st.own@),
        reach_all_false(st.reach@),
{
    let mut own: Vec<OwnState> = Vec::new();
    while own.len() < n_vars
        invariant
            own@.len() <= n_vars,
            forall|v: int| 0 <= v < own@.len() ==> (#[trigger] own@[v]) == OwnState::Uninit,
        decreases n_vars - own@.len(),
    {
        own.push(OwnState::Uninit);
    }
    let mut reach: Vec<bool> = Vec::new();
    while reach.len() < n_loans
        invariant
            reach@.len() <= n_loans,
            forall|i: int| 0 <= i < reach@.len() ==> !(#[trigger] reach@[i]),
        decreases n_loans - reach@.len(),
    {
        reach.push(false);
    }
    DfState { own, reach }
}

/// Whether two dataflow states agree on every binding and every loan.
fn states_equal(a: &DfState, b: &DfState) -> (r: bool)
    requires
        a.own@.len() == b.own@.len(),
        a.reach@.len() == b.reach@.len(),
{
    let mut v: usize = 0;
    while v < a.own.len()
        invariant
            a.own@.len() == b.own@.len(),
            v <= a.own@.len(),
        decreases a.own@.len() - v,
    {
        if a.own[v] != b.own[v] {
            return false;
        }
        v += 1;
    }
    let mut i: usize = 0;
    while i < a.reach.len()
        invariant
            a.reach@.len() == b.reach@.len(),
            i <= a.reach@.len(),
        decreases a.reach@.len() - i,
    {
        if a.reach[i] != b.reach[i] {
            return false;
        }
        i += 1;
    }
    true
}

/// Runs the whole analysis on one function: lowers the body to a graph,
/// collects its loans, computes liveness, iterates the dataflow to a fixed
/// point, and reports every violation in node order.  An empty list means
/// the program respects the ownership and borrowing discipline.
///
/// Four laws come with the result.  A program that performs no borrow, no
/// move and no reassignment of an immutable binding receives no
/// diagnostic.  A program whose loans are all shared, and which never
/// writes, reassigns or moves through them, receives no aliasing
/// diagnostic, however many loans of one place coexist.  Conversely, a
/// diagnostic is owed wherever a violation needs no dataflow to see: a
/// reassignment of an immutable binding, or a call lending two
/// overlapping places of which one is unique, always makes the result
/// non-empty.
///
/// The liveness iteration provably converges within its cap for any graph
/// whose node count times binding count stays below the cap; the
/// ownership iteration keeps the cap as its only failure, and its own
/// convergence bound is not part of this contract.
pub fn analyze(f: FnDef) -> (r: Result<Vec<Diagnostic>, AnalysisError>)
    requires
        f.wf(),
    ensures
        r matches Err(e) ==> e == AnalysisError::LimitExceeded,
        ast_quiet(f.body, f.muta@) ==> (r matches Ok(ds) ==> ds@.len() == 0),
        ast_read_only(f.body) ==> (r matches Ok(ds) ==> forall|k: int|
            0 <= k < ds@.len() ==> !((#[trigger] ds@[k]).kind matches DiagKind::Aliasing(_))),
        r matches Ok(ds) ==> forall|var: usize|
            ast_contains_op(f.body, Op::Assign { var }) && var < f.muta@.len() && !f.muta@[var as int]
                ==> ds@.len() > 0,
        r matches Ok(ds) ==> forall|args: Vec<CallArg>, dst: Option<usize>|
            ast_contains_op(f.body, Op::Call { args, dst }) && !args_pairwise_ok(args@) ==> ds@.len()
                > 0,
{
    let ghost gf = f;
    let FnDef { n_vars, muta, body } = f;
    let ghost gbody = gf.body;
    let (cfg, _exit) = build_cfg(body);
    proof {
        assert forall|n: int| 0 <= n < cfg.ops@.len() implies op_wf(
            #[trigger] cfg.ops@[n],
            n_vars as nat,
        ) by {
            if cfg.ops@[n] != Op::Skip {
                lemma_contains_wf(gbody, cfg.ops@[n], n_vars as nat);
            }
        }
    }
    let loans = build_loans(&cfg);
    proof {
        if ast_read_only(gbody) {
            assert forall|i: int| 0 <= i < loans@.len() implies (#[trigger] loans@[i]).kind
                == LoanKind::Shared by {
                let l = loans@[i];
                let op = cfg.ops@[l.node as int];
                assert(loan_from_op(l, op));
                lemma_contains_read_only(gbody, op);
                match op {
                    Op::Borrow { dst: _, place: _, kind: _ } => {},
                    Op::Call { args, dst: _ } => {
                        let j = choose|j: int|
                            0 <= j < args@.len() && (#[trigger] args@[j]).place.base == l.place.base
                                && args@[j].place.path@ == l.place.path@ && args@[j].kind == l.kind;
                        assert(args@[j].kind == LoanKind::Shared);
                    },
                    _ => {},
                }
            }
        }
    }
    let live = match compute_liveness(&cfg, n_vars) {
        Ok(rows) => rows,
        Err(e) => {
            return Err(e);
        },
    };
    let preds = compute_preds(&cfg);
    let n_nodes = cfg.ops.len();
    let n_loans = loans.len();
    let mut outs: Vec<DfState> = Vec::new();
    while outs.len() < n_nodes
        invariant
            outs@.len() <= n_nodes,
            outs_shaped(outs@, outs@.len() as int, n_vars, n_loans as int),
            outs_quiet(outs@),
        decreases n_nodes - outs@.len(),
    {
        outs.push(fresh_state(n_vars, n_loans));
    }
    let mut defined: Vec<bool> = Vec::new();
    while defined.len() < n_nodes
        invariant
            defined@.len() <= n_nodes,
        decreases n_nodes - defined@.len(),
    {
        defined.push(false);
    }
    let mut round: u64 = 0;
    while round < FIXED_POINT_CAP
        invariant
            cfg_wf(cfg),
            cfg_ops_from(cfg, gbody),
            cfg_covers(cfg, gbody),
            n_nodes == cfg.ops@.len(),
            n_loans == loans@.len(),
            gbody == f.body,
            muta@ == f.muta@,
            muta@.len() == n_vars,
            forall|n: int|
                0 <= n < cfg.ops@.len() ==> op_wf(#[trigger] cfg.ops@[n], n_vars as nat),
            preds@.len() == n_nodes,
            forall|n: int, k: int|
                0 <= n < preds@.len() && 0 <= k < preds@[n]@.len() ==> #[trigger] (preds@[n]@[k])
                    < n_nodes,
            live@.len() == n_nodes,
            defined@.len() == n_nodes,
            outs_shaped(outs@, n_nodes as int, n_vars, n_loans as int),
            ast_quiet(gbody, muta@) ==> outs_quiet(outs@),
            ast_read_only(gbody) ==> forall|i: int|
                0 <= i < loans@.len() ==> (#[trigger] loans@[i]).kind == LoanKind::Shared,
        decreases FIXED_POINT_CAP - round,
    {
        let mut changed = false;
        let mut n: usize = 0;
        while n < n_nodes
            invariant
                cfg_wf(cfg),
                cfg_ops_from(cfg, gbody),
                n_nodes == cfg.ops@.len(),
                n_loans == loans@.len(),
                muta@.len() == n_vars,
                forall|m: int|
                    0 <= m < cfg.ops@.len() ==> op_wf(#[trigger] cfg.ops@[m], n_vars as nat),
                preds@.len() == n_nodes,
                forall|m: int, k: int|
                    0 <= m < preds@.len() && 0 <= k < preds@[m]@.len() ==> #[trigger] (
                    preds@[m]@[k]) < n_nodes,
                n <= n_nodes,
                defined@.len() == n_nodes,
                outs_shaped(outs@, n_nodes as int, n_vars, n_loans as int),
                ast_quiet(gbody, muta@) ==> outs_quiet(outs@),
            decreases n_nodes - n,
        {
            let mut st = in_state(&outs, &defined, &preds[n], n_vars, n_loans);
            let ghost pre_own = st.own@;
            let ghost pre_reach = st.reach@;
            apply_op(&cfg.ops[n], n, &mut st.own, &mut st.reach, &loans);
            proof {
                if ast_quiet(gbody, muta@) {
                    if cfg.ops@[n as int] != Op::Skip {
                        lemma_contains_quiet(gbody, cfg.ops@[n as int], muta@);
                    }
                    lemma_quiet_transfer(
                        cfg.ops@[n as int],
                        n,
                        pre_own,
                        pre_reach,
                        loans@,
                        muta@,
                    );
                }
            }
            if !states_equal(&st, &outs[n]) {
                changed = true;
            }
            if !defined[n] {
                changed = true;
            }
            outs.set(n, st);
            defined.set(n, true);
            n += 1;
        }
        if !changed {
            let mut ds: Vec<Diagnostic> = Vec::new();
            let mut m: usize = 0;
            while m < n_nodes
                invariant
                    cfg_wf(cfg),
                    cfg_ops_from(cfg, gbody),
                    n_nodes == cfg.ops@.len(),
                    n_loans == loans@.len(),
                    gbody == f.body,
                    muta@ == f.muta@,
                    muta@.len() == n_vars,
                    forall|q: int|
                        0 <= q < cfg.ops@.len() ==> op_wf(#[trigger] cfg.ops@[q], n_vars as nat),
                    preds@.len() == n_nodes,
                    forall|q: int, k: int|
                        0 <= q < preds@.len() && 0 <= k < preds@[q]@.len() ==> #[trigger] (
                        preds@[q]@[k]) < n_nodes,
                    live@.len() == n_nodes,
                    m <= n_nodes,
                    defined@.len() == n_nodes,
                    outs_shaped(outs@, n_nodes as int, n_vars, n_loans as int),
                    ast_quiet(gbody, muta@) ==> outs_quiet(outs@),
                    ast_quiet(gbody, muta@) ==> ds@.len() == 0,
                    ast_read_only(gbody) ==> forall|i: int|
                        0 <= i < loans@.len() ==> (#[trigger] loans@[i]).kind == LoanKind::Shared,
                    ast_read_only(gbody) ==> forall|k: int|
                        0 <= k < ds@.len() ==> !((#[trigger] ds@[k]).kind
                            matches DiagKind::Aliasing(_)),
                    cfg_covers(cfg, gbody),
                    forall|q: int|
                        0 <= q < m ==> match #[trigger] cfg.ops@[q] {
                            Op::Assign { var } => var < muta@.len() && !muta@[var as int]
                                ==> ds@.len() > 0,
                            Op::Call { args, dst: _ } => !args_pairwise_ok(args@) ==> ds@.len()
                                > 0,
                            _ => true,
                        },
                decreases n_nodes - m,
            {
                let st = in_state(&outs, &defined, &preds[m], n_vars, n_loans);
                let mut more = diags_op(
                    &cfg.ops[m],
                    m,
                    &st.own,
                    &st.reach,
                    &live[m],
                    &loans,
                    &muta,
                );
                proof {
                    if ast_quiet(gbody, muta@) {
                        if cfg.ops@[m as int] != Op::Skip {
                            lemma_contains_quiet(gbody, cfg.ops@[m as int], muta@);
                        }
                        lemma_quiet_op_clean(
                            cfg.ops@[m as int],
                            muta@,
                            st.own@,
                            st.reach@,
                            live@[m as int]@,
                            loans@,
                        );
                    }
                    if ast_read_only(gbody) {
                        if cfg.ops@[m as int] != Op::Skip {
                            lemma_contains_read_only(gbody, cfg.ops@[m as int]);
                        }
                        assert forall|k: int| 0 <= k < more@.len() implies !((
                        #[trigger] more@[k]).kind matches DiagKind::Aliasing(_)) by {
                            if more@[k].kind matches DiagKind::Aliasing(_) {
                                assert(exists|i: int|
                                    loan_active(st.reach@, live@[m as int]@, loans@, i) && (
                                    #[trigger] loans@[i]).kind == LoanKind::Unique);
                                let i = choose|i: int|
                                    loan_active(st.reach@, live@[m as int]@, loans@, i) && (
                                    #[trigger] loans@[i]).kind == LoanKind::Unique;
                                assert(loans@[i].kind == LoanKind::Shared);
                            }
                        }
                    }
                }
                let ghost ds_pre = ds@;
                let ghost more_seq = more@;
                ds.append(&mut more);
                proof {
                    assert forall|q: int| 0 <= q < m + 1 implies match #[trigger] cfg.ops@[q] {
                        Op::Assign { var } => var < muta@.len() && !muta@[var as int]
                            ==> ds@.len() > 0,
                        Op::Call { args, dst: _ } => !args_pairwise_ok(args@) ==> ds@.len() > 0,
                        _ => true,
                    } by {
                        if q < m {
                            if ds_pre.len() > 0 {
                                assert(ds@.len() > 0);
                            }
                        } else {
                            match cfg.ops@[m as int] {
                                Op::Assign { var } => {
                                    if var < muta@.len() && !muta@[var as int] {
                                        assert(!own_ok(cfg.ops@[m as int], muta@, st.own@));
                                        assert(more_seq.len() > 0);
                                    }
                                },
                                Op::Call { args, dst: _ } => {
                                    if !args_pairwise_ok(args@) {
                                        assert(!no_conflict(
                                            cfg.ops@[m as int],
                                            st.reach@,
                                            live@[m as int]@,
                                            loans@,
                                        ));
                                        assert(more_seq.len() > 0);
                                    }
                                },
                                _ => {},
                            }
                        }
                    }
                }
                m += 1;
            }
            proof {
                assert forall|var: usize|
                    ast_contains_op(gbody, Op::Assign { var }) && var < muta@.len()
                        && !muta@[var as int] implies ds@.len() > 0 by {
                    let n2 = choose|n2: int|
                        0 <= n2 < cfg.ops@.len() && cfg.ops@[n2] == (Op::Assign { var });
                    assert(cfg.ops@[n2] matches Op::Assign { var: v2 } && v2 == var);
                }
                assert forall|args: Vec<CallArg>, dst: Option<usize>|
                    #![trigger ast_contains_op(gbody, Op::Call { args, dst })]
                    ast_contains_op(gbody, Op::Call { args, dst }) && !args_pairwise_ok(args@)
                    implies ds@.len() > 0 by {
                    let n2 = choose|n2: int|
                        0 <= n2 < cfg.ops@.len() && cfg.ops@[n2] == (Op::Call { args, dst });
                    assert(cfg.ops@[n2] matches Op::Call { args: a2, dst: _ } && a2 == args);
                }
            }
            return Ok(ds);
        }
        round += 1;
    }
    Err(AnalysisError::LimitExceeded)
}

} // verus!
