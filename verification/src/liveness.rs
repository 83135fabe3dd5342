//! Backward liveness of bindings over the control-flow graph.
//!
//! A binding is live at a node when some path from that node reads it
//! before redefining it.  Loan regions are derived from this: a loan is
//! over as soon as the binding holding its reference is no longer live,
//! which is what makes the analysis last-use precise rather than lexical.

use crate::cfg::{Cfg, cfg_wf};
use crate::diag::AnalysisError;
use crate::transfer::{op_defs, op_defs_exec, op_uses, op_uses_exec};
use vstd::prelude::*;

verus! {

/// The most rounds any fixed-point iteration of this crate may take
/// before the analysis gives up with `AnalysisError::LimitExceeded`.
pub const FIXED_POINT_CAP: u64 = 1000000;

/// Some operation of the graph reads binding `v`.
pub open spec fn var_used_in(c: Cfg, v: usize) -> bool {
    exists|n: int| 0 <= n < c.ops@.len() && op_uses(#[trigger] c.ops@[n], v)
}

/// The dataflow equation for liveness at node `n`, binding `v`: live-in
/// holds when the node reads the binding, or keeps it and some successor
/// has it live-in.
pub open spec fn live_formula(c: Cfg, rows: Seq<Vec<bool>>, n: int, v: int) -> bool {
    op_uses(c.ops@[n], v as usize) || (!op_defs(c.ops@[n], v as usize) && exists|s: int|
        0 <= s < c.succs@[n]@.len() && c.succs@[n]@[s] < rows.len() && rows[c.succs@[n]@[s] as int]@[v])
}

/// Every recorded liveness bit belongs to a binding some operation reads.
pub open spec fn rows_sound(c: Cfg, rows: Seq<Vec<bool>>, n_vars: usize) -> bool {
    forall|n: int, v: int|
        0 <= n < rows.len() && 0 <= v < n_vars && (#[trigger] rows[n]@[v]) ==> var_used_in(
            c,
            v as usize,
        )
}

/// All rows have one entry per binding.
pub open spec fn rows_shaped(rows: Seq<Vec<bool>>, n_nodes: int, n_vars: usize) -> bool {
    rows.len() == n_nodes && forall|n: int|
        0 <= n < rows.len() ==> (#[trigger] rows[n])@.len() == n_vars
}

/// Recomputes the liveness row of node `n` from the current rows.
fn live_row(cfg: &Cfg, rows: &Vec<Vec<bool>>, n: usize, n_vars: usize) -> (row: Vec<bool>)
    requires
        cfg_wf(*cfg),
        n < cfg.ops@.len(),
        rows@.len() == cfg.ops@.len(),
        forall|m: int| 0 <= m < rows@.len() ==> (#[trigger] rows@[m])@.len() == n_vars,
    ensures
        row@.len() == n_vars,
        forall|v: int| 0 <= v < n_vars ==> row@[v] == live_formula(*cfg, rows@, n as int, v),
{
    let mut row: Vec<bool> = Vec::new();
    let mut v: usize = 0;
    while v < n_vars
        invariant
            cfg_wf(*cfg),
            n < cfg.ops@.len(),
            rows@.len() == cfg.ops@.len(),
            forall|m: int| 0 <= m < rows@.len() ==> (#[trigger] rows@[m])@.len() == n_vars,
            v <= n_vars,
            row@.len() == v,
            forall|w: int| 0 <= w < v ==> row@[w] == live_formula(*cfg, rows@, n as int, w),
        decreases n_vars - v,
    {
        let mut val = op_uses_exec(&cfg.ops[n], v);
        if !val && !op_defs_exec(&cfg.ops[n], v) {
            let succs = &cfg.succs[n];
            let mut s: usize = 0;
            while s < succs.len()
                invariant
                    cfg_wf(*cfg),
                    n < cfg.ops@.len(),
                    rows@.len() == cfg.ops@.len(),
                    forall|m: int| 0 <= m < rows@.len() ==> (#[trigger] rows@[m])@.len() == n_vars,
                    v < n_vars,
                    succs == &cfg.succs@[n as int],
                    s <= succs@.len(),
                    !op_uses(cfg.ops@[n as int], v),
                    !op_defs(cfg.ops@[n as int], v),
                    val == exists|t: int|
                        0 <= t < s && succs@[t] < rows@.len() && (#[trigger] rows@[succs@[t] as int])@[v as int],
                decreases succs@.len() - s,
            {
                if !val {
                    let target = succs[s];
                    if rows[target][v] {
                        val = true;
                    }
                }
                s += 1;
            }
        }
        row.push(val);
        v += 1;
    }
    row
}


/// Row `a` is pointwise below row `b`.
pub open spec fn row_leq(a: Seq<bool>, b: Seq<bool>) -> bool {
    a.len() == b.len() && forall|i: int| 0 <= i < a.len() && a[i] ==> #[trigger] b[i]
}

/// Table `r1` is pointwise below table `r2`.
pub open spec fn rows_leq(r1: Seq<Vec<bool>>, r2: Seq<Vec<bool>>) -> bool {
    r1.len() == r2.len() && forall|n: int| 0 <= n < r1.len() ==> row_leq((#[trigger] r1[n])@, r2[n]@)
}

/// Every recorded bit satisfies its own equation's right-hand side: the
/// state a growing iteration maintains.
pub open spec fn rows_progressive(c: Cfg, rows: Seq<Vec<bool>>, n_vars: usize) -> bool {
    forall|n: int, v: int|
        0 <= n < rows.len() && 0 <= v < n_vars && (#[trigger] rows[n]@[v]) ==> live_formula(
            c,
            rows,
            n,
            v,
        )
}

/// The number of true bits in one row.
pub closed spec fn count_row(s: Seq<bool>) -> nat
    decreases s.len(),
{
    if s.len() == 0 {
        0
    } else {
        count_row(s.drop_last()) + (if s.last() {
            1nat
        } else {
            0nat
        })
    }
}

/// The number of true bits in the whole table.
pub closed spec fn count_rows(rows: Seq<Vec<bool>>) -> nat
    decreases rows.len(),
{
    if rows.len() == 0 {
        0
    } else {
        count_rows(rows.drop_last()) + count_row(rows.last()@)
    }
}

proof fn lemma_count_row_bound(s: Seq<bool>)
    ensures
        count_row(s) <= s.len(),
    decreases s.len(),
{
    if s.len() > 0 {
        lemma_count_row_bound(s.drop_last());
    }
}

proof fn lemma_count_row_leq(a: Seq<bool>, b: Seq<bool>)
    requires
        row_leq(a, b),
    ensures
        count_row(a) <= count_row(b),
        (exists|i: int| 0 <= i < a.len() && a[i] != b[i]) ==> count_row(a) < count_row(b),
    decreases a.len(),
{
    if a.len() > 0 {
        assert(row_leq(a.drop_last(), b.drop_last()));
        lemma_count_row_leq(a.drop_last(), b.drop_last());
        if exists|i: int| 0 <= i < a.len() && a[i] != b[i] {
            let i = choose|i: int| 0 <= i < a.len() && a[i] != b[i];
            if i < a.len() - 1 {
                assert(a.drop_last()[i] != b.drop_last()[i]);
            } else {
                assert(!a.last() && b.last());
            }
        }
    }
}

proof fn lemma_count_rows_leq(r1: Seq<Vec<bool>>, r2: Seq<Vec<bool>>)
    requires
        rows_leq(r1, r2),
    ensures
        count_rows(r1) <= count_rows(r2),
        (exists|n: int, i: int|
            0 <= n < r1.len() && 0 <= i < r1[n]@.len() && r1[n]@[i] != r2[n]@[i]) ==> count_rows(r1)
            < count_rows(r2),
    decreases r1.len(),
{
    if r1.len() > 0 {
        assert(rows_leq(r1.drop_last(), r2.drop_last()));
        lemma_count_rows_leq(r1.drop_last(), r2.drop_last());
        assert(row_leq(r1.last()@, r2.last()@));
        lemma_count_row_leq(r1.last()@, r2.last()@);
        if exists|n: int, i: int|
            0 <= n < r1.len() && 0 <= i < r1[n]@.len() && r1[n]@[i] != r2[n]@[i] {
            let (n, i) = choose|n: int, i: int|
                0 <= n < r1.len() && 0 <= i < r1[n]@.len() && r1[n]@[i] != r2[n]@[i];
            if n < r1.len() - 1 {
                assert(r1.drop_last()[n]@[i] != r2.drop_last()[n]@[i]);
            } else {
                assert(r1.last()@[i] != r2.last()@[i]);
                assert(exists|i2: int|
                    0 <= i2 < r1.last()@.len() && r1.last()@[i2] != r2.last()@[i2]);
            }
        }
    }
}

proof fn lemma_count_rows_bound(rows: Seq<Vec<bool>>, n_vars: usize)
    requires
        forall|n: int| 0 <= n < rows.len() ==> (#[trigger] rows[n])@.len() == n_vars,
    ensures
        count_rows(rows) <= rows.len() * n_vars,
    decreases rows.len(),
{
    if rows.len() > 0 {
        lemma_count_rows_bound(rows.drop_last(), n_vars);
        lemma_count_row_bound(rows.last()@);
        assert((rows.len() - 1) * n_vars + n_vars == rows.len() * n_vars) by (nonlinear_arith);
    }
}

/// The equation's right-hand side only grows with the table.
proof fn lemma_formula_monotone(
    c: Cfg,
    r1: Seq<Vec<bool>>,
    r2: Seq<Vec<bool>>,
    n_vars: usize,
    n: int,
    v: int,
)
    requires
        rows_leq(r1, r2),
        forall|m: int| 0 <= m < r1.len() ==> (#[trigger] r1[m])@.len() == n_vars,
        0 <= v < n_vars,
        live_formula(c, r1, n, v),
    ensures
        live_formula(c, r2, n, v),
{
    if !op_uses(c.ops@[n], v as usize) {
        let s = choose|s: int|
            0 <= s < c.succs@[n]@.len() && c.succs@[n]@[s] < r1.len() && r1[c.succs@[n]@[s] as int]@[v];
        assert(row_leq(r1[c.succs@[n]@[s] as int]@, r2[c.succs@[n]@[s] as int]@));
        assert(r2[c.succs@[n]@[s] as int]@[v]);
    }
}

/// The liveness equation only reads the rows through their views: two row
/// tables that agree on column `w` give the formula the same value there.
proof fn lemma_formula_congruent(
    c: Cfg,
    r1: Seq<Vec<bool>>,
    r2: Seq<Vec<bool>>,
    m: int,
    w: int,
)
    requires
        r1.len() == r2.len(),
        forall|x: int| 0 <= x < r1.len() ==> (#[trigger] r1[x])@[w] == r2[x]@[w],
    ensures
        live_formula(c, r1, m, w) == live_formula(c, r2, m, w),
{
    if !op_uses(c.ops@[m], w as usize) && !op_defs(c.ops@[m], w as usize) {
        if exists|s: int|
            0 <= s < c.succs@[m]@.len() && c.succs@[m]@[s] < r1.len() && r1[c.succs@[m]@[s] as int]@[w] {
            let s = choose|s: int|
                0 <= s < c.succs@[m]@.len() && c.succs@[m]@[s] < r1.len()
                    && r1[c.succs@[m]@[s] as int]@[w];
            assert(r2[c.succs@[m]@[s] as int]@[w]);
        }
        if exists|s: int|
            0 <= s < c.succs@[m]@.len() && c.succs@[m]@[s] < r2.len() && r2[c.succs@[m]@[s] as int]@[w] {
            let s = choose|s: int|
                0 <= s < c.succs@[m]@.len() && c.succs@[m]@[s] < r2.len()
                    && r2[c.succs@[m]@[s] as int]@[w];
            assert(r1[c.succs@[m]@[s] as int]@[w]);
        }
    }
}

/// One round-robin pass of the liveness iteration.  Returns whether any
/// row changed; when none did, every row satisfies its dataflow equation.
fn live_pass(cfg: &Cfg, rows: &mut Vec<Vec<bool>>, n_vars: usize) -> (changed: bool)
    requires
        cfg_wf(*cfg),
        rows_shaped(old(rows)@, cfg.ops@.len() as int, n_vars),
        rows_sound(*cfg, old(rows)@, n_vars),
        rows_progressive(*cfg, old(rows)@, n_vars),
    ensures
        rows_shaped(final(rows)@, cfg.ops@.len() as int, n_vars),
        rows_sound(*cfg, final(rows)@, n_vars),
        rows_progressive(*cfg, final(rows)@, n_vars),
        rows_leq(old(rows)@, final(rows)@),
        changed ==> exists|n: int, i: int|
            0 <= n < old(rows)@.len() && 0 <= i < old(rows)@[n]@.len() && old(rows)@[n]@[i]
                != final(rows)@[n]@[i],
        !changed ==> forall|n: int, v: int|
            0 <= n < final(rows)@.len() && 0 <= v < n_vars ==> (#[trigger] final(rows)@[n]@[v])
                == live_formula(*cfg, final(rows)@, n, v),
{
    let ghost rows_start = rows@;
    let mut changed = false;
    let mut n: usize = 0;
    while n < cfg.ops.len()
        invariant
            cfg_wf(*cfg),
            n <= cfg.ops@.len(),
            rows_shaped(rows@, cfg.ops@.len() as int, n_vars),
            rows_sound(*cfg, rows@, n_vars),
            rows_progressive(*cfg, rows@, n_vars),
            rows_shaped(rows_start, cfg.ops@.len() as int, n_vars),
            rows_leq(rows_start, rows@),
            forall|m: int| n <= m < rows@.len() ==> rows@[m] == rows_start[m],
            changed ==> exists|n0: int, i: int|
                0 <= n0 < n && 0 <= i < rows_start[n0]@.len() && rows_start[n0]@[i]
                    != rows@[n0]@[i],
            !changed ==> forall|m: int, v: int|
                0 <= m < n && 0 <= v < n_vars ==> (#[trigger] rows@[m]@[v]) == live_formula(
                    *cfg,
                    rows@,
                    m,
                    v,
                ),
        decreases cfg.ops@.len() - n,
    {
        let row = live_row(cfg, rows, n, n_vars);
        let mut same = true;
        let mut v: usize = 0;
        while v < n_vars
            invariant
                n < rows@.len(),
                rows@[n as int]@.len() == n_vars,
                row@.len() == n_vars,
                v <= n_vars,
                same == (forall|w: int| 0 <= w < v ==> rows@[n as int]@[w] == row@[w]),
            decreases n_vars - v,
        {
            if row[v] != rows[n][v] {
                same = false;
            }
            v += 1;
        }
        if same {
            proof {
                assert(rows@[n as int]@ =~= row@);
            }
        } else {
            changed = true;
        }
        let ghost rows_before = rows@;
        rows.set(n, row);
        proof {
            assert forall|w: int|
                0 <= w < n_vars && rows_before[n as int]@[w] implies rows@[n as int]@[w] by {
                assert(live_formula(*cfg, rows_before, n as int, w));
            }
            assert(rows_leq(rows_before, rows@));
            assert forall|m: int, w: int|
                0 <= m < rows@.len() && 0 <= w < n_vars && rows_start[m]@[w]
                    implies #[trigger] rows@[m]@[w] by {
                if m == n {
                    assert(rows_before[m]@[w]);
                } else {
                    assert(rows_before[m]@[w]);
                }
            }
            assert(rows_leq(rows_start, rows@));
            assert forall|m: int, w: int|
                0 <= m < rows@.len() && 0 <= w < n_vars && (#[trigger] rows@[m]@[w])
                    implies live_formula(*cfg, rows@, m, w) by {
                if m == n {
                    assert(rows@[m]@[w] == live_formula(*cfg, rows_before, m, w));
                    lemma_formula_monotone(*cfg, rows_before, rows@, n_vars, m, w);
                } else {
                    assert(rows_before[m]@[w]);
                    assert(live_formula(*cfg, rows_before, m, w));
                    lemma_formula_monotone(*cfg, rows_before, rows@, n_vars, m, w);
                }
            }
            if !same {
                let w = choose|w: int| 0 <= w < n_vars && rows_before[n as int]@[w] != row@[w];
                assert(rows_start[n as int]@[w] != rows@[n as int]@[w]);
            }
            assert forall|m: int, w: int|
                0 <= m < rows@.len() && 0 <= w < n_vars && (#[trigger] rows@[m]@[w])
                    implies var_used_in(*cfg, w as usize) by {
                if m == n {
                    assert(live_formula(*cfg, rows_before, n as int, w));
                    if !op_uses(cfg.ops@[n as int], w as usize) {
                        let s = choose|s: int|
                            0 <= s < cfg.succs@[n as int]@.len() && cfg.succs@[n as int]@[s]
                                < rows_before.len() && rows_before[cfg.succs@[n as int]@[s] as int]@[w];
                        assert(rows_before[cfg.succs@[n as int]@[s] as int]@[w]);
                    }
                } else {
                    assert(rows_before[m]@[w]);
                }
            }
            if !changed {
                assert forall|m: int, w: int| 0 <= m < n + 1 && 0 <= w < n_vars implies (
                    #[trigger] rows@[m]@[w]) == live_formula(*cfg, rows@, m, w) by {
                    assert(forall|x: int|
                        0 <= x < rows@.len() ==> (#[trigger] rows@[x])@[w] == rows_before[x]@[w]);
                    lemma_formula_congruent(*cfg, rows@, rows_before, m, w);
                    if m < n {
                        assert(rows_before[m]@[w] == live_formula(*cfg, rows_before, m, w));
                    } else {
                        assert(rows@[n as int]@[w] == live_formula(*cfg, rows_before, n as int, w));
                    }
                }
            }
        }
        n += 1;
    }
    changed
}

/// Computes, for every node, which bindings are live on entry to it, by
/// iterating the liveness equations to a fixed point.  Fails only when
/// the iteration cap is exhausted, and the cap cannot be exhausted as
/// long as the graph's node count times its binding count stays under it:
/// liveness grows monotonically from all-dead, so the fixed point arrives
/// within one pass per bit.
pub fn compute_liveness(cfg: &Cfg, n_vars: usize) -> (r: Result<Vec<Vec<bool>>, AnalysisError>)
    requires
        cfg_wf(*cfg),
    ensures
        match r {
            Ok(rows) => {
                &&& rows_shaped(rows@, cfg.ops@.len() as int, n_vars)
                &&& rows_sound(*cfg, rows@, n_vars)
                &&& forall|n: int, v: int|
                    0 <= n < rows@.len() && 0 <= v < n_vars ==> (#[trigger] rows@[n]@[v])
                        == live_formula(*cfg, rows@, n, v)
            },
            Err(e) => e == AnalysisError::LimitExceeded,
        },
        (cfg.ops@.len() as int) * (n_vars as int) < FIXED_POINT_CAP as int ==> r is Ok,
{
    let mut rows: Vec<Vec<bool>> = Vec::new();
    let mut n: usize = 0;
    while n < cfg.ops.len()
        invariant
            n <= cfg.ops@.len(),
            rows@.len() == n,
            forall|m: int| 0 <= m < rows@.len() ==> (#[trigger] rows@[m])@.len() == n_vars,
            forall|m: int, v: int|
                0 <= m < rows@.len() && 0 <= v < n_vars ==> !(#[trigger] rows@[m]@[v]),
        decreases cfg.ops@.len() - n,
    {
        let mut row: Vec<bool> = Vec::new();
        let mut v: usize = 0;
        while v < n_vars
            invariant
                v <= n_vars,
                row@.len() == v,
                forall|w: int| 0 <= w < v ==> !(#[trigger] row@[w]),
            decreases n_vars - v,
        {
            row.push(false);
            v += 1;
        }
        rows.push(row);
        n += 1;
    }
    let mut round: u64 = 0;
    while round < FIXED_POINT_CAP
        invariant
            cfg_wf(*cfg),
            rows_shaped(rows@, cfg.ops@.len() as int, n_vars),
            rows_sound(*cfg, rows@, n_vars),
            rows_progressive(*cfg, rows@, n_vars),
            round as int <= count_rows(rows@) as int,
        decreases FIXED_POINT_CAP - round,
    {
        let ghost pre = rows@;
        let changed = live_pass(cfg, &mut rows, n_vars);
        if !changed {
            return Ok(rows);
        }
        proof {
            lemma_count_rows_leq(pre, rows@);
            assert(count_rows(pre) < count_rows(rows@));
        }
        round += 1;
    }
    proof {
        lemma_count_rows_bound(rows@, n_vars);
        assert((FIXED_POINT_CAP as int) <= count_rows(rows@) as int);
    }
    Err(AnalysisError::LimitExceeded)
}

/// A binding no operation reads is live nowhere: any loan it holds is
/// over the moment it is created, so nothing can ever conflict with that
/// loan.  This is the last-use rule stated at the liveness level.
pub proof fn lemma_unread_binding_never_live(c: Cfg, rows: Seq<Vec<bool>>, n_vars: usize, v: usize)
    requires
        rows_sound(c, rows, n_vars),
        v < n_vars,
        forall|n: int| 0 <= n < c.ops@.len() ==> !op_uses(#[trigger] c.ops@[n], v),
    ensures
        forall|n: int| 0 <= n < rows.len() ==> !(#[trigger] rows[n]@[v as int]),
{
    assert forall|n: int| 0 <= n < rows.len() implies !(#[trigger] rows[n]@[v as int]) by {
        if rows[n]@[v as int] {
            assert(var_used_in(c, v));
        }
    }
}

} // verus!
