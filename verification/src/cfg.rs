//! The control-flow graph and the lowering of a structured body onto it.
//!
//! Each node carries one operation; an uninterrupted statement sequence
//! becomes a chain of nodes.  `Skip` nodes mark the split and join points
//! that branching and looping introduce.  Lowering consumes the tree, so
//! every non-`Skip` node holds exactly an operation of the original body.

use crate::ast::{Ast, Op, ast_contains_op};
use vstd::prelude::*;

verus! {

/// A control-flow graph: one operation per node, and for each node the
/// indices of its successors.  Node `0` is the entry; a node with no
/// successors is terminal.
pub struct Cfg {
    pub ops: Vec<Op>,
    pub succs: Vec<Vec<usize>>,
}

/// Structural well-formedness: one successor row per node, and every edge
/// target is a node of the graph.
pub open spec fn cfg_wf(c: Cfg) -> bool {
    &&& c.ops@.len() == c.succs@.len()
    &&& forall|n: int, j: int|
        0 <= n < c.succs@.len() && 0 <= j < c.succs@[n]@.len() ==> #[trigger] (c.succs@[n]@[j])
            < c.ops@.len()
}

/// Every leaf operation of the tree stands at some node of the graph:
/// lowering loses no statement.
pub open spec fn cfg_covers(c: Cfg, ast: Ast) -> bool {
    forall|op: Op|
        ast_contains_op(ast, op) ==> exists|n: int|
            0 <= n < c.ops@.len() && c.ops@[n] == op
}

/// Every operation of the graph is either a builder-inserted `Skip` or a
/// leaf of the given tree.
pub open spec fn cfg_ops_from(c: Cfg, ast: Ast) -> bool {
    forall|n: int|
        0 <= n < c.ops@.len() ==> (#[trigger] c.ops@[n]) == Op::Skip || ast_contains_op(
            ast,
            c.ops@[n],
        )
}

/// Appends a node with no successors yet and returns its index.
fn push_node(cfg: &mut Cfg, op: Op) -> (id: usize)
    requires
        cfg_wf(*old(cfg)),
    ensures
        cfg_wf(*final(cfg)),
        id == old(cfg).ops@.len(),
        final(cfg).ops@ == old(cfg).ops@.push(op),
        final(cfg).succs@.len() == old(cfg).succs@.len() + 1,
        forall|n: int| 0 <= n < old(cfg).succs@.len() ==> final(cfg).succs@[n] == old(cfg).succs@[n],
        final(cfg).succs@[id as int]@.len() == 0,
{
    let id = cfg.ops.len();
    cfg.ops.push(op);
    cfg.succs.push(Vec::new());
    id
}

/// Adds the edge `from -> to`.
fn add_edge(cfg: &mut Cfg, from: usize, to: usize)
    requires
        cfg_wf(*old(cfg)),
        from < old(cfg).ops@.len(),
        to < old(cfg).ops@.len(),
    ensures
        cfg_wf(*final(cfg)),
        final(cfg).ops@ == old(cfg).ops@,
        final(cfg).succs@.len() == old(cfg).succs@.len(),
        forall|n: int|
            0 <= n < final(cfg).succs@.len() && n != from ==> final(cfg).succs@[n] == old(cfg).succs@[n],
        final(cfg).succs@[from as int]@ == old(cfg).succs@[from as int]@.push(to),
{
    let mut row: Vec<usize> = Vec::new();
    let existing = &cfg.succs[from];
    let mut i: usize = 0;
    while i < existing.len()
        invariant
            i <= existing@.len(),
            row@ == existing@.subrange(0, i as int),
            existing == &cfg.succs@[from as int],
            from < cfg.succs@.len(),
        decreases existing@.len() - i,
    {
        row.push(existing[i]);
        i += 1;
    }
    assert(row@ =~= cfg.succs@[from as int]@);
    row.push(to);
    cfg.succs.set(from, row);
}

/// Lowers one subtree into the graph, returning the indices of its entry
/// and exit nodes.  Existing nodes keep their operations and edges; every
/// added node holds a `Skip` or a leaf operation of the subtree.
fn build_ast(ast: Ast, cfg: &mut Cfg) -> (r: (usize, usize))
    requires
        cfg_wf(*old(cfg)),
    ensures
        cfg_wf(*final(cfg)),
        final(cfg).ops@.len() > old(cfg).ops@.len(),
        forall|n: int| 0 <= n < old(cfg).ops@.len() ==> final(cfg).ops@[n] == old(cfg).ops@[n],
        old(cfg).ops@.len() <= r.0 < final(cfg).ops@.len(),
        old(cfg).ops@.len() <= r.1 < final(cfg).ops@.len(),
        forall|n: int|
            old(cfg).ops@.len() <= n < final(cfg).ops@.len() ==> (#[trigger] final(cfg).ops@[n]) == Op::Skip
                || ast_contains_op(ast, final(cfg).ops@[n]),
        forall|op: Op|
            ast_contains_op(ast, op) ==> exists|n: int|
                old(cfg).ops@.len() <= n < final(cfg).ops@.len() && final(cfg).ops@[n] == op,
    decreases ast,
{
    let ghost ast0 = ast;
    match ast {
        Ast::Stmt(op) => {
            let id = push_node(cfg, op);
            proof {
                assert forall|o: Op| ast_contains_op(ast0, o) implies exists|n: int|
                    old(cfg).ops@.len() <= n < cfg.ops@.len() && cfg.ops@[n] == o by {
                    assert(cfg.ops@[id as int] == o);
                }
            }
            (id, id)
        },
        Ast::Sequence(a, b) => {
            let ghost ga = *a;
            let ghost gb = *b;
            let ghost pre_a = cfg.ops@.len();
            let (ea, xa) = build_ast(*a, cfg);
            let ghost ops_a = cfg.ops@;
            let (eb, xb) = build_ast(*b, cfg);
            let ghost ops_b = cfg.ops@;
            add_edge(cfg, xa, eb);
            proof {
                assert(forall|op: Op|
                    ast_contains_op(ga, op) || ast_contains_op(gb, op) ==> ast_contains_op(
                        ast0,
                        op,
                    ));
                assert forall|o: Op| ast_contains_op(ast0, o) implies exists|n: int|
                    old(cfg).ops@.len() <= n < cfg.ops@.len() && cfg.ops@[n] == o by {
                    if ast_contains_op(ga, o) {
                        let n = choose|n: int| pre_a <= n < ops_a.len() && ops_a[n] == o;
                        assert(cfg.ops@[n] == ops_b[n]);
                        assert(ops_b[n] == ops_a[n]);
                        assert(cfg.ops@[n] == o);
                    } else {
                        assert(ast_contains_op(gb, o));
                        let n = choose|n: int| ops_a.len() <= n < ops_b.len() && ops_b[n] == o;
                        assert(cfg.ops@[n] == o);
                    }
                }
            }
            (ea, xb)
        },
        Ast::If(a, b) => {
            let ghost ga = *a;
            let ghost gb = *b;
            let entry = push_node(cfg, Op::Skip);
            let ghost pre_a = cfg.ops@.len();
            let (ea, xa) = build_ast(*a, cfg);
            let ghost ops_a = cfg.ops@;
            let (eb, xb) = build_ast(*b, cfg);
            let ghost ops_b = cfg.ops@;
            let merge = push_node(cfg, Op::Skip);
            add_edge(cfg, entry, ea);
            add_edge(cfg, entry, eb);
            add_edge(cfg, xa, merge);
            add_edge(cfg, xb, merge);
            proof {
                assert(forall|op: Op|
                    ast_contains_op(ga, op) || ast_contains_op(gb, op) ==> ast_contains_op(
                        ast0,
                        op,
                    ));
                assert forall|o: Op| ast_contains_op(ast0, o) implies exists|n: int|
                    old(cfg).ops@.len() <= n < cfg.ops@.len() && cfg.ops@[n] == o by {
                    if ast_contains_op(ga, o) {
                        let n = choose|n: int| pre_a <= n < ops_a.len() && ops_a[n] == o;
                        assert(ops_b[n] == ops_a[n]);
                        assert(cfg.ops@[n] == ops_b[n]);
                        assert(cfg.ops@[n] == o);
                    } else {
                        assert(ast_contains_op(gb, o));
                        let n = choose|n: int| ops_a.len() <= n < ops_b.len() && ops_b[n] == o;
                        assert(cfg.ops@[n] == ops_b[n]);
                        assert(cfg.ops@[n] == o);
                    }
                }
            }
            (entry, merge)
        },
        Ast::Loop(a) => {
            let ghost ga = *a;
            let entry = push_node(cfg, Op::Skip);
            let ghost pre_a = cfg.ops@.len();
            let (ea, xa) = build_ast(*a, cfg);
            let ghost ops_a = cfg.ops@;
            let exit = push_node(cfg, Op::Skip);
            add_edge(cfg, entry, ea);
            add_edge(cfg, xa, entry);
            add_edge(cfg, entry, exit);
            proof {
                assert(forall|op: Op|
                    ast_contains_op(ga, op) ==> ast_contains_op(ast0, op));
                assert forall|o: Op| ast_contains_op(ast0, o) implies exists|n: int|
                    old(cfg).ops@.len() <= n < cfg.ops@.len() && cfg.ops@[n] == o by {
                    assert(ast_contains_op(ga, o));
                    let n = choose|n: int| pre_a <= n < ops_a.len() && ops_a[n] == o;
                    assert(cfg.ops@[n] == ops_a[n]);
                    assert(cfg.ops@[n] == o);
                }
            }
            (entry, exit)
        },
    }
}

/// Lowers a whole body.  The graph's entry is node `0`, a `Skip` that leads
/// into the body; the returned index is the body's exit node.
pub fn build_cfg(body: Ast) -> (r: (Cfg, usize))
    ensures
        cfg_wf(r.0),
        r.0.ops@.len() > 0,
        r.1 < r.0.ops@.len(),
        cfg_ops_from(r.0, body),
        cfg_covers(r.0, body),
{
    let mut cfg = Cfg { ops: Vec::new(), succs: Vec::new() };
    let entry = push_node(&mut cfg, Op::Skip);
    let (e, x) = build_ast(body, &mut cfg);
    add_edge(&mut cfg, entry, e);
    (cfg, x)
}

} // verus!
