//! What renaming guarantees: a variable is defined in one place, and what reaches a
//! phi is a real version.

use vstd::prelude::*;
use crate::ssa::rename::{current, define, fill_successors, filled, fits, fresh, initial, kids, lemma_define, lemma_root, mentioned, next_version, rename_heads, rename_kids, rename_ops, rename_tree, renamed, renamed_op, root_from, shaped, slot_from, sound, Plan, Renamed};
use crate::ssa::{FunctionView, KindView, Location, OpView, PhiView, SsaVar};

verus! {

/// The two are not the same variable, as long as versions are counted: `0` stands for
/// none, and the last one is never left.
pub open spec fn apart(a: SsaVar, b: SsaVar) -> bool {
    a == b ==> a.version == 0 || a.version == u32::MAX
}

/// The version of `d` has been given out.
pub open spec fn counted(next: Map<Location, u32>, d: SsaVar) -> bool {
    d.version < next_version(next, d.location) || d.version == u32::MAX
}

/// Phi `k` of block `b` exists.
pub open spec fn phi_in(st: Renamed, b: int, k: int) -> bool {
    0 <= b < st.phis.len() && 0 <= k < st.phis[b].len()
}

/// Operation `i` of block `b` exists and defines something.
pub open spec fn def_in(st: Renamed, b: int, i: int) -> bool {
    0 <= b < st.ops.len() && 0 <= i < st.ops[b].len() && st.ops[b][i].def is Some
}

/// What phi `k` of block `b` defines.
pub open spec fn out_at(st: Renamed, b: int, k: int) -> SsaVar {
    st.phis[b][k].out
}

/// What operation `i` of block `b` defines.
pub open spec fn def_at(st: Renamed, b: int, i: int) -> SsaVar {
    st.ops[b][i].def->0
}

/// No variable is defined in two places.
pub open spec fn single(st: Renamed) -> bool {
    &&& forall|b: int, k: int, c: int, m: int|
        #![trigger out_at(st, b, k), out_at(st, c, m)]
        phi_in(st, b, k) && phi_in(st, c, m) && (b != c || k != m) ==> apart(
            out_at(st, b, k),
            out_at(st, c, m),
        )
    &&& forall|b: int, k: int, c: int, i: int|
        #![trigger out_at(st, b, k), def_at(st, c, i)]
        phi_in(st, b, k) && def_in(st, c, i) ==> apart(out_at(st, b, k), def_at(st, c, i))
    &&& forall|b: int, j: int, c: int, i: int|
        #![trigger def_at(st, b, j), def_at(st, c, i)]
        def_in(st, b, j) && def_in(st, c, i) && (b != c || j != i) ==> apart(
            def_at(st, b, j),
            def_at(st, c, i),
        )
}

/// Every version that is defined has been given out.
pub open spec fn all_counted(st: Renamed) -> bool {
    &&& forall|b: int, k: int|
        phi_in(st, b, k) ==> counted(st.next, #[trigger] out_at(st, b, k))
    &&& forall|b: int, i: int|
        def_in(st, b, i) ==> counted(st.next, #[trigger] def_at(st, b, i))
}

/// Argument `j` of phi `k` of block `b`.
pub open spec fn arg_at(st: Renamed, b: int, k: int, j: int) -> Option<SsaVar> {
    st.phis[b][k].args[j]
}

/// Every argument that reaches a phi is a real version.
pub open spec fn args_real(st: Renamed) -> bool {
    forall|b: int, k: int, j: int|
        phi_in(st, b, k) && 0 <= j < st.phis[b][k].args.len() ==> match #[trigger] arg_at(st, b, k, j) {
            Some(v) => v.version > 0,
            None => true,
        }
}

/// Each phi stands for the location that the plan gives it.
pub open spec fn located(p: Plan, st: Renamed) -> bool {
    forall|b: int, k: int|
        phi_in(st, b, k) ==> (#[trigger] out_at(st, b, k)).location == p.phi_locs[b][k]
}

/// Each phi stands for a location that the function mentions.
pub open spec fn phis_mentioned(p: Plan) -> bool {
    forall|b: int, k: int|
        0 <= b < p.phi_locs.len() && 0 <= k < p.phi_locs[b].len() ==> mentioned(
            p.flat,
            #[trigger] p.phi_locs[b][k],
        )
}

/// The renamed operations are P-code.
pub open spec fn plain(st: Renamed) -> bool {
    forall|b: int, i: int|
        0 <= b < st.ops.len() && 0 <= i < st.ops[b].len() ==> (#[trigger] st.ops[b][i]).kind is Pcode
}

/// What every step of the walk keeps.
pub open spec fn orderly(p: Plan, st: Renamed) -> bool {
    &&& shaped(p, st)
    &&& sound(p, st.env, st.next)
    &&& single(st)
    &&& all_counted(st)
    &&& located(p, st)
    &&& args_real(st)
    &&& plain(st)
}

proof fn lemma_counted_after(st: Renamed, l: Location, d: SsaVar)
    requires
        counted(st.next, d),
    ensures
        counted(define(st, l).next, d),
        counted(define(st, l).next, fresh(st, l)),
{
}

proof fn lemma_heads(p: Plan, b: int, n: int, st: Renamed)
    requires
        fits(p),
        0 <= b < p.flat.len(),
        0 <= n <= p.phi_locs[b].len(),
        orderly(p, st),
    ensures
        orderly(p, rename_heads(p, b, n, st)),
    decreases n,
{
    if n > 0 {
        lemma_heads(p, b, n - 1, st);
        let s = rename_heads(p, b, n - 1, st);
        let l = p.phi_locs[b][n - 1];
        let new = PhiView { out: fresh(s, l), args: s.phis[b][n - 1].args };
        let t = Renamed { phis: s.phis.update(b, s.phis[b].update(n - 1, new)), ..s };
        let r = define(t, l);
        assert(r == rename_heads(p, b, n, st));
        lemma_define(p, s, l);
        assert(s.phis[b].len() == p.phi_locs[b].len());
        assert forall|c: int, k: int| phi_in(r, c, k) implies phi_in(s, c, k) && #[trigger] out_at(r, c, k)
            == (if c == b && k == n - 1 {
            fresh(s, l)
        } else {
            out_at(s, c, k)
        }) by {
            assert(s.phis[c].len() == p.phi_locs[c].len());
        }
        assert forall|c: int, i: int| def_in(r, c, i) implies def_in(s, c, i) && #[trigger] def_at(r, c, i)
            == def_at(s, c, i) by {}
        assert forall|c: int, k: int| phi_in(r, c, k) implies counted(r.next, #[trigger] out_at(r, c, k)) by {
            lemma_counted_after(s, l, out_at(s, c, k));
        }
        assert forall|c: int, i: int| def_in(r, c, i) implies counted(r.next, #[trigger] def_at(r, c, i)) by {
            lemma_counted_after(s, l, def_at(s, c, i));
        }
        assert(single(r));
        assert forall|c: int, k: int, j: int|
            phi_in(r, c, k) && 0 <= j < r.phis[c][k].args.len() implies (match #[trigger] arg_at(r, c, k, j) {
            Some(v) => v.version > 0,
            None => true,
        }) by {
            assert(phi_in(s, c, k)) by {
                assert(s.phis[c].len() == p.phi_locs[c].len());
            }
            assert(arg_at(r, c, k, j) == arg_at(s, c, k, j));
        }
        assert(shaped(p, r)) by {
            assert forall|x: int| 0 <= x < p.flat.len() implies (#[trigger] r.phis[x]).len()
                == p.phi_locs[x].len() by {
                assert(s.phis[x].len() == p.phi_locs[x].len());
            }
            assert forall|x: int, y: int|
                0 <= x < p.flat.len() && 0 <= y < p.phi_locs[x].len() implies (#[trigger] r.phis[x][y]).args.len()
                == p.pred[x].len() by {
                assert(s.phis[x][y].args.len() == p.pred[x].len());
            }
        }
    }
}

proof fn lemma_body(p: Plan, b: int, n: int, st: Renamed)
    requires
        fits(p),
        0 <= b < p.flat.len(),
        0 <= n <= p.flat[b].len(),
        orderly(p, st),
    ensures
        orderly(p, rename_ops(p, b, n, st)),
    decreases n,
{
    if n > 0 {
        lemma_body(p, b, n - 1, st);
        let s = rename_ops(p, b, n - 1, st);
        let f = p.flat[b][n - 1];
        let new = renamed_op(f, s);
        let t = Renamed { ops: s.ops.update(b, s.ops[b].push(new)), ..s };
        let r = rename_ops(p, b, n, st);
        let last = s.ops[b].len() as int;
        if let Some(l) = f.def {
            lemma_define(p, s, l);
        }
        assert forall|c: int, k: int| phi_in(r, c, k) implies phi_in(s, c, k) && #[trigger] out_at(r, c, k)
            == out_at(s, c, k) by {}
        assert forall|c: int, i: int| def_in(r, c, i) implies (if c == b && i == last {
            f.def is Some && #[trigger] def_at(r, c, i) == fresh(s, f.def->0)
        } else {
            def_in(s, c, i) && def_at(r, c, i) == def_at(s, c, i)
        }) by {}
        assert forall|c: int, k: int| phi_in(r, c, k) implies counted(r.next, #[trigger] out_at(r, c, k)) by {
            if let Some(l) = f.def {
                lemma_counted_after(s, l, out_at(s, c, k));
            }
        }
        assert forall|c: int, i: int| def_in(r, c, i) implies counted(r.next, #[trigger] def_at(r, c, i)) by {
            if let Some(l) = f.def {
                if c == b && i == last {
                    assert(counted(r.next, fresh(s, l)));
                } else {
                    lemma_counted_after(s, l, def_at(s, c, i));
                }
            }
        }
        assert(single(r));
        assert forall|c: int, k: int, j: int|
            phi_in(r, c, k) && 0 <= j < r.phis[c][k].args.len() implies (match #[trigger] arg_at(r, c, k, j) {
            Some(v) => v.version > 0,
            None => true,
        }) by {
            assert(arg_at(r, c, k, j) == arg_at(s, c, k, j));
        }
        assert forall|c: int, i: int| 0 <= c < r.ops.len() && 0 <= i < r.ops[c].len() implies (
        #[trigger] r.ops[c][i]).kind is Pcode by {
            if c != b || i != last {
                assert(r.ops[c][i] == s.ops[c][i]);
            }
        }
    }
}

pub proof fn lemma_slot(preds: Seq<u32>, b: u32, i: int)
    requires
        0 <= i,
        preds.len() > 0,
    ensures
        0 <= slot_from(preds, b, i) < preds.len(),
    decreases preds.len() - i,
{
    if i < preds.len() && preds[i] != b {
        lemma_slot(preds, b, i + 1);
    }
}

proof fn lemma_edges(p: Plan, b: int, n: int, st: Renamed)
    requires
        fits(p),
        phis_mentioned(p),
        0 <= b < p.flat.len(),
        0 <= n <= p.succ[b].len(),
        orderly(p, st),
    ensures
        orderly(p, fill_successors(p, b, n, st)),
    decreases n,
{
    if n > 0 {
        lemma_edges(p, b, n - 1, st);
        let s = fill_successors(p, b, n - 1, st);
        let t = p.succ[b][n - 1] as int;
        assert(p.succ[b][n - 1] < p.flat.len());
        let slot = slot_from(p.pred[t], b as u32, 0);
        let r = fill_successors(p, b, n, st);
        assert(s.phis[t].len() == p.phi_locs[t].len());
        assert(r.phis == s.phis.update(t, filled(s.phis[t], slot, s)));
        if p.phi_locs[t].len() > 0 {
            lemma_slot(p.pred[t], b as u32, 0);
        }
        assert forall|c: int, k: int| phi_in(r, c, k) implies phi_in(s, c, k) && #[trigger] out_at(r, c, k)
            == out_at(s, c, k) by {
            assert(s.phis[c].len() == p.phi_locs[c].len());
        }
        assert forall|c: int, i: int| def_in(r, c, i) implies def_in(s, c, i) && #[trigger] def_at(r, c, i)
            == def_at(s, c, i) by {}
        assert(single(r));
        assert forall|c: int, k: int, j: int|
            phi_in(r, c, k) && 0 <= j < r.phis[c][k].args.len() implies (match #[trigger] arg_at(r, c, k, j) {
            Some(v) => v.version > 0,
            None => true,
        }) by {
            assert(phi_in(s, c, k)) by {
                assert(s.phis[c].len() == p.phi_locs[c].len());
            }
            if c == t {
                let l = out_at(s, t, k).location;
                assert(l == p.phi_locs[t][k]);
                assert(mentioned(p.flat, l));
                assert(s.env.dom().contains(l));
                assert(current(s, l).version > 0);
                assert(s.phis[t][k].args.len() == p.pred[t].len());
                if j != slot {
                    assert(arg_at(r, c, k, j) == arg_at(s, c, k, j));
                }
            } else {
                assert(arg_at(r, c, k, j) == arg_at(s, c, k, j));
            }
        }
        assert(shaped(p, r)) by {
            assert forall|x: int| 0 <= x < p.flat.len() implies (#[trigger] r.phis[x]).len()
                == p.phi_locs[x].len() by {
                assert(s.phis[x].len() == p.phi_locs[x].len());
            }
            assert forall|x: int, y: int|
                0 <= x < p.flat.len() && 0 <= y < p.phi_locs[x].len() implies (#[trigger] r.phis[x][y]).args.len()
                == p.pred[x].len() by {
                assert(s.phis[x][y].args.len() == p.pred[x].len());
            }
        }
    }
}

/// The children of a block are blocks.
proof fn lemma_kids(p: Plan, b: int, n: int)
    requires
        0 <= n <= p.idom.len() <= u32::MAX,
    ensures
        forall|k: int|
            0 <= k < crate::structure::pdom::children_of(p.idom, b as u32, n).len() ==> (
            #[trigger] crate::structure::pdom::children_of(p.idom, b as u32, n)[k]) < n,
    decreases n,
{
    if n > 0 {
        lemma_kids(p, b, n - 1);
        let a = crate::structure::pdom::children_of(p.idom, b as u32, n - 1);
        let c = crate::structure::pdom::children_of(p.idom, b as u32, n);
        assert forall|k: int| 0 <= k < c.len() implies (#[trigger] c[k]) < n by {
            if k < a.len() {
                assert(c[k] == a[k]);
            }
        }
    }
}

proof fn lemma_tree(p: Plan, b: int, st: Renamed, depth: nat)
    requires
        fits(p),
        phis_mentioned(p),
        0 <= b < p.flat.len(),
        orderly(p, st),
    ensures
        orderly(p, rename_tree(p, b, st, depth)),
    decreases depth, 0int,
{
    if depth > 0 {
        let heads = rename_heads(p, b, p.phi_locs[b].len() as int, st);
        lemma_heads(p, b, p.phi_locs[b].len() as int, st);
        let body = rename_ops(p, b, p.flat[b].len() as int, heads);
        lemma_body(p, b, p.flat[b].len() as int, heads);
        let edges = fill_successors(p, b, p.succ[b].len() as int, body);
        lemma_edges(p, b, p.succ[b].len() as int, body);
        lemma_kids(p, b, p.idom.len() as int);
        lemma_row(p, kids(p, b), kids(p, b).len() as int, edges, (depth - 1) as nat);
        let below = rename_kids(p, kids(p, b), kids(p, b).len() as int, edges, (depth - 1) as nat);
        let r = Renamed { env: st.env, ..below };
        assert(single(r)) by {
            assert forall|c: int, k: int| #[trigger] out_at(r, c, k) == out_at(below, c, k) by {}
            assert forall|c: int, k: int| #[trigger] def_at(r, c, k) == def_at(below, c, k) by {}
        }
        assert(all_counted(r)) by {
            assert forall|c: int, k: int| #[trigger] out_at(r, c, k) == out_at(below, c, k) by {}
            assert forall|c: int, k: int| #[trigger] def_at(r, c, k) == def_at(below, c, k) by {}
        }
        assert(located(p, r)) by {
            assert forall|c: int, k: int| #[trigger] out_at(r, c, k) == out_at(below, c, k) by {}
        }
        assert(args_real(r)) by {
            assert forall|c: int, k: int, j: int| #[trigger] arg_at(r, c, k, j) == arg_at(below, c, k, j) by {}
        }
    }
}

proof fn lemma_row(p: Plan, k: Seq<u32>, n: int, st: Renamed, depth: nat)
    requires
        fits(p),
        phis_mentioned(p),
        0 <= n <= k.len(),
        forall|i: int| 0 <= i < k.len() ==> (#[trigger] k[i]) < p.flat.len(),
        orderly(p, st),
    ensures
        orderly(p, rename_kids(p, k, n, st, depth)),
    decreases depth, n + 1,
{
    if n > 0 {
        lemma_row(p, k, n - 1, st, depth);
        lemma_tree(p, k[n - 1] as int, rename_kids(p, k, n - 1, st, depth), depth);
    }
}

/// Renaming gives each definition a variable of its own, and every argument that
/// reaches a phi a real version.
pub proof fn law_single_assignment(p: Plan)
    requires
        fits(p),
        phis_mentioned(p),
        p.flat.len() > 0,
    ensures
        single(renamed(p)),
        args_real(renamed(p)),
        plain(renamed(p)),
        located(p, renamed(p)),
{
    let st = initial(p);
    assert(shaped(p, st));
    assert(sound(p, st.env, st.next));
    assert(single(st));
    assert(all_counted(st));
    lemma_root(p.idom, 0);
    lemma_tree(p, root_from(p.idom, 0), st, p.flat.len());
}

// ─── Functions ──────────────────────────────────────────────────────────────

/// No two operations of the function define the same variable.
pub open spec fn single_assignment(f: FunctionView) -> bool {
    forall|b: int, i: int, c: int, j: int|
        #![trigger f.blocks[b].ops[i], f.blocks[c].ops[j]]
        0 <= b < f.blocks.len() && 0 <= i < f.blocks[b].ops.len() && 0 <= c < f.blocks.len() && 0 <= j
            < f.blocks[c].ops.len() && (b != c || i != j) && f.blocks[b].ops[i].def is Some
            && f.blocks[c].ops[j].def is Some ==> apart(
            f.blocks[b].ops[i].def->0,
            f.blocks[c].ops[j].def->0,
        )
}

/// No phi of the function merges a register in version 0.
pub open spec fn merges_defined(f: FunctionView) -> bool {
    forall|b: int, i: int, k: int|
        0 <= b < f.blocks.len() && 0 <= i < f.blocks[b].ops.len() ==> #[trigger] merges_real(
            f.blocks[b].ops[i],
            k,
        )
}

/// Argument `k` of the operation, if it is a phi that has it, is no register in
/// version 0.
pub open spec fn merges_real(op: OpView, k: int) -> bool {
    match op.kind {
        KindView::Phi(phi) => 0 <= k < phi.args.len() ==> match phi.args[k] {
            Some(v) => v.location is Register ==> v.version > 0,
            None => true,
        },
        KindView::Pcode(_) => true,
    }
}

} // verus!
