//! What renaming is for: every use, and every argument of a phi, names the definition
//! that reaches it.

use vstd::prelude::*;
use crate::graph::{closed, converse, dominates, edge, is_idom, is_path, last_index, leads, reaches, step, strictly_dominates};
use crate::graph::{lemma_dominates_antisymmetric, lemma_dominates_transitive, lemma_entry_dominates, lemma_last_index, lemma_path_nodes, lemma_path_prefix, lemma_path_suffix};
use crate::ssa::cfg::{ancestor, climb, idom_tree, in_frontier, met_at};
use crate::ssa::cfg::{lemma_ancestor_dominates, lemma_climb_is_ancestor, lemma_climb_stops, lemma_dominator_is_ancestor, lemma_ended, lemma_idom_dominates_pred};
use crate::ssa::dominance::{below, lemma_below_child, lemma_child, lemma_children, lemma_children_apart, lemma_with_subs, names, with_sub, with_subs};
use crate::ssa::lower::FlatView;
use crate::ssa::rename::{current, fill_successors, filled, fits, fresh, initial, kids, mentioned, mentions, rename_heads, rename_kids, rename_ops, rename_tree, renamed, renamed_op, root_from, shaped, slot_from, version_of, Plan, Renamed};
use crate::ssa::versions::{lemma_slot, located, out_at, phi_in};
use crate::ssa::{BlockView, FunctionView, KindView, Location, OpView, PhiView, SsaVar};
use crate::structure::pdom::children_of;

verus! {

// ─── Definitions of a block ─────────────────────────────────────────────────

/// The version that the last definition of `l` among the first `n` of `row` gives.
pub open spec fn latest(row: Seq<Option<SsaVar>>, n: int, l: Location) -> Option<u32>
    decreases n,
{
    if n <= 0 {
        None
    } else if row[n - 1] is Some && row[n - 1]->0.location == l {
        Some(row[n - 1]->0.version)
    } else {
        latest(row, n - 1, l)
    }
}

/// `v`, or `other` if there is none.
pub open spec fn picked(v: Option<u32>, other: u32) -> u32 {
    match v {
        Some(x) => x,
        None => other,
    }
}

/// What block `c` defines: its phis, then its operations.
pub open spec fn row_of(st: Renamed, c: int) -> Seq<Option<SsaVar>> {
    Seq::new(st.phis[c].len() + st.ops[c].len(), |j: int| names(st, c, j))
}

proof fn lemma_latest_agree(a: Seq<Option<SsaVar>>, b: Seq<Option<SsaVar>>, n: int, l: Location)
    requires
        forall|j: int| 0 <= j < n ==> a[j] == b[j],
    ensures
        latest(a, n, l) == latest(b, n, l),
    decreases n,
{
    if n > 0 {
        lemma_latest_agree(a, b, n - 1, l);
        assert(a[n - 1] == b[n - 1]);
    }
}

/// `op` is the lowered operation `f` with versions: the same address, the same
/// operation, the same locations.
pub open spec fn carries(op: OpView, f: FlatView) -> bool {
    &&& op.va == f.va
    &&& op.kind == KindView::Pcode(f.op)
    &&& match op.def {
        Some(v) => f.def == Some(v.location),
        None => f.def is None,
    }
    &&& op.uses.len() == f.uses.len()
    &&& forall|k: int| 0 <= k < f.uses.len() ==> (#[trigger] op.uses[k]).location == f.uses[k]
}

// ─── One block ──────────────────────────────────────────────────────────────

/// What is in force is the last of the first `n` definitions of `row`, or what `env`
/// held before them.
spec fn in_force(now: Map<Location, u32>, row: Seq<Option<SsaVar>>, n: int, env: Map<Location, u32>) -> bool {
    forall|l: Location| #[trigger] version_of(now, l) == picked(latest(row, n, l), version_of(env, l))
}

/// One more definition, or none, at position `n`.
proof fn lemma_in_force(now: Map<Location, u32>, row: Seq<Option<SsaVar>>, then: Map<Location, u32>, longer: Seq<Option<SsaVar>>, n: int, env: Map<Location, u32>)
    requires
        0 <= n,
        in_force(now, row, n, env),
        forall|j: int| 0 <= j < n ==> row[j] == longer[j],
        match longer[n] {
            Some(v) => then == now.insert(v.location, v.version),
            None => then == now,
        },
    ensures
        in_force(then, longer, n + 1, env),
{
    assert forall|l: Location| #[trigger] version_of(then, l) == picked(
        latest(longer, n + 1, l),
        version_of(env, l),
    ) by {
        lemma_latest_agree(row, longer, n, l);
        assert(version_of(now, l) == picked(latest(row, n, l), version_of(env, l)));
    }
}

proof fn lemma_heads(p: Plan, b: int, n: int, st: Renamed)
    requires
        fits(p),
        shaped(p, st),
        located(p, st),
        0 <= b < p.flat.len(),
        0 <= n <= p.phi_locs[b].len(),
    ensures
        shaped(p, rename_heads(p, b, n, st)),
        located(p, rename_heads(p, b, n, st)),
        rename_heads(p, b, n, st).ops == st.ops,
        forall|c: int|
            0 <= c < p.flat.len() && c != b ==> (#[trigger] rename_heads(p, b, n, st).phis[c]) == st.phis[c],
        forall|k: int|
            0 <= k < p.phi_locs[b].len() ==> (#[trigger] rename_heads(p, b, n, st).phis[b][k]).args
                == st.phis[b][k].args,
        in_force(rename_heads(p, b, n, st).env, row_of(rename_heads(p, b, n, st), b), n, st.env),
    decreases n,
{
    if n > 0 {
        lemma_heads(p, b, n - 1, st);
        let s = rename_heads(p, b, n - 1, st);
        let l = p.phi_locs[b][n - 1];
        let new = PhiView { out: fresh(s, l), args: s.phis[b][n - 1].args };
        let t = rename_heads(p, b, n, st);
        assert(t.phis == s.phis.update(b, s.phis[b].update(n - 1, new)));
        assert(s.phis[b].len() == p.phi_locs[b].len());
        assert forall|x: int| 0 <= x < p.flat.len() implies (#[trigger] t.phis[x]).len() == p.phi_locs[x].len() by {
            assert(s.phis[x].len() == p.phi_locs[x].len());
        }
        assert forall|x: int, y: int| 0 <= x < p.flat.len() && 0 <= y < p.phi_locs[x].len() implies (
        #[trigger] t.phis[x][y]).args.len() == p.pred[x].len() by {
            assert(s.phis[x][y].args.len() == p.pred[x].len());
        }
        assert forall|c: int, k: int| phi_in(t, c, k) implies (#[trigger] out_at(t, c, k)).location
            == p.phi_locs[c][k] by {
            assert(s.phis[c].len() == p.phi_locs[c].len());
            assert(phi_in(s, c, k));
            assert(out_at(s, c, k).location == p.phi_locs[c][k]);
        }
        assert forall|k: int| 0 <= k < p.phi_locs[b].len() implies (#[trigger] t.phis[b][k]).args
            == st.phis[b][k].args by {
            assert(s.phis[b][k].args == st.phis[b][k].args);
        }
        assert forall|j: int| 0 <= j < n - 1 implies row_of(s, b)[j] == row_of(t, b)[j] by {
            assert(names(s, b, j) == names(t, b, j));
        }
        assert(row_of(t, b)[n - 1] == names(t, b, n - 1));
        lemma_in_force(s.env, row_of(s, b), t.env, row_of(t, b), n - 1, st.env);
    }
}

/// The uses of the first `n` operations of `ops` are of what is in force before them.
spec fn uses_in_force(ops: Seq<OpView>, n: int, row: Seq<Option<SsaVar>>, h: int, env: Map<Location, u32>) -> bool {
    forall|i: int, k: int|
        0 <= i < n && 0 <= k < ops[i].uses.len() ==> (#[trigger] ops[i].uses[k]).version == picked(
            latest(row, h + i, ops[i].uses[k].location),
            version_of(env, ops[i].uses[k].location),
        )
}

proof fn lemma_body(p: Plan, b: int, n: int, st: Renamed, env: Map<Location, u32>)
    requires
        fits(p),
        shaped(p, st),
        0 <= b < p.flat.len(),
        0 <= n <= p.flat[b].len(),
        st.ops[b].len() == 0,
        in_force(st.env, row_of(st, b), p.phi_locs[b].len() as int, env),
    ensures
        ({
            let t = rename_ops(p, b, n, st);
            let h = p.phi_locs[b].len() as int;
            &&& shaped(p, t)
            &&& t.phis == st.phis
            &&& t.ops[b].len() == n
            &&& in_force(t.env, row_of(t, b), h + n, env)
            &&& uses_in_force(t.ops[b], n, row_of(t, b), h, env)
            &&& forall|i: int| 0 <= i < n ==> carries(#[trigger] t.ops[b][i], p.flat[b][i])
        }),
        forall|c: int|
            0 <= c < p.flat.len() && c != b ==> (#[trigger] rename_ops(p, b, n, st).ops[c]) == st.ops[c],
    decreases n,
{
    let h = p.phi_locs[b].len() as int;
    assert(st.phis[b].len() == h);
    if n > 0 {
        lemma_body(p, b, n - 1, st, env);
        let s = rename_ops(p, b, n - 1, st);
        let f = p.flat[b][n - 1];
        let new = renamed_op(f, s);
        let t = rename_ops(p, b, n, st);
        assert(t.ops == s.ops.update(b, s.ops[b].push(new)));
        assert(s.phis[b].len() == h);
        let r = h + n - 1;
        assert forall|j: int| 0 <= j < r implies row_of(s, b)[j] == row_of(t, b)[j] by {
            assert(names(s, b, j) == names(t, b, j));
        }
        assert(row_of(t, b)[r] == names(t, b, r));
        assert(names(t, b, r) == new.def);
        lemma_in_force(s.env, row_of(s, b), t.env, row_of(t, b), r, env);
        assert forall|i: int, k: int| 0 <= i < n && 0 <= k < t.ops[b][i].uses.len() implies (
        #[trigger] t.ops[b][i].uses[k]).version == picked(
            latest(row_of(t, b), h + i, t.ops[b][i].uses[k].location),
            version_of(env, t.ops[b][i].uses[k].location),
        ) by {
            let l = t.ops[b][i].uses[k].location;
            lemma_latest_agree(row_of(s, b), row_of(t, b), h + i, l);
            if i < n - 1 {
                assert(t.ops[b][i] == s.ops[b][i]);
                assert(s.ops[b][i].uses[k].version == t.ops[b][i].uses[k].version);
            } else {
                assert(t.ops[b][i].uses[k] == current(s, f.uses[k]));
                assert(version_of(s.env, l) == picked(latest(row_of(s, b), r, l), version_of(env, l)));
            }
        }
        assert forall|i: int| 0 <= i < n implies carries(#[trigger] t.ops[b][i], p.flat[b][i]) by {
            if i < n - 1 {
                assert(t.ops[b][i] == s.ops[b][i]);
            }
        }
    }
}

// ─── Edges ──────────────────────────────────────────────────────────────────

/// Every edge is listed at both ends.
pub open spec fn linked(p: Plan) -> bool {
    forall|b: int, k: int|
        0 <= b < p.flat.len() && 0 <= k < p.succ[b].len() ==> p.pred[(#[trigger] p.succ[b][k]) as int].contains(
            b as u32,
        )
}

/// The slot of a predecessor is where it is listed.
pub proof fn lemma_slot_of(preds: Seq<u32>, b: u32, i: int)
    requires
        0 <= i,
        exists|j: int| i <= j < preds.len() && preds[j] == b,
    ensures
        0 <= slot_from(preds, b, i) < preds.len(),
        preds[slot_from(preds, b, i)] == b,
    decreases preds.len() - i,
{
    if preds[i] != b {
        let j = choose|j: int| i <= j < preds.len() && preds[j] == b;
        assert(i + 1 <= j);
        lemma_slot_of(preds, b, i + 1);
    }
}

/// Phi `k` of block `x` takes the version in `env` from its predecessor `b`.
pub open spec fn takes(p: Plan, st: Renamed, b: int, x: int, k: int, env: Map<Location, u32>) -> bool {
    st.phis[x][k].args[slot_from(p.pred[x], b as u32, 0)] == Some(
        SsaVar { location: p.phi_locs[x][k], version: version_of(env, p.phi_locs[x][k]) },
    )
}

proof fn lemma_edges(p: Plan, b: int, n: int, st: Renamed)
    requires
        fits(p),
        linked(p),
        shaped(p, st),
        located(p, st),
        0 <= b < p.flat.len(),
        0 <= n <= p.succ[b].len(),
    ensures
        ({
            let t = fill_successors(p, b, n, st);
            &&& shaped(p, t)
            &&& located(p, t)
            &&& t.ops == st.ops
            &&& t.env == st.env
            &&& forall|c: int| 0 <= c < p.flat.len() ==> #[trigger] row_of(t, c) == row_of(st, c)
            &&& forall|i: int, k: int|
                0 <= i < n && 0 <= k < p.phi_locs[p.succ[b][i] as int].len() ==> #[trigger] takes(
                    p,
                    t,
                    b,
                    p.succ[b][i] as int,
                    k,
                    st.env,
                )
            &&& forall|x: int, k: int, j: int|
                0 <= x < p.flat.len() && 0 <= k < p.phi_locs[x].len() && 0 <= j < p.pred[x].len() && (
                !p.pred[x].contains(b as u32) || j != slot_from(p.pred[x], b as u32, 0)) ==> #[trigger] t.phis[x][k].args[j] == st.phis[x][k].args[j]
        }),
    decreases n,
{
    if n > 0 {
        lemma_edges(p, b, n - 1, st);
        let s = fill_successors(p, b, n - 1, st);
        let x = p.succ[b][n - 1] as int;
        assert(p.succ[b][n - 1] < p.flat.len());
        let slot = slot_from(p.pred[x], b as u32, 0);
        let t = fill_successors(p, b, n, st);
        assert(s.phis[x].len() == p.phi_locs[x].len());
        assert(t.phis == s.phis.update(x, filled(s.phis[x], slot, s)));
        if p.phi_locs[x].len() > 0 {
            lemma_slot(p.pred[x], b as u32, 0);
        }
        assert forall|y: int| 0 <= y < p.flat.len() implies (#[trigger] t.phis[y]).len() == p.phi_locs[y].len() by {
            assert(s.phis[y].len() == p.phi_locs[y].len());
        }
        assert forall|y: int, z: int| 0 <= y < p.flat.len() && 0 <= z < p.phi_locs[y].len() implies (
        #[trigger] t.phis[y][z]).args.len() == p.pred[y].len() by {
            assert(s.phis[y][z].args.len() == p.pred[y].len());
        }
        assert forall|c: int, k: int| phi_in(t, c, k) implies (#[trigger] out_at(t, c, k)).location
            == p.phi_locs[c][k] by {
            assert(s.phis[c].len() == p.phi_locs[c].len());
            assert(phi_in(s, c, k));
            assert(out_at(s, c, k).location == p.phi_locs[c][k]);
        }
        assert forall|c: int| 0 <= c < p.flat.len() implies #[trigger] row_of(t, c) == row_of(st, c) by {
            assert(row_of(s, c) == row_of(st, c));
            assert(s.phis[c].len() == p.phi_locs[c].len());
            assert(t.phis[c].len() == p.phi_locs[c].len());
            assert forall|j: int| names(t, c, j) == names(s, c, j) by {}
            assert(row_of(t, c) =~= row_of(s, c));
        }
        assert forall|i: int, k: int|
            0 <= i < n && 0 <= k < p.phi_locs[p.succ[b][i] as int].len() implies #[trigger] takes(
            p,
            t,
            b,
            p.succ[b][i] as int,
            k,
            st.env,
        ) by {
            let y = p.succ[b][i] as int;
            assert(p.succ[b][i] < p.flat.len());
            assert(s.phis[y].len() == p.phi_locs[y].len());
            if y == x {
                assert(phi_in(s, x, k));
                assert(out_at(s, x, k).location == p.phi_locs[x][k]);
                assert(s.phis[x][k].args.len() == p.pred[x].len());
            } else {
                assert(takes(p, s, b, y, k, st.env));
            }
        }
        assert forall|y: int, k: int, j: int|
            0 <= y < p.flat.len() && 0 <= k < p.phi_locs[y].len() && 0 <= j < p.pred[y].len() && (
            !p.pred[y].contains(b as u32) || j != slot_from(p.pred[y], b as u32, 0)) implies #[trigger] t.phis[y][k].args[j] == st.phis[y][k].args[j] by {
            assert(s.phis[y].len() == p.phi_locs[y].len());
            assert(s.phis[y][k].args.len() == p.pred[y].len());
            assert(s.phis[y][k].args[j] == st.phis[y][k].args[j]);
            assert(p.pred[x].contains(b as u32));
        }
    }
}

// ─── The tree ───────────────────────────────────────────────────────────────

/// What is in force on arrival at block `d`, where `outs` holds what is in force behind
/// each block.
pub open spec fn arriving(p: Plan, e: u32, outs: Map<int, Map<Location, u32>>, d: int) -> Map<Location, u32> {
    if d == e {
        initial(p).env
    } else {
        outs[p.idom[d]->0 as int]
    }
}

/// Block `d` holds its lowered operations, they use what is in force before them, and
/// `outs` holds what is in force behind them.
spec fn block_traced(p: Plan, e: u32, st: Renamed, outs: Map<int, Map<Location, u32>>, d: int) -> bool {
    let h = p.phi_locs[d].len() as int;
    let n = p.flat[d].len() as int;
    &&& reaches(p.succ, e, d as u32, None)
    &&& st.ops[d].len() == n
    &&& forall|i: int| 0 <= i < n ==> carries(#[trigger] st.ops[d][i], p.flat[d][i])
    &&& uses_in_force(st.ops[d], n, row_of(st, d), h, arriving(p, e, outs, d))
    &&& in_force(outs[d], row_of(st, d), h + n, arriving(p, e, outs, d))
}

/// The blocks `seen` are renamed, and so are the arguments that they give.
spec fn traced(p: Plan, e: u32, st: Renamed, outs: Map<int, Map<Location, u32>>, seen: Set<int>) -> bool {
    &&& shaped(p, st)
    &&& located(p, st)
    &&& forall|d: int| 0 <= d < p.flat.len() && seen.contains(d) ==> #[trigger] block_traced(p, e, st, outs, d)
    &&& forall|d: int, i: int, k: int|
        0 <= d < p.flat.len() && seen.contains(d) && 0 <= i < p.succ[d].len() && 0 <= k
            < p.phi_locs[p.succ[d][i] as int].len() ==> #[trigger] takes(
            p,
            st,
            d,
            p.succ[d][i] as int,
            k,
            outs[d],
        )
}

/// What `s` and `t` hold of block `d` is the same.
spec fn same_block(s: Renamed, t: Renamed, o: Map<int, Map<Location, u32>>, q: Map<int, Map<Location, u32>>, d: int) -> bool {
    t.ops[d] == s.ops[d] && row_of(t, d) == row_of(s, d) && q[d] == o[d]
}

/// The immediate dominator of a block that is not below `b` is not below it either.
proof fn lemma_outside(p: Plan, e: u32, b: int, d: int)
    requires
        idom_tree(p.succ, e, p.idom),
        p.flat.len() == p.succ.len() <= u32::MAX,
        0 <= b < p.flat.len(),
        0 <= d < p.flat.len(),
        d != e,
        reaches(p.succ, e, d as u32, None),
        !below(p, e, b, d),
    ensures
        p.idom[d] is Some,
        p.idom[d]->0 < p.flat.len(),
        !below(p, e, b, p.idom[d]->0 as int),
{
    assert(p.idom[(d as u32) as int] is Some);
    let y = p.idom[d]->0;
    assert(is_idom(p.succ, e, y, d as u32));
    assert(strictly_dominates(p.succ, e, y, d as u32));
    if below(p, e, b, y as int) && y != b {
        lemma_dominates_transitive(p.succ, e, b as u32, y, d as u32);
    }
}

/// A change below `b` leaves a block that is not below it as it was.
proof fn lemma_stays(p: Plan, e: u32, b: int, s: Renamed, t: Renamed, o: Map<int, Map<Location, u32>>, q: Map<int, Map<Location, u32>>, d: int)
    requires
        idom_tree(p.succ, e, p.idom),
        p.flat.len() == p.succ.len() <= u32::MAX,
        0 <= b < p.flat.len(),
        0 <= d < p.flat.len(),
        !below(p, e, b, d),
        same_block(s, t, o, q, d),
        forall|c: int| 0 <= c < p.flat.len() && !below(p, e, b, c) ==> #[trigger] q[c] == o[c],
        block_traced(p, e, s, o, d),
    ensures
        block_traced(p, e, t, q, d),
{
    if d != e {
        lemma_outside(p, e, b, d);
        assert(q[p.idom[d]->0 as int] == o[p.idom[d]->0 as int]);
    }
    assert(arriving(p, e, q, d) == arriving(p, e, o, d));
}

/// A block with `b` as its immediate dominator is one of the children of `b`.
proof fn lemma_listed(idom: Seq<Option<u32>>, b: u32, n: int, k: u32) -> (j: int)
    requires
        0 <= k < n <= idom.len() <= u32::MAX,
        idom[k as int] == Some(b),
        k != b,
    ensures
        0 <= j < children_of(idom, b, n).len(),
        children_of(idom, b, n)[j] == k,
    decreases n,
{
    if k == n - 1 {
        children_of(idom, b, n).len() - 1
    } else {
        lemma_listed(idom, b, n - 1, k)
    }
}

/// What is below `b`, and is not `b`, is below a child of `b`.
proof fn lemma_under_child(p: Plan, e: u32, b: int, x: int, m: nat) -> (j: int)
    requires
        idom_tree(p.succ, e, p.idom),
        p.flat.len() == p.succ.len() <= u32::MAX,
        0 <= b < p.flat.len(),
        0 <= x < p.flat.len(),
        x != b,
        reaches(p.succ, e, x as u32, None),
        ancestor(p.idom, x as u32, m) == Some(b as u32),
    ensures
        0 <= j < kids(p, b).len(),
        below(p, e, kids(p, b)[j] as int, x),
    decreases m,
{
    if m == 0 {
        0
    } else {
        let y = ancestor(p.idom, x as u32, (m - 1) as nat)->0;
        lemma_ancestor_dominates(p.succ, e, p.idom, x as u32, (m - 1) as nat);
        if y == b {
            lemma_under_child(p, e, b, x, (m - 1) as nat)
        } else {
            lemma_listed(p.idom, b as u32, p.idom.len() as int, y)
        }
    }
}

proof fn lemma_in_subs(p: Plan, e: u32, seen: Set<int>, k: Seq<u32>, n: int, i: int, x: int)
    requires
        0 <= i < n <= k.len(),
        below(p, e, k[i] as int, x),
    ensures
        with_subs(p, e, seen, k, n).contains(x),
    decreases n,
{
    if i < n - 1 {
        lemma_in_subs(p, e, seen, k, n - 1, i, x);
    }
}

/// The blocks below `b`.
spec fn sub_of(p: Plan, e: u32, b: int) -> Set<int> {
    Set::new(|x: int| below(p, e, b, x))
}

proof fn lemma_sub_finite(p: Plan, e: u32, b: int)
    ensures
        sub_of(p, e, b).finite(),
        sub_of(p, e, b).len() <= p.flat.len(),
{
    vstd::set_lib::lemma_int_range(0, p.flat.len() as int);
    vstd::set_lib::lemma_len_subset(sub_of(p, e, b), vstd::set_lib::set_int_range(0, p.flat.len() as int));
}

/// There are fewer blocks below a child.
proof fn lemma_sub_child(p: Plan, e: u32, b: int, k: u32)
    requires
        idom_tree(p.succ, e, p.idom),
        p.flat.len() == p.succ.len() <= u32::MAX,
        0 <= b < p.succ.len(),
        k < p.succ.len(),
        k != b,
        p.idom[k as int] == Some(b as u32),
    ensures
        sub_of(p, e, k as int).len() < sub_of(p, e, b).len(),
{
    lemma_sub_finite(p, e, b);
    assert(below(p, e, b, b));
    assert forall|x: int| #[trigger] sub_of(p, e, k as int).contains(x) implies sub_of(p, e, b).remove(b).contains(
        x,
    ) by {
        lemma_below_child(p, e, b, k, x);
    }
    vstd::set_lib::lemma_len_subset(sub_of(p, e, k as int), sub_of(p, e, b).remove(b));
}

/// The plan is that of a graph with its dominator tree.
pub open spec fn rooted(p: Plan, e: u32) -> bool {
    &&& fits(p)
    &&& linked(p)
    &&& closed(p.succ)
    &&& idom_tree(p.succ, e, p.idom)
}

proof fn lemma_tree(p: Plan, e: u32, b: int, st: Renamed, outs: Map<int, Map<Location, u32>>, seen: Set<int>, depth: nat) -> (q: Map<int, Map<Location, u32>>)
    requires
        rooted(p, e),
        traced(p, e, st, outs, seen),
        0 <= b < p.flat.len(),
        reaches(p.succ, e, b as u32, None),
        forall|x: int| #[trigger] below(p, e, b, x) ==> !seen.contains(x) && st.ops[x].len() == 0,
        st.env == arriving(p, e, outs, b),
        sub_of(p, e, b).len() <= depth,
    ensures
        traced(p, e, rename_tree(p, b, st, depth), q, with_sub(p, e, seen, b)),
        rename_tree(p, b, st, depth).env == st.env,
        forall|c: int|
            0 <= c < p.flat.len() && !below(p, e, b, c) ==> #[trigger] same_block(
                st,
                rename_tree(p, b, st, depth),
                outs,
                q,
                c,
            ),
    decreases depth, 0int,
{
    let all = with_sub(p, e, seen, b);
    assert(below(p, e, b, b));
    lemma_sub_finite(p, e, b);
    assert(sub_of(p, e, b).contains(b));
    assert(depth > 0) by {
        if sub_of(p, e, b).len() == 0 {
            assert(sub_of(p, e, b) =~= Set::empty());
        }
    }
    let h = p.phi_locs[b].len() as int;
    let n = p.flat[b].len() as int;
    let heads = rename_heads(p, b, h, st);
    lemma_heads(p, b, h, st);
    let body = rename_ops(p, b, n, heads);
    lemma_body(p, b, n, heads, st.env);
    assert(located(p, body)) by {
        assert forall|c: int, k: int| phi_in(body, c, k) implies (#[trigger] out_at(body, c, k)).location
            == p.phi_locs[c][k] by {
            assert(phi_in(heads, c, k));
            assert(out_at(heads, c, k).location == p.phi_locs[c][k]);
        }
    }
    let edges = fill_successors(p, b, p.succ[b].len() as int, body);
    lemma_edges(p, b, p.succ[b].len() as int, body);
    let o = outs.insert(b, edges.env);
    let here = seen.insert(b);
    assert forall|c: int| 0 <= c < p.flat.len() && c != b implies #[trigger] same_block(st, edges, outs, o, c) by {
        assert(body.ops[c] == heads.ops[c]);
        assert(heads.phis[c] == st.phis[c]);
        assert(row_of(edges, c) == row_of(body, c));
        assert(row_of(body, c) =~= row_of(st, c)) by {
            assert forall|j: int| names(body, c, j) == names(st, c, j) by {}
        }
    }
    if b != e {
        assert(p.idom[(b as u32) as int] is Some);
        assert(is_idom(p.succ, e, p.idom[b]->0, b as u32));
        assert(p.idom[b]->0 != b);
    }
    assert(arriving(p, e, o, b) == st.env);
    assert forall|d: int| 0 <= d < p.flat.len() && here.contains(d) implies #[trigger] block_traced(
        p,
        e,
        edges,
        o,
        d,
    ) by {
        if d != b {
            assert(same_block(st, edges, outs, o, d));
            assert(block_traced(p, e, st, outs, d));
            lemma_stays(p, e, b, st, edges, outs, o, d);
        } else {
            assert(row_of(edges, b) == row_of(body, b));
        }
    }
    assert forall|d: int, i: int, k: int|
        0 <= d < p.flat.len() && here.contains(d) && 0 <= i < p.succ[d].len() && 0 <= k
            < p.phi_locs[p.succ[d][i] as int].len() implies #[trigger] takes(
        p,
        edges,
        d,
        p.succ[d][i] as int,
        k,
        o[d],
    ) by {
        let x = p.succ[d][i] as int;
        assert(p.succ[d][i] < p.flat.len());
        if d != b {
            assert(takes(p, st, d, x, k, outs[d]));
            assert(p.pred[x].contains(d as u32));
            lemma_slot_of(p.pred[x], d as u32, 0);
            let slot = slot_from(p.pred[x], d as u32, 0);
            if p.pred[x].contains(b as u32) {
                lemma_slot_of(p.pred[x], b as u32, 0);
            }
            assert(edges.phis[x][k].args[slot] == body.phis[x][k].args[slot]);
            assert(heads.phis[x][k].args == st.phis[x][k].args) by {
                if x != b {
                    assert(heads.phis[x] == st.phis[x]);
                }
            }
        }
    }
    let k = kids(p, b);
    let m = k.len() as int;
    assert forall|x: int| #[trigger] below(p, e, b, x) && x != b implies !here.contains(x) && edges.ops[x].len()
        == 0 by {
        assert(same_block(st, edges, outs, o, x));
    }
    let q = lemma_row(p, e, b, k, m, edges, o, here, (depth - 1) as nat);
    let lower = rename_kids(p, k, m, edges, (depth - 1) as nat);
    let t = Renamed { env: st.env, ..lower };
    let some = with_subs(p, e, here, k, m);
    lemma_with_subs(p, e, here, k, m);
    assert forall|x: int| #[trigger] all.contains(x) implies some.contains(x) by {
        if !seen.contains(x) && x != b {
            assert(below(p, e, b, x));
            let path = choose|w: Seq<u32>| #[trigger] leads(p.succ, w, e, x as u32, None);
            let up = lemma_dominator_is_ancestor(p.succ, e, p.idom, path, path.len() - 1, b as u32);
            let j = lemma_under_child(p, e, b, x, up);
            lemma_in_subs(p, e, here, k, m, j, x);
        }
    }
    assert forall|c: int| #[trigger] row_of(t, c) == row_of(lower, c) by {
        assert forall|j: int| names(t, c, j) == names(lower, c, j) by {}
        assert(row_of(t, c) =~= row_of(lower, c));
    }
    assert(traced(p, e, t, q, all)) by {
        assert forall|c: int, j: int| phi_in(t, c, j) implies (#[trigger] out_at(t, c, j)).location
            == p.phi_locs[c][j] by {
            assert(phi_in(lower, c, j));
            assert(out_at(lower, c, j).location == p.phi_locs[c][j]);
        }
        assert forall|d: int| 0 <= d < p.flat.len() && all.contains(d) implies #[trigger] block_traced(
            p,
            e,
            t,
            q,
            d,
        ) by {
            assert(some.contains(d));
            assert(block_traced(p, e, lower, q, d));
            assert(row_of(t, d) == row_of(lower, d));
        }
        assert forall|d: int, i: int, j: int|
            0 <= d < p.flat.len() && all.contains(d) && 0 <= i < p.succ[d].len() && 0 <= j
                < p.phi_locs[p.succ[d][i] as int].len() implies #[trigger] takes(
            p,
            t,
            d,
            p.succ[d][i] as int,
            j,
            q[d],
        ) by {
            assert(some.contains(d));
            assert(takes(p, lower, d, p.succ[d][i] as int, j, q[d]));
        }
    }
    assert forall|c: int| 0 <= c < p.flat.len() && !below(p, e, b, c) implies #[trigger] same_block(
        st,
        t,
        outs,
        q,
        c,
    ) by {
        lemma_children(p.idom, b as u32, p.idom.len() as int);
        assert forall|i: int| 0 <= i < m implies !#[trigger] below(p, e, k[i] as int, c) by {
            if below(p, e, k[i] as int, c) {
                lemma_below_child(p, e, b, k[i], c);
            }
        }
        assert(same_block(edges, lower, o, q, c));
        assert(same_block(st, edges, outs, o, c));
        assert(row_of(t, c) == row_of(lower, c));
    }
    q
}

proof fn lemma_row(p: Plan, e: u32, b: int, k: Seq<u32>, n: int, st: Renamed, outs: Map<int, Map<Location, u32>>, seen: Set<int>, depth: nat) -> (q: Map<int, Map<Location, u32>>)
    requires
        rooted(p, e),
        traced(p, e, st, outs, seen),
        0 <= b < p.flat.len(),
        k == kids(p, b),
        0 <= n <= k.len(),
        seen.contains(b),
        forall|x: int| #[trigger] below(p, e, b, x) && x != b ==> !seen.contains(x) && st.ops[x].len() == 0,
        st.env == outs[b],
        sub_of(p, e, b).len() <= depth + 1,
    ensures
        traced(p, e, rename_kids(p, k, n, st, depth), q, with_subs(p, e, seen, k, n)),
        rename_kids(p, k, n, st, depth).env == st.env,
        forall|c: int|
            0 <= c < p.flat.len() && (forall|i: int| 0 <= i < n ==> !#[trigger] below(p, e, k[i] as int, c))
                ==> #[trigger] same_block(st, rename_kids(p, k, n, st, depth), outs, q, c),
    decreases depth, n + 1,
{
    if n <= 0 {
        outs
    } else {
        let o = lemma_row(p, e, b, k, n - 1, st, outs, seen, depth);
        lemma_children(p.idom, b as u32, p.idom.len() as int);
        let s = rename_kids(p, k, n - 1, st, depth);
        let m = k[n - 1];
        let some = with_subs(p, e, seen, k, n - 1);
        lemma_with_subs(p, e, seen, k, n - 1);
        assert(m < p.idom.len() && m != b as u32 && p.idom[m as int] == Some(b as u32));
        lemma_child(p, e, b, m);
        lemma_sub_child(p, e, b, m);
        assert forall|x: int| #[trigger] below(p, e, m as int, x) implies !some.contains(x) && s.ops[x].len() == 0 by {
            lemma_below_child(p, e, b, m, x);
            assert(below(p, e, b, x) && x != b);
            assert forall|i: int| 0 <= i < n - 1 implies !#[trigger] below(p, e, k[i] as int, x) by {
                assert(k[i] < m);
                assert(k[i] != b as u32 && p.idom[k[i] as int] == Some(b as u32));
                lemma_children_apart(p, e, b, m, k[i], x);
            }
            assert(same_block(st, s, outs, o, x));
        }
        assert(m != e);
        assert(o[b] == outs[b]) by {
            assert forall|i: int| 0 <= i < n - 1 implies !#[trigger] below(p, e, k[i] as int, b) by {
                if below(p, e, k[i] as int, b) {
                    assert(k[i] != b as u32 && p.idom[k[i] as int] == Some(b as u32));
                    lemma_below_child(p, e, b, k[i], b);
                }
            }
            assert(same_block(st, s, outs, o, b));
        }
        let q = lemma_tree(p, e, m as int, s, o, some, depth);
        let t = rename_tree(p, m as int, s, depth);
        assert forall|c: int|
            0 <= c < p.flat.len() && (forall|i: int| 0 <= i < n ==> !#[trigger] below(p, e, k[i] as int, c)) implies #[trigger] same_block(
            st,
            t,
            outs,
            q,
            c,
        ) by {
            assert(!below(p, e, k[n - 1] as int, c));
            assert(same_block(st, s, outs, o, c));
            assert(same_block(s, t, o, q, c));
        }
        q
    }
}

// ─── Walks ──────────────────────────────────────────────────────────────────

/// The version that the last definition of `l` gives on the walk `w`, up to position
/// `n` of its last block. `rows` holds what each block defines.
pub open spec fn last_on(rows: Seq<Seq<Option<SsaVar>>>, w: Seq<u32>, n: int, l: Location) -> Option<u32>
    decreases w.len(),
{
    if w.len() == 0 {
        None
    } else {
        match latest(rows[w.last() as int], n, l) {
            Some(v) => Some(v),
            None => last_on(
                rows,
                w.drop_last(),
                if w.len() == 1 {
                    0
                } else {
                    rows[w[w.len() - 2] as int].len() as int
                },
                l,
            ),
        }
    }
}

/// `w` starts at `e` and does not come back to it.
pub open spec fn departs(w: Seq<u32>, e: u32) -> bool {
    w[0] == e && forall|i: int| 0 < i < w.len() ==> #[trigger] w[i] != e
}

/// Block `r` defines `l`, or has a phi for it.
pub open spec fn settles(p: Plan, r: int, l: Location) -> bool {
    p.phi_locs[r].contains(l) || exists|i: int| 0 <= i < p.flat[r].len() && (#[trigger] p.flat[r][i]).def == Some(l)
}

/// Where a definition meets another, there is a phi.
pub open spec fn covered(p: Plan, l: Location) -> bool {
    forall|r: int, b: int|
        0 <= r < p.flat.len() && 0 <= b < p.flat.len() && settles(p, r, l) && #[trigger] in_frontier(
            p.pred,
            p.idom,
            r as u32,
            b as u32,
        ) ==> p.phi_locs[b].contains(l)
}

/// What a renamed function defines, block by block.
pub open spec fn rows_of(p: Plan, st: Renamed) -> Seq<Seq<Option<SsaVar>>> {
    Seq::new(p.flat.len(), |c: int| row_of(st, c))
}

/// The blocks that can be reached.
pub open spec fn reached_blocks(p: Plan, e: u32) -> Set<int> {
    Set::new(|d: int| 0 <= d < p.flat.len() && reaches(p.succ, e, d as u32, None))
}

/// A definition among the first `n` of `row`.
proof fn lemma_latest_found(row: Seq<Option<SsaVar>>, n: int, l: Location) -> (j: int)
    requires
        latest(row, n, l) is Some,
    ensures
        0 <= j < n,
        row[j] is Some,
        row[j]->0.location == l,
    decreases n,
{
    if row[n - 1] is Some && row[n - 1]->0.location == l {
        n - 1
    } else {
        lemma_latest_found(row, n - 1, l)
    }
}

/// There is a version if there is a definition.
proof fn lemma_latest_some(row: Seq<Option<SsaVar>>, n: int, l: Location, j: int)
    requires
        0 <= j < n,
        row[j] is Some,
        row[j]->0.location == l,
    ensures
        latest(row, n, l) is Some,
    decreases n,
{
    if j < n - 1 {
        lemma_latest_some(row, n - 1, l, j);
    }
}

/// A block without a definition and without a phi passes on what arrives.
proof fn lemma_passes(p: Plan, e: u32, st: Renamed, outs: Map<int, Map<Location, u32>>, d: int, l: Location)
    requires
        shaped(p, st),
        located(p, st),
        0 <= d < p.flat.len(),
        block_traced(p, e, st, outs, d),
        !settles(p, d, l),
    ensures
        version_of(outs[d], l) == version_of(arriving(p, e, outs, d), l),
{
    let row = row_of(st, d);
    let h = p.phi_locs[d].len() as int;
    let n = h + p.flat[d].len();
    assert(st.phis[d].len() == h);
    if latest(row, n, l) is Some {
        let j = lemma_latest_found(row, n, l);
        assert(row[j] == names(st, d, j));
        if j < h {
            assert(phi_in(st, d, j));
            assert(out_at(st, d, j).location == p.phi_locs[d][j]);
            assert(p.phi_locs[d].contains(l));
        } else {
            assert(carries(st.ops[d][j - h], p.flat[d][j - h]));
            assert(p.flat[d][j - h].def == Some(l));
        }
    }
}

/// From a predecessor of `b` up to the immediate dominator of `b`, every block passes
/// `l` on, if `b` has no phi for it.
proof fn lemma_climb_passes(p: Plan, e: u32, st: Renamed, outs: Map<int, Map<Location, u32>>, b: int, q: u32, d: u32, r: u32, j: nat, k: nat, l: Location)
    requires
        rooted(p, e),
        traced(p, e, st, outs, reached_blocks(p, e)),
        covered(p, l),
        0 <= b < p.flat.len(),
        p.pred[b].len() >= 2,
        p.pred[b].contains(q),
        q < p.flat.len(),
        reaches(p.succ, e, q, None),
        p.idom[b] == Some(d),
        !p.phi_locs[b].contains(l),
        climb(p.idom, q, Some(d), j) == Some(r),
        ancestor(p.idom, q, k) == Some(d),
    ensures
        version_of(outs[r as int], l) == version_of(outs[d as int], l),
    decreases k - j,
{
    lemma_climb_stops(p.idom, q, d, k);
    if k <= j {
        lemma_ended(p.idom, q, Some(d), k, j);
    }
    lemma_climb_is_ancestor(p.idom, q, Some(d), j);
    lemma_ancestor_dominates(p.succ, e, p.idom, q, j);
    assert(block_traced(p, e, st, outs, r as int));
    let i = choose|i: int| 0 <= i < p.pred[b].len() && p.pred[b][i] == q;
    assert(met_at(p.idom, p.pred[b][i], p.idom[b], r, j));
    assert(in_frontier(p.pred, p.idom, (r as int) as u32, b as u32));
    assert(!settles(p, r as int, l));
    assert(p.idom[r as int] is Some);
    let y = p.idom[r as int]->0;
    if y == d {
        if r == e {
            assert(y == e);
        }
        lemma_passes(p, e, st, outs, r as int, l);
    } else {
        assert(climb(p.idom, q, Some(d), j + 1) == Some(y));
        lemma_climb_passes(p, e, st, outs, b, q, d, y, j + 1, k, l);
        if r != e {
            lemma_passes(p, e, st, outs, r as int, l);
        }
    }
}

/// A walk does not get to a block that only it leads to.
proof fn lemma_not_alone(p: Plan, e: u32, w: Seq<u32>, b: u32, i: int)
    requires
        converse(p.succ, p.pred),
        is_path(p.succ, w),
        w[0] == e,
        e != b,
        b < p.succ.len(),
        forall|x: u32| p.pred[b as int].contains(x) ==> x == b,
        0 <= i < w.len(),
    ensures
        w[i] != b,
    decreases i,
{
    if i > 0 {
        lemma_not_alone(p, e, w, b, i - 1);
        assert(step(p.succ, w, i - 1));
        if w[i] == b {
            assert(edge(p.succ, w[i - 1], b));
            assert(edge(p.pred, b, w[i - 1]));
        }
    }
}

/// The only predecessor of a block is its immediate dominator.
proof fn lemma_only_predecessor(p: Plan, e: u32, w: Seq<u32>, b: u32, q: u32)
    requires
        rooted(p, e),
        converse(p.succ, p.pred),
        is_path(p.succ, w),
        w[0] == e,
        w.last() == b,
        b != e,
        b < p.succ.len(),
        q < p.succ.len(),
        reaches(p.succ, e, q, None),
        edge(p.succ, q, b),
        forall|x: u32| p.pred[b as int].contains(x) ==> x == q,
    ensures
        p.idom[b as int] == Some(q),
{
    assert(leads(p.succ, w, e, b, None));
    assert(p.idom[b as int] is Some);
    let d = p.idom[b as int]->0;
    assert(is_idom(p.succ, e, d, b));
    if q == b {
        lemma_not_alone(p, e, w, b, w.len() - 1);
    }
    assert(dominates(p.succ, e, q, b)) by {
        if reaches(p.succ, e, b, Some(q)) {
            let u = choose|u: Seq<u32>| #[trigger] leads(p.succ, u, e, b, Some(q));
            assert(u.len() >= 2);
            assert(step(p.succ, u, u.len() - 2));
            let x = u[u.len() - 2];
            assert(u.contains(x));
            assert(edge(p.succ, x, b));
            assert(edge(p.pred, b, x));
        }
    }
    assert(strictly_dominates(p.succ, e, q, b));
    lemma_idom_dominates_pred(p.succ, e, d, q, b);
    lemma_dominates_antisymmetric(p.succ, e, q, d);
}

/// What arrives at the end of a walk, if no phi stands there, is what its last
/// definition gives.
proof fn lemma_arrives(p: Plan, e: u32, st: Renamed, outs: Map<int, Map<Location, u32>>, w: Seq<u32>, l: Location)
    requires
        rooted(p, e),
        converse(p.succ, p.pred),
        traced(p, e, st, outs, reached_blocks(p, e)),
        covered(p, l),
        mentioned(p.flat, l),
        is_path(p.succ, w),
        departs(w, e),
        !p.phi_locs[w.last() as int].contains(l),
    ensures
        version_of(arriving(p, e, outs, w.last() as int), l) == (if w.len() == 1 {
            1
        } else {
            picked(
                last_on(
                    rows_of(p, st),
                    w.drop_last(),
                    rows_of(p, st)[w[w.len() - 2] as int].len() as int,
                    l,
                ),
                1,
            )
        }),
    decreases w.len(), 0int,
{
    let b = w.last();
    lemma_path_nodes(p.succ, w, w.len() - 1);
    assert(leads(p.succ, w, e, b, None));
    if w.len() == 1 {
    } else {
        let v = w.drop_last();
        let q = v.last();
        assert(v =~= w.take(w.len() - 1));
        lemma_path_prefix(p.succ, w, w.len() - 1);
        lemma_path_nodes(p.succ, v, v.len() - 1);
        assert(leads(p.succ, v, e, q, None));
        assert forall|i: int| 0 < i < v.len() implies #[trigger] v[i] != e by {
            assert(w[i] != e);
        }
        lemma_leaves(p, e, st, outs, v, l);
        assert(w[w.len() - 1] != e);
        assert(step(p.succ, w, w.len() - 2));
        assert(edge(p.succ, q, b));
        assert(edge(p.pred, b, q));
        assert(p.idom[b as int] is Some);
        let d = p.idom[b as int]->0;
        assert(is_idom(p.succ, e, d, b));
        if p.pred[b as int].len() < 2 {
            lemma_only_predecessor(p, e, w, b, q);
        } else if q != d {
            lemma_idom_dominates_pred(p.succ, e, d, q, b);
            let k = lemma_dominator_is_ancestor(p.succ, e, p.idom, v, v.len() - 1, d);
            assert(climb(p.idom, q, Some(d), 0) == Some(q));
            lemma_climb_passes(p, e, st, outs, b as int, q, d, q, 0, k, l);
        }
    }
}

/// What is in force behind a walk is what its last definition gives.
proof fn lemma_leaves(p: Plan, e: u32, st: Renamed, outs: Map<int, Map<Location, u32>>, w: Seq<u32>, l: Location)
    requires
        rooted(p, e),
        converse(p.succ, p.pred),
        traced(p, e, st, outs, reached_blocks(p, e)),
        covered(p, l),
        mentioned(p.flat, l),
        is_path(p.succ, w),
        departs(w, e),
    ensures
        version_of(outs[w.last() as int], l) == picked(
            last_on(rows_of(p, st), w, rows_of(p, st)[w.last() as int].len() as int, l),
            1,
        ),
    decreases w.len(), 1int,
{
    let b = w.last();
    lemma_path_nodes(p.succ, w, w.len() - 1);
    assert(leads(p.succ, w, e, b, None));
    assert(block_traced(p, e, st, outs, b as int));
    let row = row_of(st, b as int);
    let h = p.phi_locs[b as int].len() as int;
    assert(st.phis[b as int].len() == h);
    assert(row.len() == h + p.flat[b as int].len());
    reveal_with_fuel(last_on, 2);
    assert(rows_of(p, st)[b as int] == row);
    if latest(row, row.len() as int, l) is None {
        lemma_no_phi(p, st, b as int, row.len() as int, l);
        lemma_arrives(p, e, st, outs, w, l);
    }
}

/// Without a definition among the first `n`, phis included, there is no phi.
proof fn lemma_no_phi(p: Plan, st: Renamed, b: int, n: int, l: Location)
    requires
        shaped(p, st),
        located(p, st),
        0 <= b < p.flat.len(),
        p.phi_locs[b].len() <= n,
        latest(row_of(st, b), n, l) is None,
    ensures
        !p.phi_locs[b].contains(l),
{
    if p.phi_locs[b].contains(l) {
        let j = choose|j: int| 0 <= j < p.phi_locs[b].len() && p.phi_locs[b][j] == l;
        assert(st.phis[b].len() == p.phi_locs[b].len());
        assert(phi_in(st, b, j));
        assert(out_at(st, b, j).location == l);
        assert(row_of(st, b)[j] == names(st, b, j));
        lemma_latest_some(row_of(st, b), n, l, j);
    }
}

// ─── Laws ───────────────────────────────────────────────────────────────────

/// The use `k` of operation `i` of the block that `w` leads to names the last
/// definition on `w`.
pub open spec fn use_reached(p: Plan, st: Renamed, w: Seq<u32>, i: int, k: int) -> bool {
    let b = w.last() as int;
    let v = st.ops[b][i].uses[k];
    v.version == picked(last_on(rows_of(p, st), w, p.phi_locs[b].len() + i, v.location), 1)
}

/// Phi `k` of block `x` takes the last definition on `w` from the block that `w` leads to.
pub open spec fn argument_reached(p: Plan, st: Renamed, w: Seq<u32>, x: u32, k: int) -> bool {
    let b = w.last();
    let l = p.phi_locs[x as int][k];
    st.phis[x as int][k].args[slot_from(p.pred[x as int], b, 0)] == Some(
        SsaVar {
            location: l,
            version: picked(last_on(rows_of(p, st), w, row_of(st, b as int).len() as int, l), 1),
        },
    )
}

/// Renaming keeps the operations of every block that can be reached, and gives every
/// use and every argument of a phi the version of the last definition on any walk that
/// leads there from the entry; version 1 where there is none.
pub proof fn law_reaching_definitions(p: Plan, e: u32)
    requires
        rooted(p, e),
        converse(p.succ, p.pred),
        forall|l: Location| mentioned(p.flat, l) ==> #[trigger] covered(p, l),
    ensures
        shaped(p, renamed(p)),
        forall|b: int, i: int|
            0 <= b < p.flat.len() && reaches(p.succ, e, b as u32, None) && 0 <= i < p.flat[b].len() ==> carries(
                #[trigger] renamed(p).ops[b][i],
                p.flat[b][i],
            ),
        forall|b: int|
            0 <= b < p.flat.len() && reaches(p.succ, e, b as u32, None) ==> (#[trigger] renamed(p).ops[b]).len()
                == p.flat[b].len(),
        forall|w: Seq<u32>, i: int, k: int|
            is_path(p.succ, w) && departs(w, e) && 0 <= i < p.flat[w.last() as int].len() && 0 <= k
                < p.flat[w.last() as int][i].uses.len() && !(p.flat[w.last() as int][i].uses[k] is Unique)
                ==> #[trigger] use_reached(p, renamed(p), w, i, k),
        forall|w: Seq<u32>, x: u32, k: int|
            is_path(p.succ, w) && departs(w, e) && edge(p.succ, w.last(), x) && 0 <= k < p.phi_locs[x as int].len()
                && mentioned(p.flat, p.phi_locs[x as int][k]) ==> #[trigger] argument_reached(
                p,
                renamed(p),
                w,
                x,
                k,
            ),
{
    let st = initial(p);
    let none = Set::<int>::empty();
    let outs = Map::<int, Map<Location, u32>>::empty();
    lemma_is_root(p, e, 0);
    assert(root_from(p.idom, 0) == e);
    assert(leads(p.succ, seq![e], e, e, None));
    lemma_sub_finite(p, e, e as int);
    assert(located(p, st));
    let q = lemma_tree(p, e, e as int, st, outs, none, p.flat.len());
    let t = renamed(p);
    let all = reached_blocks(p, e);
    assert forall|d: int| all.contains(d) implies with_sub(p, e, none, e as int).contains(d) by {
        lemma_entry_dominates(p.succ, e, d as u32);
        assert(below(p, e, e as int, d));
    }
    assert(traced(p, e, t, q, all));
    assert forall|b: int| 0 <= b < p.flat.len() && reaches(p.succ, e, b as u32, None) implies (
    #[trigger] t.ops[b]).len() == p.flat[b].len() by {
        assert(block_traced(p, e, t, q, b));
    }
    assert forall|b: int, i: int|
        0 <= b < p.flat.len() && reaches(p.succ, e, b as u32, None) && 0 <= i < p.flat[b].len() implies carries(
        #[trigger] t.ops[b][i],
        p.flat[b][i],
    ) by {
        assert(block_traced(p, e, t, q, b));
    }
    assert forall|w: Seq<u32>, i: int, k: int|
        is_path(p.succ, w) && departs(w, e) && 0 <= i < p.flat[w.last() as int].len() && 0 <= k
            < p.flat[w.last() as int][i].uses.len() && !(p.flat[w.last() as int][i].uses[k] is Unique) implies #[trigger] use_reached(
        p,
        t,
        w,
        i,
        k,
    ) by {
        let b = w.last() as int;
        let l = p.flat[b][i].uses[k];
        lemma_path_nodes(p.succ, w, w.len() - 1);
        assert(leads(p.succ, w, e, w.last(), None));
        assert(block_traced(p, e, t, q, b));
        assert(carries(t.ops[b][i], p.flat[b][i]));
        assert(t.ops[b][i].uses[k].location == l);
        assert(p.flat[b][i].uses.contains(l));
        assert(mentions(p.flat[b][i], l));
        assert(mentioned(p.flat, l));
        let n = p.phi_locs[b].len() + i;
        reveal_with_fuel(last_on, 2);
        assert(rows_of(p, t)[b] == row_of(t, b));
        if latest(row_of(t, b), n, l) is None {
            lemma_no_phi(p, t, b, n, l);
            lemma_arrives(p, e, t, q, w, l);
        }
    }
    assert forall|w: Seq<u32>, x: u32, k: int|
        is_path(p.succ, w) && departs(w, e) && edge(p.succ, w.last(), x) && 0 <= k < p.phi_locs[x as int].len()
            && mentioned(p.flat, p.phi_locs[x as int][k]) implies #[trigger] argument_reached(p, t, w, x, k) by {
        let b = w.last() as int;
        let l = p.phi_locs[x as int][k];
        lemma_path_nodes(p.succ, w, w.len() - 1);
        assert(leads(p.succ, w, e, w.last(), None));
        lemma_leaves(p, e, t, q, w, l);
        let i = choose|i: int| 0 <= i < p.succ[b].len() && p.succ[b][i] == x;
        assert(all.contains(b));
        assert(takes(p, t, b, p.succ[b][i] as int, k, q[b]));
        assert(rows_of(p, t)[b] == row_of(t, b));
    }
}

/// The entry is the root of the dominator tree.
proof fn lemma_is_root(p: Plan, e: u32, i: int)
    requires
        idom_tree(p.succ, e, p.idom),
        p.idom.len() <= u32::MAX,
        0 <= i <= e,
    ensures
        root_from(p.idom, i) == e,
    decreases e - i,
{
    if i < e {
        assert(p.idom[(i as u32) as int] is Some ==> is_idom(p.succ, e, p.idom[i]->0, i as u32));
        lemma_is_root(p, e, i + 1);
    }
}

// ─── Functions ──────────────────────────────────────────────────────────────

/// What each block of a function defines, operation by operation.
pub open spec fn defs_of(f: FunctionView) -> Seq<Seq<Option<SsaVar>>> {
    Seq::new(f.blocks.len(), |b: int| Seq::new(f.blocks[b].ops.len(), |i: int| f.blocks[b].ops[i].def))
}

/// The block holds phis, then the lowered operations `flat`, each once and in order.
pub open spec fn block_kept(block: BlockView, flat: Seq<FlatView>) -> bool {
    let h = block.ops.len() - flat.len();
    &&& h >= 0
    &&& forall|j: int| 0 <= j < h ==> (#[trigger] block.ops[j]).kind is Phi
    &&& forall|i: int| 0 <= i < flat.len() ==> #[trigger] carries(block.ops[h + i], flat[i])
}

/// Every block that can be reached from the entry block `e` holds its lowered operations.
pub open spec fn operations_kept(succ: Seq<Seq<u32>>, e: u32, flat: Seq<Seq<FlatView>>, f: FunctionView) -> bool {
    forall|b: int|
        0 <= b < flat.len() && reaches(succ, e, b as u32, None) ==> #[trigger] block_kept(f.blocks[b], flat[b])
}

/// `w` is a walk from the entry block `e`.
pub open spec fn walks(succ: Seq<Seq<u32>>, e: u32, w: Seq<u32>) -> bool {
    is_path(succ, w) && w[0] == e
}

/// The walk `w` from where it was last at `e`.
pub open spec fn since(w: Seq<u32>, e: u32) -> Seq<u32> {
    w.skip(last_index(w, e))
}

/// `v`, before position `n` of the block that `w` leads to, names the last definition of
/// its location on `w`, phis included; version 1, the value on entry, where there is none.
///
/// A walk that comes back to the entry block starts over there: a phi has an argument for
/// each predecessor and none for the value on entry, so what the walk brings along is
/// not merged with it.
pub open spec fn names_last(f: FunctionView, e: u32, w: Seq<u32>, n: int, v: SsaVar) -> bool {
    let own = last_on(defs_of(f), since(w, e), n, v.location);
    let whole = last_on(defs_of(f), w, n, v.location);
    &&& v.version == picked(own, 1)
    &&& own is Some || whole is None || departs(w, e) ==> v.version == picked(whole, 1)
}

/// On every walk from the entry block, every use of a P-code operation, but of a
/// temporary, names the last definition.
pub open spec fn uses_reach(succ: Seq<Seq<u32>>, e: u32, f: FunctionView) -> bool {
    forall|w: Seq<u32>, i: int, k: int|
        walks(succ, e, w) && 0 <= i < f.blocks[w.last() as int].ops.len() && f.blocks[w.last() as int].ops[i].kind is Pcode
            && 0 <= k < f.blocks[w.last() as int].ops[i].uses.len()
            && !(f.blocks[w.last() as int].ops[i].uses[k].location is Unique) ==> #[trigger] names_last(
            f,
            e,
            w,
            i,
            f.blocks[w.last() as int].ops[i].uses[k],
        )
}

/// Operation `j` of block `x`, a phi, takes the last definition on `w` from the block
/// that `w` leads to.
pub open spec fn merges_last(f: FunctionView, e: u32, w: Seq<u32>, x: u32, j: int) -> bool {
    let block = f.blocks[x as int];
    let phi = block.ops[j].kind->Phi_0;
    let arg = phi.args[slot_from(block.preds, w.last(), 0)];
    &&& arg is Some
    &&& arg->0.location == phi.out.location
    &&& names_last(f, e, w, f.blocks[w.last() as int].ops.len() as int, arg->0)
}

/// On every walk from the entry block and over one more edge, every phi takes the last
/// definition.
pub open spec fn phis_reach(succ: Seq<Seq<u32>>, e: u32, f: FunctionView) -> bool {
    forall|w: Seq<u32>, x: u32, j: int|
        walks(succ, e, w) && edge(succ, w.last(), x) && 0 <= j < f.blocks[x as int].ops.len()
            && f.blocks[x as int].ops[j].kind is Phi ==> #[trigger] merges_last(f, e, w, x, j)
}

/// A definition on the end of a walk is one on the walk.
proof fn lemma_last_on_end(rows: Seq<Seq<Option<SsaVar>>>, w: Seq<u32>, m: int, n: int, l: Location)
    requires
        0 <= m < w.len(),
        last_on(rows, w.skip(m), n, l) is Some,
    ensures
        last_on(rows, w, n, l) == last_on(rows, w.skip(m), n, l),
    decreases w.len(),
{
    let s = w.skip(m);
    assert(s.last() == w.last());
    if latest(rows[w.last() as int], n, l) is None {
        if m == w.len() - 1 {
            reveal_with_fuel(last_on, 2);
            assert(s.drop_last().len() == 0);
        } else {
            assert(s.drop_last() =~= w.drop_last().skip(m));
            assert(s[s.len() - 2] == w[w.len() - 2]);
            lemma_last_on_end(rows, w.drop_last(), m, rows[w[w.len() - 2] as int].len() as int, l);
        }
    }
}

/// What holds of the end of a walk holds of the walk.
pub proof fn lemma_names_last(f: FunctionView, e: u32, w: Seq<u32>, n: int, v: SsaVar)
    requires
        w.len() > 0,
        w[0] == e,
        v.version == picked(last_on(defs_of(f), since(w, e), n, v.location), 1),
    ensures
        names_last(f, e, w, n, v),
{
    assert(w.contains(w[0]));
    lemma_last_index(w, e);
    let m = last_index(w, e);
    if last_on(defs_of(f), since(w, e), n, v.location) is Some {
        lemma_last_on_end(defs_of(f), w, m, n, v.location);
    } else if departs(w, e) {
        if m > 0 {
            assert(w[m] != e);
        }
        assert(w.skip(0) =~= w);
    }
}

/// The end of a walk, from where it was last at the entry, leaves the entry behind.
pub proof fn lemma_since(succ: Seq<Seq<u32>>, e: u32, w: Seq<u32>)
    requires
        walks(succ, e, w),
    ensures
        is_path(succ, since(w, e)),
        departs(since(w, e), e),
        since(w, e).last() == w.last(),
{
    assert(w.contains(w[0]));
    lemma_last_index(w, e);
    let m = last_index(w, e);
    lemma_path_suffix(succ, w, m);
    assert forall|i: int| 0 < i < since(w, e).len() implies #[trigger] since(w, e)[i] != e by {
        assert(w[m + i] != e);
    }
}

} // verus!
