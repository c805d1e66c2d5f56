//! What renaming guarantees of uses: each is of a value live on entry, or of a
//! definition that stands on every path to it.

use vstd::prelude::*;
use crate::graph::{dominates, is_idom, lemma_dominates_antisymmetric, lemma_dominates_reflexive, lemma_dominates_transitive, lemma_dominators_chain, reaches, strictly_dominates};
use crate::ssa::cfg::{idom_tree, lemma_dominator_reached};
use crate::ssa::rename::{current, fill_successors, filled, fits, fresh, initial, kids, lemma_root, mentioned, rename_heads, rename_kids, rename_ops, rename_tree, renamed, renamed_op, root_from, shaped, slot_from, Plan, Renamed};
use crate::ssa::versions::lemma_slot;
use crate::ssa::lower::FlatView;
use crate::ssa::{FunctionView, Location, PhiView, SsaVar};
use crate::structure::pdom::children_of;

verus! {

/// Block `a` lies on every path from the entry `e` to block `b`.
pub open spec fn over(p: Plan, e: u32, a: int, b: int) -> bool {
    dominates(p.succ, e, a as u32, b as u32)
}

/// What stands at position `j` of block `c` defines: its phis come first, then its
/// operations.
pub open spec fn names(st: Renamed, c: int, j: int) -> Option<SsaVar> {
    let h = st.phis[c].len();
    if 0 <= j < h {
        Some(st.phis[c][j].out)
    } else if h <= j < h + st.ops[c].len() {
        st.ops[c][j - h].def
    } else {
        None
    }
}

/// `v` is the value of its location on entry.
pub open spec fn live_in(p: Plan, v: SsaVar) -> bool {
    v.version == 1 && mentioned(p.flat, v.location)
}

/// Position `j` of block `c` defines `v` and lies before position `r` of block `d` on
/// every path there. The blocks `seen` have been renamed.
pub open spec fn gives(p: Plan, e: u32, st: Renamed, seen: Set<int>, d: int, r: int, v: SsaVar, c: int, j: int) -> bool {
    &&& 0 <= c < p.flat.len()
    &&& seen.contains(c) || c == d
    &&& names(st, c, j) == Some(v)
    &&& over(p, e, c, d)
    &&& c == d ==> j < r
}

/// `v` at position `r` of block `d` is no version, a value on entry, or given.
pub open spec fn reached(p: Plan, e: u32, st: Renamed, seen: Set<int>, d: int, r: int, v: SsaVar) -> bool {
    ||| v.version == 0
    ||| live_in(p, v)
    ||| exists|c: int, j: int| #[trigger] gives(p, e, st, seen, d, r, v, c, j)
}

/// Every version in force at position `r` of block `d` is reached.
pub open spec fn in_force(p: Plan, e: u32, st: Renamed, seen: Set<int>, d: int, r: int, env: Map<Location, u32>) -> bool {
    forall|l: Location| #[trigger]
        env.dom().contains(l) ==> reached(p, e, st, seen, d, r, SsaVar { location: l, version: env[l] })
}

/// Every use of a renamed operation is reached.
pub open spec fn uses_reached(p: Plan, e: u32, st: Renamed, seen: Set<int>) -> bool {
    forall|d: int, i: int, k: int|
        0 <= d < p.flat.len() && 0 <= i < st.ops[d].len() && 0 <= k < st.ops[d][i].uses.len() ==> reached(
            p,
            e,
            st,
            seen,
            d,
            p.phi_locs[d].len() + i,
            #[trigger] st.ops[d][i].uses[k],
        )
}

/// Only blocks in `seen` hold operations.
pub open spec fn blank(p: Plan, st: Renamed, seen: Set<int>) -> bool {
    forall|d: int| 0 <= d < p.flat.len() && !seen.contains(d) ==> (#[trigger] st.ops[d]).len() == 0
}

/// Block `x` is `b` or a reachable block below it.
pub open spec fn below(p: Plan, e: u32, b: int, x: int) -> bool {
    0 <= x < p.flat.len() && (x == b || (reaches(p.succ, e, x as u32, None) && over(p, e, b, x)))
}

/// The two states name the same outside of position `r` of block `b`.
spec fn differ_at(p: Plan, s: Renamed, t: Renamed, b: int, r: int) -> bool {
    forall|c: int, j: int|
        0 <= c < p.flat.len() && (c != b || j != r) ==> #[trigger] names(t, c, j) == names(s, c, j)
}

/// A change at position `r` of block `b` leaves what was reached elsewhere.
proof fn lemma_still_reached(p: Plan, e: u32, s: Renamed, t: Renamed, seen: Set<int>, b: int, r: int, d: int, q: int, v: SsaVar)
    requires
        differ_at(p, s, t, b, r),
        !seen.contains(b),
        d == b ==> q <= r,
        reached(p, e, s, seen, d, q, v),
    ensures
        reached(p, e, t, seen, d, q, v),
{
    if v.version != 0 && !live_in(p, v) {
        let (c, j) = choose|c: int, j: int| #[trigger] gives(p, e, s, seen, d, q, v, c, j);
        assert(names(t, c, j) == names(s, c, j));
        assert(gives(p, e, t, seen, d, q, v, c, j));
    }
}

/// A later position is reached by what reaches an earlier one.
proof fn lemma_later(p: Plan, e: u32, s: Renamed, seen: Set<int>, d: int, q: int, r: int, v: SsaVar)
    requires
        q <= r,
        reached(p, e, s, seen, d, q, v),
    ensures
        reached(p, e, s, seen, d, r, v),
{
    if v.version != 0 && !live_in(p, v) {
        let (c, j) = choose|c: int, j: int| #[trigger] gives(p, e, s, seen, d, q, v, c, j);
        assert(gives(p, e, s, seen, d, r, v, c, j));
    }
}

/// Defining `l` at position `r` of block `b` keeps everything in force reached.
proof fn lemma_defined(p: Plan, e: u32, s: Renamed, t: Renamed, seen: Set<int>, b: int, r: int, l: Location)
    requires
        0 <= b < p.flat.len(),
        !seen.contains(b),
        differ_at(p, s, t, b, r),
        in_force(p, e, s, seen, b, r, s.env),
        t.env == s.env.insert(l, fresh(s, l).version),
        names(t, b, r) == Some(fresh(s, l)),
    ensures
        in_force(p, e, t, seen, b, r + 1, t.env),
{
    assert forall|x: Location| #[trigger] t.env.dom().contains(x) implies reached(
        p,
        e,
        t,
        seen,
        b,
        r + 1,
        SsaVar { location: x, version: t.env[x] },
    ) by {
        let v = SsaVar { location: x, version: t.env[x] };
        if x == l {
            lemma_dominates_reflexive(p.succ, e, b as u32);
            assert(gives(p, e, t, seen, b, r + 1, v, b, r));
        } else {
            assert(s.env.dom().contains(x));
            lemma_still_reached(p, e, s, t, seen, b, r, b, r, v);
            lemma_later(p, e, t, seen, b, r, r + 1, v);
        }
    }
}

/// A change at position `r` of block `b`, behind the operations that stand there,
/// leaves their uses reached.
proof fn lemma_uses_stay(p: Plan, e: u32, s: Renamed, t: Renamed, seen: Set<int>, b: int, r: int, d: int, i: int, k: int)
    requires
        differ_at(p, s, t, b, r),
        !seen.contains(b),
        uses_reached(p, e, s, seen),
        0 <= d < p.flat.len(),
        0 <= i < s.ops[d].len(),
        0 <= k < s.ops[d][i].uses.len(),
        d == b ==> p.phi_locs[d].len() + i <= r,
    ensures
        reached(p, e, t, seen, d, p.phi_locs[d].len() + i, s.ops[d][i].uses[k]),
{
    lemma_still_reached(p, e, s, t, seen, b, r, d, p.phi_locs[d].len() + i, s.ops[d][i].uses[k]);
}

proof fn lemma_heads(p: Plan, e: u32, b: int, n: int, st: Renamed, seen: Set<int>)
    requires
        fits(p),
        shaped(p, st),
        0 <= b < p.flat.len(),
        0 <= n <= p.phi_locs[b].len(),
        !seen.contains(b),
        blank(p, st, seen),
        uses_reached(p, e, st, seen),
        in_force(p, e, st, seen, b, 0, st.env),
    ensures
        shaped(p, rename_heads(p, b, n, st)),
        rename_heads(p, b, n, st).ops == st.ops,
        uses_reached(p, e, rename_heads(p, b, n, st), seen),
        in_force(p, e, rename_heads(p, b, n, st), seen, b, n, rename_heads(p, b, n, st).env),
        forall|c: int, j: int|
            0 <= c < p.flat.len() && c != b ==> #[trigger] names(rename_heads(p, b, n, st), c, j) == names(st, c, j),
    decreases n,
{
    if n > 0 {
        lemma_heads(p, e, b, n - 1, st, seen);
        let s = rename_heads(p, b, n - 1, st);
        let l = p.phi_locs[b][n - 1];
        let new = PhiView { out: fresh(s, l), args: s.phis[b][n - 1].args };
        let t = rename_heads(p, b, n, st);
        assert(t.phis == s.phis.update(b, s.phis[b].update(n - 1, new)));
        assert(s.phis[b].len() == p.phi_locs[b].len());
        assert forall|x: int| 0 <= x < p.flat.len() implies (#[trigger] t.phis[x]).len() == p.phi_locs[x].len() by {
            assert(s.phis[x].len() == p.phi_locs[x].len());
        }
        assert forall|x: int, y: int| 0 <= x < p.flat.len() && 0 <= y < p.phi_locs[x].len() implies (
        #[trigger] t.phis[x][y]).args.len() == p.pred[x].len() by {
            assert(s.phis[x][y].args.len() == p.pred[x].len());
        }
        assert forall|c: int, j: int| 0 <= c < p.flat.len() && (c != b || j != n - 1) implies #[trigger] names(
            t,
            c,
            j,
        ) == names(s, c, j) by {
            assert(s.phis[c].len() == p.phi_locs[c].len());
            assert(t.phis[c].len() == p.phi_locs[c].len());
        }
        assert(names(t, b, n - 1) == Some(fresh(s, l)));
        lemma_defined(p, e, s, t, seen, b, n - 1, l);
        assert forall|d: int, i: int, k: int|
            0 <= d < p.flat.len() && 0 <= i < t.ops[d].len() && 0 <= k < t.ops[d][i].uses.len() implies reached(
            p,
            e,
            t,
            seen,
            d,
            p.phi_locs[d].len() + i,
            #[trigger] t.ops[d][i].uses[k],
        ) by {
            assert(st.ops[b].len() == 0);
            lemma_uses_stay(p, e, s, t, seen, b, n - 1, d, i, k);
        }
    }
}

proof fn lemma_body(p: Plan, e: u32, b: int, n: int, st: Renamed, seen: Set<int>)
    requires
        fits(p),
        shaped(p, st),
        0 <= b < p.flat.len(),
        0 <= n <= p.flat[b].len(),
        !seen.contains(b),
        st.ops[b].len() == 0,
        uses_reached(p, e, st, seen),
        in_force(p, e, st, seen, b, p.phi_locs[b].len() as int, st.env),
    ensures
        shaped(p, rename_ops(p, b, n, st)),
        rename_ops(p, b, n, st).ops[b].len() == n,
        forall|d: int|
            0 <= d < p.flat.len() && d != b ==> (#[trigger] rename_ops(p, b, n, st).ops[d]) == st.ops[d],
        uses_reached(p, e, rename_ops(p, b, n, st), seen),
        in_force(
            p,
            e,
            rename_ops(p, b, n, st),
            seen,
            b,
            p.phi_locs[b].len() + n,
            rename_ops(p, b, n, st).env,
        ),
        forall|c: int, j: int|
            0 <= c < p.flat.len() && c != b ==> #[trigger] names(rename_ops(p, b, n, st), c, j) == names(st, c, j),
    decreases n,
{
    if n > 0 {
        lemma_body(p, e, b, n - 1, st, seen);
        let s = rename_ops(p, b, n - 1, st);
        let f = p.flat[b][n - 1];
        let new = renamed_op(f, s);
        let t = rename_ops(p, b, n, st);
        let h = p.phi_locs[b].len() as int;
        let r = h + n - 1;
        assert(t.ops == s.ops.update(b, s.ops[b].push(new)));
        assert(s.phis[b].len() == h);
        assert forall|c: int, j: int| 0 <= c < p.flat.len() && (c != b || j != r) implies #[trigger] names(t, c, j)
            == names(s, c, j) by {
            assert(s.phis[c].len() == p.phi_locs[c].len());
        }
        if let Some(l) = f.def {
            assert(names(t, b, r) == Some(fresh(s, l)));
            lemma_defined(p, e, s, t, seen, b, r, l);
        } else {
            assert forall|x: Location| #[trigger] t.env.dom().contains(x) implies reached(
                p,
                e,
                t,
                seen,
                b,
                r + 1,
                SsaVar { location: x, version: t.env[x] },
            ) by {
                let v = SsaVar { location: x, version: t.env[x] };
                assert(s.env.dom().contains(x));
                lemma_still_reached(p, e, s, t, seen, b, r, b, r, v);
                lemma_later(p, e, t, seen, b, r, r + 1, v);
            }
        }
        assert forall|d: int, i: int, k: int|
            0 <= d < p.flat.len() && 0 <= i < t.ops[d].len() && 0 <= k < t.ops[d][i].uses.len() implies reached(
            p,
            e,
            t,
            seen,
            d,
            p.phi_locs[d].len() + i,
            #[trigger] t.ops[d][i].uses[k],
        ) by {
            if d == b && i == n - 1 {
                let v = current(s, f.uses[k]);
                assert(t.ops[d][i].uses[k] == v);
                if s.env.dom().contains(f.uses[k]) {
                    assert(reached(
                        p,
                        e,
                        s,
                        seen,
                        b,
                        r,
                        SsaVar { location: f.uses[k], version: s.env[f.uses[k]] },
                    ));
                } else {
                    assert(v.version == 0);
                }
                lemma_still_reached(p, e, s, t, seen, b, r, b, r, v);
            } else {
                assert(t.ops[d][i] == s.ops[d][i]);
                lemma_uses_stay(p, e, s, t, seen, b, r, d, i, k);
            }
        }
    }
}

proof fn lemma_edges(p: Plan, b: int, n: int, st: Renamed)
    requires
        fits(p),
        shaped(p, st),
        0 <= b < p.flat.len(),
        0 <= n <= p.succ[b].len(),
    ensures
        shaped(p, fill_successors(p, b, n, st)),
        fill_successors(p, b, n, st).ops == st.ops,
        fill_successors(p, b, n, st).env == st.env,
        forall|c: int, j: int|
            0 <= c < p.flat.len() ==> #[trigger] names(fill_successors(p, b, n, st), c, j) == names(st, c, j),
    decreases n,
{
    if n > 0 {
        lemma_edges(p, b, n - 1, st);
        let s = fill_successors(p, b, n - 1, st);
        let x = p.succ[b][n - 1] as int;
        assert(p.succ[b][n - 1] < p.flat.len());
        let slot = slot_from(p.pred[x], b as u32, 0);
        let t = fill_successors(p, b, n, st);
        assert(s.phis[x].len() == p.phi_locs[x].len());
        assert(t.phis == s.phis.update(x, filled(s.phis[x], slot, s)));
        if p.phi_locs[x].len() > 0 {
            lemma_slot(p.pred[x], b as u32, 0);
        }
        assert forall|y: int| 0 <= y < p.flat.len() implies (#[trigger] t.phis[y]).len() == p.phi_locs[y].len() by {
            assert(s.phis[y].len() == p.phi_locs[y].len());
        }
        assert forall|y: int, z: int| 0 <= y < p.flat.len() && 0 <= z < p.phi_locs[y].len() implies (
        #[trigger] t.phis[y][z]).args.len() == p.pred[y].len() by {
            assert(s.phis[y][z].args.len() == p.pred[y].len());
        }
        assert forall|c: int, j: int| 0 <= c < p.flat.len() implies #[trigger] names(t, c, j) == names(st, c, j) by {
            assert(names(s, c, j) == names(st, c, j));
            assert(s.phis[c].len() == p.phi_locs[c].len());
            assert(t.phis[c].len() == p.phi_locs[c].len());
        }
    }
}

// ─── The tree ───────────────────────────────────────────────────────────────

/// The children of `b` in the order of their numbers, each with `b` as its parent.
pub proof fn lemma_children(idom: Seq<Option<u32>>, b: u32, n: int)
    requires
        0 <= n <= idom.len() <= u32::MAX,
    ensures
        forall|k: int|
            0 <= k < children_of(idom, b, n).len() ==> (#[trigger] children_of(idom, b, n)[k]) < n
                && children_of(idom, b, n)[k] != b && idom[children_of(idom, b, n)[k] as int] == Some(b),
        forall|i: int, k: int|
            0 <= i < k < children_of(idom, b, n).len() ==> #[trigger] children_of(idom, b, n)[i]
                < #[trigger] children_of(idom, b, n)[k],
    decreases n,
{
    if n > 0 {
        lemma_children(idom, b, n - 1);
        let a = children_of(idom, b, n - 1);
        let c = children_of(idom, b, n);
        assert forall|k: int| 0 <= k < c.len() implies (#[trigger] c[k]) < n && c[k] != b && idom[c[k] as int]
            == Some(b) by {
            if k < a.len() {
                assert(c[k] == a[k]);
            }
        }
        assert forall|i: int, k: int| 0 <= i < k < c.len() implies #[trigger] c[i] < #[trigger] c[k] by {
            assert(c[i] == a[i]);
            if k < a.len() {
                assert(c[k] == a[k]);
            }
        }
    }
}

/// A child of `b` is reachable and below it.
pub proof fn lemma_child(p: Plan, e: u32, b: int, k: u32)
    requires
        idom_tree(p.succ, e, p.idom),
        p.succ.len() <= u32::MAX,
        0 <= b < p.succ.len(),
        k < p.succ.len(),
        k != b,
        p.idom[k as int] == Some(b as u32),
    ensures
        reaches(p.succ, e, k, None),
        is_idom(p.succ, e, b as u32, k),
        over(p, e, b, k as int),
        reaches(p.succ, e, b as u32, None),
{
    assert(p.idom[k as int] is Some);
    assert(strictly_dominates(p.succ, e, b as u32, k));
    lemma_dominator_reached(p.succ, e, b as u32, k);
}

/// What is below a child of `b` is below `b`, and not `b`.
pub proof fn lemma_below_child(p: Plan, e: u32, b: int, k: u32, x: int)
    requires
        idom_tree(p.succ, e, p.idom),
        p.flat.len() == p.succ.len() <= u32::MAX,
        0 <= b < p.succ.len(),
        k < p.succ.len(),
        k != b,
        p.idom[k as int] == Some(b as u32),
        below(p, e, k as int, x),
    ensures
        below(p, e, b, x),
        x != b,
{
    lemma_child(p, e, b, k);
    if x != k {
        lemma_dominates_transitive(p.succ, e, b as u32, k, x as u32);
        if x == b {
            lemma_dominates_antisymmetric(p.succ, e, k, b as u32);
        }
    }
}

/// Nothing is below two children of `b`.
pub proof fn lemma_children_apart(p: Plan, e: u32, b: int, k: u32, m: u32, x: int)
    requires
        idom_tree(p.succ, e, p.idom),
        p.flat.len() == p.succ.len() <= u32::MAX,
        0 <= b < p.succ.len(),
        k < p.succ.len(),
        m < p.succ.len(),
        k != b,
        m != b,
        k != m,
        p.idom[k as int] == Some(b as u32),
        p.idom[m as int] == Some(b as u32),
        below(p, e, k as int, x),
    ensures
        !below(p, e, m as int, x),
{
    if below(p, e, m as int, x) {
        lemma_child(p, e, b, k);
        lemma_child(p, e, b, m);
        lemma_dominates_reflexive(p.succ, e, k);
        lemma_dominates_reflexive(p.succ, e, m);
        assert(reaches(p.succ, e, x as u32, None));
        assert(dominates(p.succ, e, k, x as u32));
        assert(dominates(p.succ, e, m, x as u32));
        lemma_dominators_chain(p.succ, e, k, m, x as u32);
        if dominates(p.succ, e, k, m) {
            assert(strictly_dominates(p.succ, e, k, m));
            assert(dominates(p.succ, e, k, b as u32));
            lemma_dominates_antisymmetric(p.succ, e, k, b as u32);
        } else {
            assert(strictly_dominates(p.succ, e, m, k));
            assert(dominates(p.succ, e, m, b as u32));
            lemma_dominates_antisymmetric(p.succ, e, m, b as u32);
        }
    }
}

/// More blocks in `seen` reach no less, if they name the same.
proof fn lemma_wider(p: Plan, e: u32, s: Renamed, t: Renamed, seen: Set<int>, more: Set<int>, d: int, r: int, v: SsaVar)
    requires
        seen.subset_of(more),
        more.contains(d) || !seen.contains(d),
        forall|c: int, j: int|
            0 <= c < p.flat.len() && (seen.contains(c) || c == d) ==> #[trigger] names(t, c, j) == names(s, c, j),
        reached(p, e, s, seen, d, r, v),
    ensures
        reached(p, e, t, more, d, r, v),
{
    if v.version != 0 && !live_in(p, v) {
        let (c, j) = choose|c: int, j: int| #[trigger] gives(p, e, s, seen, d, r, v, c, j);
        assert(names(t, c, j) == names(s, c, j));
        assert(gives(p, e, t, more, d, r, v, c, j));
    }
}

/// The blocks in `seen` and those below `b`.
pub open spec fn with_sub(p: Plan, e: u32, seen: Set<int>, b: int) -> Set<int> {
    seen.union(Set::new(|x: int| below(p, e, b, x)))
}

/// The blocks in `seen` and those below the first `n` of the blocks `k`.
pub open spec fn with_subs(p: Plan, e: u32, seen: Set<int>, k: Seq<u32>, n: int) -> Set<int>
    decreases n,
{
    if n <= 0 {
        seen
    } else {
        with_sub(p, e, with_subs(p, e, seen, k, n - 1), k[n - 1] as int)
    }
}

pub proof fn lemma_with_subs(p: Plan, e: u32, seen: Set<int>, k: Seq<u32>, n: int)
    requires
        0 <= n <= k.len(),
    ensures
        forall|x: int|
            #[trigger] with_subs(p, e, seen, k, n).contains(x) ==> seen.contains(x) || exists|i: int|
                0 <= i < n && #[trigger] below(p, e, k[i] as int, x),
        seen.subset_of(with_subs(p, e, seen, k, n)),
    decreases n,
{
    if n > 0 {
        lemma_with_subs(p, e, seen, k, n - 1);
        assert forall|x: int| #[trigger] with_subs(p, e, seen, k, n).contains(x) implies seen.contains(x) || exists|
            i: int,
        |
            0 <= i < n && #[trigger] below(p, e, k[i] as int, x) by {
            if with_subs(p, e, seen, k, n - 1).contains(x) {
                if !seen.contains(x) {
                    let i = choose|i: int| 0 <= i < n - 1 && #[trigger] below(p, e, k[i] as int, x);
                    assert(below(p, e, k[i] as int, x));
                }
            } else {
                assert(below(p, e, k[n - 1] as int, x));
            }
        }
    }
}

proof fn lemma_tree(p: Plan, e: u32, b: int, st: Renamed, seen: Set<int>, depth: nat)
    requires
        fits(p),
        shaped(p, st),
        idom_tree(p.succ, e, p.idom),
        0 <= b < p.flat.len(),
        forall|x: int| #[trigger] below(p, e, b, x) ==> !seen.contains(x),
        blank(p, st, seen),
        uses_reached(p, e, st, seen),
        in_force(p, e, st, seen, b, 0, st.env),
    ensures
        shaped(p, rename_tree(p, b, st, depth)),
        rename_tree(p, b, st, depth).env == st.env,
        blank(p, rename_tree(p, b, st, depth), with_sub(p, e, seen, b)),
        uses_reached(p, e, rename_tree(p, b, st, depth), with_sub(p, e, seen, b)),
        forall|c: int, j: int|
            0 <= c < p.flat.len() && !below(p, e, b, c) ==> #[trigger] names(rename_tree(p, b, st, depth), c, j)
                == names(st, c, j),
    decreases depth, 0int,
{
    let all = with_sub(p, e, seen, b);
    assert(below(p, e, b, b));
    if depth == 0 {
        assert forall|d: int, i: int, k: int|
            0 <= d < p.flat.len() && 0 <= i < st.ops[d].len() && 0 <= k < st.ops[d][i].uses.len() implies reached(
            p,
            e,
            st,
            all,
            d,
            p.phi_locs[d].len() + i,
            #[trigger] st.ops[d][i].uses[k],
        ) by {
            assert(seen.contains(d)) by {
                if !seen.contains(d) {
                    assert(st.ops[d].len() == 0);
                }
            }
            lemma_wider(p, e, st, st, seen, all, d, p.phi_locs[d].len() + i, st.ops[d][i].uses[k]);
        }
    } else {
        let h = p.phi_locs[b].len() as int;
        let heads = rename_heads(p, b, h, st);
        lemma_heads(p, e, b, h, st, seen);
        assert(st.ops[b].len() == 0);
        let body = rename_ops(p, b, p.flat[b].len() as int, heads);
        lemma_body(p, e, b, p.flat[b].len() as int, heads, seen);
        let edges = fill_successors(p, b, p.succ[b].len() as int, body);
        lemma_edges(p, b, p.succ[b].len() as int, body);
        let here = seen.insert(b);
        let end = h + p.flat[b].len();
        assert forall|d: int, i: int, k: int|
            0 <= d < p.flat.len() && 0 <= i < edges.ops[d].len() && 0 <= k < edges.ops[d][i].uses.len() implies reached(
            p,
            e,
            edges,
            here,
            d,
            p.phi_locs[d].len() + i,
            #[trigger] edges.ops[d][i].uses[k],
        ) by {
            assert(body.ops[d][i].uses[k] == edges.ops[d][i].uses[k]);
            if d != b && !seen.contains(d) {
                assert(st.ops[d].len() == 0);
                assert(body.ops[d] == heads.ops[d]);
            }
            lemma_wider(p, e, body, edges, seen, here, d, p.phi_locs[d].len() + i, body.ops[d][i].uses[k]);
        }
        assert forall|d: int| 0 <= d < p.flat.len() && !here.contains(d) implies (#[trigger] edges.ops[d]).len()
            == 0 by {
            assert(body.ops[d] == heads.ops[d]);
            assert(st.ops[d].len() == 0);
        }
        assert forall|l: Location| #[trigger] edges.env.dom().contains(l) implies reached(
            p,
            e,
            edges,
            here,
            b,
            end,
            SsaVar { location: l, version: edges.env[l] },
        ) by {
            assert(body.env.dom().contains(l));
            lemma_wider(p, e, body, edges, seen, here, b, end, SsaVar { location: l, version: edges.env[l] });
        }
        let k = kids(p, b);
        let n = k.len() as int;
        lemma_children(p.idom, b as u32, p.idom.len() as int);
        assert forall|x: int| #[trigger] below(p, e, b, x) && x != b implies !here.contains(x) by {}
        lemma_row(p, e, b, k, n, edges, here, end, (depth - 1) as nat);
        let lower = rename_kids(p, k, n, edges, (depth - 1) as nat);
        let t = Renamed { env: st.env, ..lower };
        let some = with_subs(p, e, here, k, n);
        lemma_with_subs(p, e, here, k, n);
        assert forall|x: int| #[trigger] some.contains(x) implies all.contains(x) by {
            if !here.contains(x) {
                let i = choose|i: int| 0 <= i < n && #[trigger] below(p, e, k[i] as int, x);
                assert(k[i] < p.idom.len() && k[i] != b as u32);
                lemma_below_child(p, e, b, k[i], x);
            }
        }
        assert(some.subset_of(all));
        assert forall|c: int, j: int| #[trigger] names(t, c, j) == names(lower, c, j) by {}
        assert forall|d: int, i: int, q: int|
            0 <= d < p.flat.len() && 0 <= i < t.ops[d].len() && 0 <= q < t.ops[d][i].uses.len() implies reached(
            p,
            e,
            t,
            all,
            d,
            p.phi_locs[d].len() + i,
            #[trigger] t.ops[d][i].uses[q],
        ) by {
            assert(lower.ops[d][i].uses[q] == t.ops[d][i].uses[q]);
            assert(some.contains(d)) by {
                if !some.contains(d) {
                    assert(lower.ops[d].len() == 0);
                }
            }
            lemma_wider(p, e, lower, t, some, all, d, p.phi_locs[d].len() + i, t.ops[d][i].uses[q]);
        }
        assert forall|d: int| 0 <= d < p.flat.len() && !all.contains(d) implies (#[trigger] t.ops[d]).len() == 0 by {
            assert(lower.ops[d].len() == 0);
        }
        assert forall|c: int, j: int| 0 <= c < p.flat.len() && !below(p, e, b, c) implies #[trigger] names(t, c, j)
            == names(st, c, j) by {
            assert forall|i: int| 0 <= i < n implies !#[trigger] below(p, e, k[i] as int, c) by {
                if below(p, e, k[i] as int, c) {
                    assert(k[i] < p.idom.len() && k[i] != b as u32);
                    lemma_below_child(p, e, b, k[i], c);
                }
            }
            assert(names(lower, c, j) == names(edges, c, j));
            assert(names(edges, c, j) == names(body, c, j));
            assert(names(body, c, j) == names(heads, c, j));
        }
    }
}

proof fn lemma_row(p: Plan, e: u32, b: int, k: Seq<u32>, n: int, st: Renamed, seen: Set<int>, end: int, depth: nat)
    requires
        fits(p),
        shaped(p, st),
        idom_tree(p.succ, e, p.idom),
        0 <= b < p.flat.len(),
        seen.contains(b),
        k == kids(p, b),
        0 <= n <= k.len(),
        forall|x: int| #[trigger] below(p, e, b, x) && x != b ==> !seen.contains(x),
        blank(p, st, seen),
        uses_reached(p, e, st, seen),
        in_force(p, e, st, seen, b, end, st.env),
    ensures
        shaped(p, rename_kids(p, k, n, st, depth)),
        rename_kids(p, k, n, st, depth).env == st.env,
        blank(p, rename_kids(p, k, n, st, depth), with_subs(p, e, seen, k, n)),
        uses_reached(p, e, rename_kids(p, k, n, st, depth), with_subs(p, e, seen, k, n)),
        forall|c: int, j: int|
            0 <= c < p.flat.len() && (forall|i: int| 0 <= i < n ==> !#[trigger] below(p, e, k[i] as int, c))
                ==> #[trigger] names(rename_kids(p, k, n, st, depth), c, j) == names(st, c, j),
    decreases depth, n + 1,
{
    if n > 0 {
        lemma_row(p, e, b, k, n - 1, st, seen, end, depth);
        lemma_children(p.idom, b as u32, p.idom.len() as int);
        let s = rename_kids(p, k, n - 1, st, depth);
        let m = k[n - 1];
        let some = with_subs(p, e, seen, k, n - 1);
        lemma_with_subs(p, e, seen, k, n - 1);
        assert(m < p.idom.len() && m != b as u32 && p.idom[m as int] == Some(b as u32));
        lemma_child(p, e, b, m);
        assert forall|x: int| #[trigger] below(p, e, m as int, x) implies !some.contains(x) by {
            lemma_below_child(p, e, b, m, x);
            assert(!seen.contains(x));
            if some.contains(x) {
                let i = choose|i: int| 0 <= i < n - 1 && #[trigger] below(p, e, k[i] as int, x);
                assert(k[i] < m);
                assert(k[i] != b as u32 && p.idom[k[i] as int] == Some(b as u32));
                lemma_children_apart(p, e, b, m, k[i], x);
            }
        }
        assert forall|l: Location| #[trigger] s.env.dom().contains(l) implies reached(
            p,
            e,
            s,
            some,
            m as int,
            0,
            SsaVar { location: l, version: s.env[l] },
        ) by {
            let v = SsaVar { location: l, version: s.env[l] };
            assert(st.env.dom().contains(l));
            assert(reached(p, e, st, seen, b, end, v));
            if v.version != 0 && !live_in(p, v) {
                let (c, j) = choose|c: int, j: int| #[trigger] gives(p, e, st, seen, b, end, v, c, j);
                assert forall|i: int| 0 <= i < n - 1 implies !#[trigger] below(p, e, k[i] as int, c) by {
                    if below(p, e, k[i] as int, c) {
                        assert(k[i] < p.idom.len() && k[i] != b as u32);
                        lemma_below_child(p, e, b, k[i], c);
                    }
                }
                assert(names(s, c, j) == names(st, c, j));
                lemma_dominates_transitive(p.succ, e, c as u32, b as u32, m);
                assert(some.contains(c));
                assert(below(p, e, m as int, m as int));
                assert(c != m);
                assert(gives(p, e, s, some, m as int, 0, v, c, j));
            }
        }
        lemma_tree(p, e, m as int, s, some, depth);
        let t = rename_tree(p, m as int, s, depth);
        assert forall|c: int, j: int|
            0 <= c < p.flat.len() && (forall|i: int| 0 <= i < n ==> !#[trigger] below(p, e, k[i] as int, c)) implies #[trigger] names(
            t,
            c,
            j,
        ) == names(st, c, j) by {
            assert(!below(p, e, k[n - 1] as int, c));
            assert(names(t, c, j) == names(s, c, j));
        }
    }
}

/// A use of a renamed operation is of no version, of the value on entry, or of a
/// definition that lies before it on every path from the entry.
pub proof fn law_uses_follow_definitions(p: Plan, e: u32)
    requires
        fits(p),
        idom_tree(p.succ, e, p.idom),
        p.flat.len() > 0,
    ensures
        uses_reached(p, e, renamed(p), Set::full()),
        shaped(p, renamed(p)),
{
    let st = initial(p);
    let none = Set::<int>::empty();
    let root = root_from(p.idom, 0);
    lemma_root(p.idom, 0);
    assert(shaped(p, st));
    assert(blank(p, st, none));
    assert(uses_reached(p, e, st, none));
    assert forall|l: Location| #[trigger] st.env.dom().contains(l) implies reached(
        p,
        e,
        st,
        none,
        root,
        0,
        SsaVar { location: l, version: st.env[l] },
    ) by {
        assert(live_in(p, SsaVar { location: l, version: st.env[l] }));
    }
    lemma_tree(p, e, root, st, none, p.flat.len());
    let t = renamed(p);
    let seen = with_sub(p, e, none, root);
    assert forall|d: int, i: int, k: int|
        0 <= d < p.flat.len() && 0 <= i < t.ops[d].len() && 0 <= k < t.ops[d][i].uses.len() implies reached(
        p,
        e,
        t,
        Set::full(),
        d,
        p.phi_locs[d].len() + i,
        #[trigger] t.ops[d][i].uses[k],
    ) by {
        lemma_wider(p, e, t, t, seen, Set::full(), d, p.phi_locs[d].len() + i, t.ops[d][i].uses[k]);
    }
}

// ─── Functions ──────────────────────────────────────────────────────────────

/// Operation `j` of block `c` defines `v` and lies before operation `i` of block `b` on
/// every path from the entry block `e`.
pub open spec fn defines_before(succ: Seq<Seq<u32>>, e: u32, f: FunctionView, v: SsaVar, b: int, i: int, c: int, j: int) -> bool {
    &&& 0 <= c < f.blocks.len()
    &&& 0 <= j < f.blocks[c].ops.len()
    &&& f.blocks[c].ops[j].def == Some(v)
    &&& dominates(succ, e, c as u32, b as u32)
    &&& c == b ==> j < i
}

/// Every use of a P-code operation is of no version, of a value on entry, or of a
/// definition that lies before it on every path from the entry.
pub open spec fn uses_follow(succ: Seq<Seq<u32>>, e: u32, flat: Seq<Seq<FlatView>>, f: FunctionView) -> bool {
    forall|b: int, i: int, k: int|
        0 <= b < f.blocks.len() && 0 <= i < f.blocks[b].ops.len() && 0 <= k < f.blocks[b].ops[i].uses.len() ==> {
            let v = #[trigger] f.blocks[b].ops[i].uses[k];
            ||| v.version == 0
            ||| v.version == 1 && mentioned(flat, v.location)
            ||| exists|c: int, j: int| #[trigger] defines_before(succ, e, f, v, b, i, c, j)
        }
}

} // verus!
