//! Renaming: walks the dominator tree and gives every definition a version and
//! every use the version that reaches it.
//!
//! Versions start at 1. Locations that are read before any definition in the
//! function get version 1 on entry; temporaries of an instruction do not, and an
//! unmatched use of one keeps version 0.

use vstd::prelude::*;
use crate::graph::rows;
use crate::maps::{lookup, LocMap};
use crate::ssa::lower::{block_views, flat_views, FlatView};
use crate::ssa::{copy_args, ops_view, FlatOp, KindView, Location, OpView, PhiNode, PhiView, SsaOp, SsaOpKind, SsaVar};
use crate::structure::pdom::children_of;

verus! {

// ─── What renaming works on ─────────────────────────────────────────────────

/// The lowered function, where its phis go, its edges and its dominator tree.
pub ghost struct Plan {
    pub flat: Seq<Seq<FlatView>>,
    pub phi_locs: Seq<Seq<Location>>,
    pub succ: Seq<Seq<u32>>,
    pub pred: Seq<Seq<u32>>,
    pub idom: Seq<Option<u32>>,
}

/// The versions in force, the next version of each location, and what has been
/// renamed so far.
#[verifier::ext_equal]
pub ghost struct Renamed {
    pub env: Map<Location, u32>,
    pub next: Map<Location, u32>,
    pub phis: Seq<Seq<PhiView>>,
    pub ops: Seq<Seq<OpView>>,
}

/// The version of `l` in force; `0` if there is none.
pub open spec fn version_of(env: Map<Location, u32>, l: Location) -> u32 {
    match lookup(env, l) {
        Some(v) => v,
        None => 0,
    }
}

/// The next version of `l`.
pub open spec fn next_version(next: Map<Location, u32>, l: Location) -> u32 {
    match lookup(next, l) {
        Some(v) => v,
        None => 1,
    }
}

/// The version after `v`; the last one stays.
pub open spec fn successor(v: u32) -> u32 {
    if v == u32::MAX {
        v
    } else {
        (v + 1) as u32
    }
}

/// A new definition of `l`.
pub open spec fn define(st: Renamed, l: Location) -> Renamed {
    let v = next_version(st.next, l);
    Renamed { env: st.env.insert(l, v), next: st.next.insert(l, successor(v)), ..st }
}

/// `l` in the version in force.
pub open spec fn current(st: Renamed, l: Location) -> SsaVar {
    SsaVar { location: l, version: version_of(st.env, l) }
}

/// `l` in its next version.
pub open spec fn fresh(st: Renamed, l: Location) -> SsaVar {
    SsaVar { location: l, version: next_version(st.next, l) }
}

/// The first `n` phis at the head of block `b` define their locations.
pub open spec fn rename_heads(p: Plan, b: int, n: int, st: Renamed) -> Renamed
    decreases n,
{
    if n <= 0 {
        st
    } else {
        let s = rename_heads(p, b, n - 1, st);
        let l = p.phi_locs[b][n - 1];
        let phi = PhiView { out: fresh(s, l), args: s.phis[b][n - 1].args };
        define(Renamed { phis: s.phis.update(b, s.phis[b].update(n - 1, phi)), ..s }, l)
    }
}

/// Operation `f` in the versions in force, with a new version for what it defines.
pub open spec fn renamed_op(f: FlatView, st: Renamed) -> OpView {
    OpView {
        va: f.va,
        kind: KindView::Pcode(f.op),
        def: match f.def {
            Some(l) => Some(fresh(st, l)),
            None => None,
        },
        uses: Seq::new(f.uses.len(), |i: int| current(st, f.uses[i])),
    }
}

/// The first `n` operations of block `b`.
pub open spec fn rename_ops(p: Plan, b: int, n: int, st: Renamed) -> Renamed
    decreases n,
{
    if n <= 0 {
        st
    } else {
        let s = rename_ops(p, b, n - 1, st);
        let f = p.flat[b][n - 1];
        let t = Renamed { ops: s.ops.update(b, s.ops[b].push(renamed_op(f, s))), ..s };
        match f.def {
            Some(l) => define(t, l),
            None => t,
        }
    }
}

/// First position of `b` among the predecessors, from `i` on; else the first slot.
pub open spec fn slot_from(preds: Seq<u32>, b: u32, i: int) -> int
    decreases preds.len() - i,
{
    if i < 0 || i >= preds.len() {
        0
    } else if preds[i] == b {
        i
    } else {
        slot_from(preds, b, i + 1)
    }
}

/// The phis of a successor with the argument of one predecessor filled in.
pub open spec fn filled(row: Seq<PhiView>, slot: int, st: Renamed) -> Seq<PhiView> {
    Seq::new(
        row.len(),
        |k: int|
            PhiView {
                out: row[k].out,
                args: row[k].args.update(slot, Some(current(st, row[k].out.location))),
            },
    )
}

/// The phis of the first `n` successors of block `b` get the versions in force.
pub open spec fn fill_successors(p: Plan, b: int, n: int, st: Renamed) -> Renamed
    decreases n,
{
    if n <= 0 {
        st
    } else {
        let s = fill_successors(p, b, n - 1, st);
        let t = p.succ[b][n - 1] as int;
        Renamed {
            phis: s.phis.update(t, filled(s.phis[t], slot_from(p.pred[t], b as u32, 0), s)),
            ..s
        }
    }
}

/// The blocks whose immediate dominator is `b`.
pub open spec fn kids(p: Plan, b: int) -> Seq<u32> {
    children_of(p.idom, b as u32, p.idom.len() as int)
}

/// Block `b` and the part of the dominator tree below it, at most `depth` levels.
/// What is in force at the block is in force again behind it.
pub open spec fn rename_tree(p: Plan, b: int, st: Renamed, depth: nat) -> Renamed
    decreases depth, 0int,
{
    if depth == 0 {
        st
    } else {
        let heads = rename_heads(p, b, p.phi_locs[b].len() as int, st);
        let body = rename_ops(p, b, p.flat[b].len() as int, heads);
        let edges = fill_successors(p, b, p.succ[b].len() as int, body);
        let below = rename_kids(p, kids(p, b), kids(p, b).len() as int, edges, (depth - 1) as nat);
        Renamed { env: st.env, ..below }
    }
}

/// The first `n` of the blocks `k`, one after the other.
pub open spec fn rename_kids(p: Plan, k: Seq<u32>, n: int, st: Renamed, depth: nat) -> Renamed
    decreases depth, n + 1,
{
    if n <= 0 {
        st
    } else {
        rename_tree(p, k[n - 1] as int, rename_kids(p, k, n - 1, st, depth), depth)
    }
}

/// `l` is defined or used somewhere, and can be live on entry.
pub open spec fn mentioned(flat: Seq<Seq<FlatView>>, l: Location) -> bool {
    &&& !(l is Unique)
    &&& exists|b: int, i: int|
        0 <= b < flat.len() && 0 <= i < flat[b].len() && #[trigger] mentions(flat[b][i], l)
}

/// The operation defines or uses `l`.
pub open spec fn mentions(f: FlatView, l: Location) -> bool {
    f.def == Some(l) || f.uses.contains(l)
}

/// Before the walk: version 1 of everything that can be live on entry is in force,
/// and the phis have no versions and no arguments.
pub open spec fn initial(p: Plan) -> Renamed {
    Renamed {
        env: Map::new(|l: Location| mentioned(p.flat, l), |l: Location| 1u32),
        next: Map::new(|l: Location| mentioned(p.flat, l), |l: Location| 2u32),
        phis: Seq::new(
            p.flat.len(),
            |b: int|
                Seq::new(
                    p.phi_locs[b].len(),
                    |k: int|
                        PhiView {
                            out: SsaVar { location: p.phi_locs[b][k], version: 0 },
                            args: Seq::new(p.pred[b].len(), |i: int| None),
                        },
                ),
        ),
        ops: Seq::new(p.flat.len(), |b: int| Seq::empty()),
    }
}

/// The root of the dominator tree: the first block from `i` on that is its own
/// immediate dominator; block `0` if there is none.
pub open spec fn root_from(idom: Seq<Option<u32>>, i: int) -> int
    decreases idom.len() - i,
{
    if i < 0 || i >= idom.len() {
        0
    } else if idom[i] == Some(i as u32) {
        i
    } else {
        root_from(idom, i + 1)
    }
}

/// The whole walk, from the root of the tree down. A tree has no more levels than
/// nodes.
pub open spec fn renamed(p: Plan) -> Renamed {
    rename_tree(p, root_from(p.idom, 0), initial(p), p.flat.len())
}

// ─── Well-formed plans and states ───────────────────────────────────────────

/// The parts of a plan fit each other.
pub open spec fn fits(p: Plan) -> bool {
    let n = p.flat.len();
    &&& n <= u32::MAX
    &&& p.phi_locs.len() == n
    &&& p.succ.len() == n
    &&& p.pred.len() == n
    &&& p.idom.len() == n
    &&& forall|b: int, k: int|
        0 <= b < n && 0 <= k < p.succ[b].len() ==> (#[trigger] p.succ[b][k]) < n && (
        p.phi_locs[p.succ[b][k] as int].len() == 0 || p.pred[p.succ[b][k] as int].len() > 0)
}

/// The lists of a state have the lengths that the plan asks for.
pub open spec fn shaped(p: Plan, st: Renamed) -> bool {
    let n = p.flat.len();
    &&& st.phis.len() == n
    &&& st.ops.len() == n
    &&& forall|b: int| 0 <= b < n ==> (#[trigger] st.phis[b]).len() == p.phi_locs[b].len()
    &&& forall|b: int, k: int|
        0 <= b < n && 0 <= k < p.phi_locs[b].len() ==> (#[trigger] st.phis[b][k]).args.len()
            == p.pred[b].len()
}

/// Every version in force or to come is a real one, and everything that can be
/// live on entry has one.
pub open spec fn sound(p: Plan, env: Map<Location, u32>, next: Map<Location, u32>) -> bool {
    &&& forall|l: Location| mentioned(p.flat, l) ==> #[trigger] env.dom().contains(l)
    &&& forall|l: Location| #[trigger] env.dom().contains(l) ==> env[l] > 0
    &&& forall|l: Location| #[trigger] next.dom().contains(l) ==> next[l] > 0
}

/// No operation uses a function-wide location in version 0.
pub open spec fn initialized(ops: Seq<Seq<OpView>>) -> bool {
    forall|b: int, i: int, k: int|
        0 <= b < ops.len() && 0 <= i < ops[b].len() && 0 <= k < ops[b][i].uses.len() ==> (
        #[trigger] ops[b][i].uses[k]).location is Unique || ops[b][i].uses[k].version > 0
}

// ─── Computation ────────────────────────────────────────────────────────────

pub open spec fn phi_views(v: Seq<PhiNode>) -> Seq<PhiView> {
    Seq::new(v.len(), |i: int| v[i]@)
}

/// The phis of all blocks as values.
pub open spec fn phi_rows(v: Seq<Vec<PhiNode>>) -> Seq<Seq<PhiView>> {
    Seq::new(v.len(), |i: int| phi_views(v[i]@))
}

/// The operations of all blocks as values.
pub open spec fn op_rows(v: Seq<Vec<SsaOp>>) -> Seq<Seq<OpView>> {
    Seq::new(v.len(), |i: int| ops_view(v[i]@))
}

/// The lists of locations.
pub open spec fn location_rows(v: Seq<Vec<Location>>) -> Seq<Seq<Location>> {
    Seq::new(v.len(), |i: int| v[i]@)
}

struct Renamer {
    env: LocMap<u32>,
    next: LocMap<u32>,
    phis: Vec<Vec<PhiNode>>,
    ops: Vec<Vec<SsaOp>>,
}

impl Renamer {
    spec fn st(&self) -> Renamed {
        Renamed {
            env: self.env@,
            next: self.next@,
            phis: phi_rows(self.phis@),
            ops: op_rows(self.ops@),
        }
    }

    fn top(&self, l: &Location) -> (v: u32)
        ensures
            v == version_of(self.env@, *l),
    {
        match self.env.get(l) {
            Some(v) => *v,
            None => 0,
        }
    }

    fn new_version(&mut self, l: &Location) -> (v: u32)
        ensures
            v == next_version(old(self).next@, *l),
            final(self).st() == define(old(self).st(), *l),
            final(self).phis == old(self).phis,
            final(self).ops == old(self).ops,
            final(self).env.entries@.len() == old(self).env.entries@.len() + 1,
            final(self).env.entries@.take(old(self).env.entries@.len() as int) == old(
                self,
            ).env.entries@,
    {
        let v: u32 = match self.next.get(l) {
            Some(v) => *v,
            None => 1,
        };
        let after: u32 = if v == u32::MAX {
            v
        } else {
            v + 1
        };
        let ghost e0 = self.env.entries@;
        self.next.insert(*l, after);
        self.env.entries.push((*l, v));
        assert(self.env.entries@.drop_last() =~= e0);
        assert(self.env.entries@.take(e0.len() as int) =~= e0);
        v
    }
}

/// Sets row `b` of the phis.
fn set_phis(v: &mut Vec<Vec<PhiNode>>, b: usize, row: Vec<PhiNode>)
    requires
        b < old(v)@.len(),
    ensures
        phi_rows(final(v)@) == phi_rows(old(v)@).update(b as int, phi_views(row@)),
{
    let ghost v0 = v@;
    v.set(b, row);
    assert(phi_rows(v@) =~= phi_rows(v0).update(b as int, phi_views(row@)));
}

fn slot_of(preds: &Vec<u32>, b: u32) -> (r: usize)
    ensures
        r == slot_from(preds@, b, 0),
        preds@.len() > 0 ==> r < preds@.len(),
{
    let mut i: usize = 0;
    while i < preds.len()
        invariant
            i <= preds@.len(),
            slot_from(preds@, b, i as int) == slot_from(preds@, b, 0),
        decreases preds@.len() - i,
    {
        if preds[i] == b {
            return i;
        }
        i += 1;
    }
    0
}

fn children(idom: &[Option<u32>], b: u32) -> (r: Vec<u32>)
    requires
        idom@.len() <= u32::MAX,
    ensures
        r@ == children_of(idom@, b, idom@.len() as int),
        forall|k: int| 0 <= k < r@.len() ==> (#[trigger] r@[k]) < idom@.len(),
{
    let mut r: Vec<u32> = Vec::new();
    let mut i: usize = 0;
    while i < idom.len()
        invariant
            i <= idom@.len(),
            idom@.len() <= u32::MAX,
            r@ == children_of(idom@, b, i as int),
            forall|k: int| 0 <= k < r@.len() ==> (#[trigger] r@[k]) < i,
        decreases idom@.len() - i,
    {
        if idom[i] == Some(b) && b != i as u32 {
            r.push(i as u32);
        }
        i += 1;
    }
    r
}

fn find_root(idom: &[Option<u32>]) -> (r: usize)
    requires
        0 < idom@.len() <= u32::MAX,
    ensures
        r == root_from(idom@, 0),
        r < idom@.len(),
{
    let mut i: usize = 0;
    while i < idom.len()
        invariant
            i <= idom@.len() <= u32::MAX,
            root_from(idom@, i as int) == root_from(idom@, 0),
        decreases idom@.len() - i,
    {
        if idom[i] == Some(i as u32) {
            return i;
        }
        i += 1;
    }
    0
}

/// The root of a tree is a block.
pub proof fn lemma_root(idom: Seq<Option<u32>>, i: int)
    requires
        0 <= i,
        idom.len() > 0,
    ensures
        0 <= root_from(idom, i) < idom.len(),
    decreases idom.len() - i,
{
    if i < idom.len() {
        lemma_root(idom, i + 1);
    }
}

/// Defining a location keeps the state shaped and sound.
pub proof fn lemma_define(p: Plan, st: Renamed, l: Location)
    requires
        sound(p, st.env, st.next),
    ensures
        sound(p, define(st, l).env, define(st, l).next),
        next_version(st.next, l) > 0,
{
    let d = define(st, l);
    assert forall|x: Location| mentioned(p.flat, x) implies #[trigger] d.env.dom().contains(x) by {
        assert(st.env.dom().contains(x));
    }
    assert forall|x: Location| #[trigger] d.env.dom().contains(x) implies d.env[x] > 0 by {
        if x != l {
            assert(st.env.dom().contains(x));
        } else if st.next.dom().contains(l) {
        }
    }
    assert forall|x: Location| #[trigger] d.next.dom().contains(x) implies d.next[x] > 0 by {
        if x != l {
            assert(st.next.dom().contains(x));
        } else if st.next.dom().contains(l) {
        }
    }
}

fn heads(st: &mut Renamer, b: usize, locs: &Vec<Location>, Ghost(p): Ghost<Plan>)
    requires
        fits(p),
        b < p.flat.len(),
        locs@ == p.phi_locs[b as int],
        shaped(p, old(st).st()),
        sound(p, old(st).env@, old(st).next@),
    ensures
        final(st).st() == rename_heads(p, b as int, locs@.len() as int, old(st).st()),
        shaped(p, final(st).st()),
        sound(p, final(st).env@, final(st).next@),
        final(st).ops == old(st).ops,
        old(st).env.entries@.len() <= final(st).env.entries@.len(),
        final(st).env.entries@.take(old(st).env.entries@.len() as int) == old(st).env.entries@,
{
    let ghost s0 = st.st();
    let ghost e0 = st.env.entries@;
    assert(e0.take(e0.len() as int) =~= e0);
    let mut k: usize = 0;
    while k < locs.len()
        invariant
            k <= locs@.len(),
            fits(p),
            b < p.flat.len(),
            locs@ == p.phi_locs[b as int],
            shaped(p, st.st()),
            sound(p, st.env@, st.next@),
            st.st() == rename_heads(p, b as int, k as int, s0),
            st.ops == old(st).ops,
            e0.len() <= st.env.entries@.len(),
            st.env.entries@.take(e0.len() as int) == e0,
        decreases locs@.len() - k,
    {
        let ghost s1 = st.st();
        let ghost e1 = st.env.entries@;
        let l = locs[k];
        proof {
            lemma_define(p, s1, l);
            assert(st.phis@.len() == p.flat.len());
            assert(phi_rows(st.phis@)[b as int].len() == p.phi_locs[b as int].len());
            assert(phi_rows(st.phis@)[b as int] == phi_views(st.phis@[b as int]@));
        }
        let v = st.new_version(&l);
        assert(st.env.entries@.take(e0.len() as int) =~= e1.take(e0.len() as int)) by {
            assert(st.env.entries@.take(e1.len() as int) == e1);
            assert forall|i: int| 0 <= i < e0.len() implies st.env.entries@[i] == e1[i] by {
                assert(st.env.entries@.take(e1.len() as int)[i] == e1[i]);
            }
        }
        // Row `b` with the version of phi `k` filled in.
        let ghost row0 = phi_views(st.phis@[b as int]@);
        let mut row: Vec<PhiNode> = Vec::new();
        let mut i: usize = 0;
        let ghost new = PhiView {
            out: SsaVar { location: l, version: v },
            args: row0[k as int].args,
        };
        while i < st.phis[b].len()
            invariant
                b < st.phis@.len(),
                i <= st.phis@[b as int]@.len(),
                k < row0.len(),
                row0 == phi_views(st.phis@[b as int]@),
                new == (PhiView {
                    out: SsaVar { location: l, version: v },
                    args: row0[k as int].args,
                }),
                phi_views(row@) == row0.update(k as int, new).take(i as int),
            decreases st.phis@[b as int]@.len() - i,
        {
            let phi = &st.phis[b][i];
            let ghost r0 = row@;
            let out = if i == k {
                SsaVar { location: l, version: v }
            } else {
                phi.out
            };
            let next = PhiNode { out, args: copy_args(&phi.args) };
            assert(row0[i as int] == phi@);
            row.push(next);
            proof {
                assert(phi_views(row@) =~= phi_views(r0).push(next@));
                assert(next@ == row0.update(k as int, new)[i as int]);
                assert(row0.update(k as int, new).take(i + 1) =~= row0.update(k as int, new).take(
                    i as int,
                ).push(row0.update(k as int, new)[i as int]));
            }
            i += 1;
        }
        assert(row0.update(k as int, new).take(row0.len() as int) =~= row0.update(k as int, new));
        set_phis(&mut st.phis, b, row);
        proof {
            assert(st.st().phis == s1.phis.update(b as int, s1.phis[b as int].update(k as int, new)));
            assert(st.st() =~= rename_heads(p, b as int, k + 1, s0));
            assert forall|x: int| 0 <= x < p.flat.len() implies (#[trigger] st.st().phis[x]).len()
                == p.phi_locs[x].len() by {
                assert(s1.phis[x].len() == p.phi_locs[x].len());
            }
            assert forall|x: int, y: int|
                0 <= x < p.flat.len() && 0 <= y < p.phi_locs[x].len() implies (
            #[trigger] st.st().phis[x][y]).args.len() == p.pred[x].len() by {
                assert(s1.phis[x][y].args.len() == p.pred[x].len());
            }
        }
        k += 1;
    }
}

fn body(st: &mut Renamer, b: usize, flat: &Vec<FlatOp>, Ghost(p): Ghost<Plan>)
    requires
        fits(p),
        b < p.flat.len(),
        flat_views(flat@) == p.flat[b as int],
        shaped(p, old(st).st()),
        sound(p, old(st).env@, old(st).next@),
        initialized(op_rows(old(st).ops@)),
    ensures
        final(st).st() == rename_ops(p, b as int, flat@.len() as int, old(st).st()),
        shaped(p, final(st).st()),
        sound(p, final(st).env@, final(st).next@),
        initialized(op_rows(final(st).ops@)),
        old(st).env.entries@.len() <= final(st).env.entries@.len(),
        final(st).env.entries@.take(old(st).env.entries@.len() as int) == old(st).env.entries@,
{
    let ghost s0 = st.st();
    let ghost e0 = st.env.entries@;
    assert(e0.take(e0.len() as int) =~= e0);
    let mut k: usize = 0;
    while k < flat.len()
        invariant
            k <= flat@.len(),
            fits(p),
            b < p.flat.len(),
            flat_views(flat@) == p.flat[b as int],
            shaped(p, st.st()),
            sound(p, st.env@, st.next@),
            initialized(op_rows(st.ops@)),
            st.st() == rename_ops(p, b as int, k as int, s0),
            e0.len() <= st.env.entries@.len(),
            st.env.entries@.take(e0.len() as int) == e0,
        decreases flat@.len() - k,
    {
        let ghost s1 = st.st();
        let ghost e1 = st.env.entries@;
        let f = &flat[k];
        assert(p.flat[b as int][k as int] == f@);
        let mut uses: Vec<SsaVar> = Vec::new();
        let mut i: usize = 0;
        while i < f.uses.len()
            invariant
                i <= f.uses@.len(),
                s1.env == st.env@,
                uses@.len() == i,
                forall|j: int| 0 <= j < i ==> uses@[j] == current(s1, f.uses@[j]),
            decreases f.uses@.len() - i,
        {
            let l = f.uses[i];
            uses.push(SsaVar { location: l, version: st.top(&l) });
            i += 1;
        }
        assert(uses@ =~= renamed_op(f@, s1).uses);
        let def: Option<SsaVar> = match &f.def {
            Some(l) => {
                proof {
                    lemma_define(p, s1, *l);
                }
                let v = st.new_version(l);
                assert(st.env.entries@.take(e0.len() as int) =~= e1.take(e0.len() as int)) by {
                    assert(st.env.entries@.take(e1.len() as int) == e1);
                    assert forall|i: int| 0 <= i < e0.len() implies st.env.entries@[i] == e1[i] by {
                        assert(st.env.entries@.take(e1.len() as int)[i] == e1[i]);
                    }
                }
                Some(SsaVar { location: *l, version: v })
            },
            None => None,
        };
        let new = SsaOp { va: f.va, kind: SsaOpKind::Pcode(f.op.clone()), def, uses };
        let ghost o0 = st.ops@;
        proof {
            assert(new@ =~= renamed_op(f@, s1));
            assert(op_rows(o0) == s1.ops);
            assert(o0.len() == p.flat.len());
        }
        let mut row = st.ops.remove(b);
        let ghost r0 = row@;
        row.push(new);
        st.ops.insert(b, row);
        proof {
            assert(ops_view(row@) =~= ops_view(r0).push(new@));
            assert(op_rows(st.ops@) =~= op_rows(o0).update(b as int, ops_view(r0).push(new@)));
            assert(op_rows(o0)[b as int] == ops_view(r0));
            assert(st.st() =~= rename_ops(p, b as int, k + 1, s0));
            let after = op_rows(st.ops@);
            assert forall|x: int, y: int, z: int|
                0 <= x < after.len() && 0 <= y < after[x].len() && 0 <= z < after[x][y].uses.len() implies (
            #[trigger] after[x][y].uses[z]).location is Unique || after[x][y].uses[z].version > 0 by {
                if x == b && y == ops_view(r0).len() {
                    let l = f@.uses[z];
                    assert(after[x][y].uses[z] == current(s1, l));
                    if !(l is Unique) {
                        assert(f@.uses.contains(l));
                        assert(mentions(p.flat[b as int][k as int], l));
                        assert(mentioned(p.flat, l));
                        assert(s1.env.dom().contains(l));
                    }
                } else {
                    assert(op_rows(o0)[x][y].uses[z] == after[x][y].uses[z]);
                }
            }
        }
        k += 1;
    }
}

fn edges(st: &mut Renamer, b: usize, succ: &Vec<u32>, pred: &[Vec<u32>], Ghost(p): Ghost<Plan>)
    requires
        fits(p),
        b < p.flat.len(),
        succ@ == p.succ[b as int],
        rows(pred@) == p.pred,
        shaped(p, old(st).st()),
    ensures
        final(st).st() == fill_successors(p, b as int, succ@.len() as int, old(st).st()),
        shaped(p, final(st).st()),
        final(st).env == old(st).env,
        final(st).next == old(st).next,
        final(st).ops == old(st).ops,
{
    let ghost s0 = st.st();
    let mut k: usize = 0;
    while k < succ.len()
        invariant
            k <= succ@.len(),
            fits(p),
            b < p.flat.len(),
            succ@ == p.succ[b as int],
            rows(pred@) == p.pred,
            shaped(p, st.st()),
            st.st() == fill_successors(p, b as int, k as int, s0),
            st.env == old(st).env,
            st.next == old(st).next,
            st.ops == old(st).ops,
        decreases succ@.len() - k,
    {
        let ghost s1 = st.st();
        let t: usize = succ[k] as usize;
        proof {
            assert(p.succ[b as int][k as int] < p.flat.len());
            assert(st.phis@.len() == p.flat.len());
            assert(pred@.len() == p.flat.len());
            assert(rows(pred@)[t as int] == pred@[t as int]@);
            assert(phi_rows(st.phis@)[t as int] == phi_views(st.phis@[t as int]@));
        }
        let slot = slot_of(&pred[t], b as u32);
        let ghost row0 = phi_views(st.phis@[t as int]@);
        let ghost want = filled(row0, slot as int, s1);
        let mut row: Vec<PhiNode> = Vec::new();
        let mut i: usize = 0;
        while i < st.phis[t].len()
            invariant
                t < st.phis@.len(),
                t < p.flat.len(),
                i <= st.phis@[t as int]@.len(),
                row0 == phi_views(st.phis@[t as int]@),
                row0 == s1.phis[t as int],
                shaped(p, s1),
                s1.env == st.env@,
                want == filled(row0, slot as int, s1),
                row0.len() == p.phi_locs[t as int].len(),
                row0.len() > 0 ==> slot < p.pred[t as int].len(),
                phi_views(row@) == want.take(i as int),
            decreases st.phis@[t as int]@.len() - i,
        {
            let phi = &st.phis[t][i];
            let ghost r0 = row@;
            assert(row0[i as int] == phi@);
            assert(s1.phis[t as int][i as int].args.len() == p.pred[t as int].len());
            let l = phi.out.location;
            let mut args = copy_args(&phi.args);
            args.set(slot, Some(SsaVar { location: l, version: st.top(&l) }));
            let next = PhiNode { out: phi.out, args };
            row.push(next);
            proof {
                assert(phi_views(row@) =~= phi_views(r0).push(next@));
                assert(next@ == want[i as int]);
                assert(want.take(i + 1) =~= want.take(i as int).push(want[i as int]));
            }
            i += 1;
        }
        assert(want.take(row0.len() as int) =~= want);
        set_phis(&mut st.phis, t, row);
        proof {
            assert(st.st() =~= fill_successors(p, b as int, k + 1, s0));
            assert forall|x: int| 0 <= x < p.flat.len() implies (#[trigger] st.st().phis[x]).len()
                == p.phi_locs[x].len() by {
                assert(s1.phis[x].len() == p.phi_locs[x].len());
            }
            assert forall|x: int, y: int|
                0 <= x < p.flat.len() && 0 <= y < p.phi_locs[x].len() implies (
            #[trigger] st.st().phis[x][y]).args.len() == p.pred[x].len() by {
                assert(s1.phis[x][y].args.len() == p.pred[x].len());
            }
        }
        k += 1;
    }
}

fn rename_block(st: &mut Renamer, b: usize, block_flat: &[Vec<FlatOp>], phi_locs: &[Vec<Location>], succ: &[Vec<u32>], pred: &[Vec<u32>], idom: &[Option<u32>], depth: usize, Ghost(p): Ghost<Plan>)
    requires
        fits(p),
        b < p.flat.len(),
        block_views(block_flat@) == p.flat,
        location_rows(phi_locs@) == p.phi_locs,
        rows(succ@) == p.succ,
        rows(pred@) == p.pred,
        idom@ == p.idom,
        shaped(p, old(st).st()),
        sound(p, old(st).env@, old(st).next@),
        initialized(op_rows(old(st).ops@)),
    ensures
        final(st).st() == rename_tree(p, b as int, old(st).st(), depth as nat),
        shaped(p, final(st).st()),
        sound(p, final(st).env@, final(st).next@),
        initialized(op_rows(final(st).ops@)),
        final(st).env.entries@ == old(st).env.entries@,
    decreases depth,
{
    if depth == 0 {
        return;
    }
    let ghost s0 = st.st();
    let ghost e0 = st.env.entries@;
    let mark: usize = st.env.entries.len();
    proof {
        assert(location_rows(phi_locs@)[b as int] == phi_locs@[b as int]@);
        assert(block_views(block_flat@)[b as int] == flat_views(block_flat@[b as int]@));
        assert(rows(succ@)[b as int] == succ@[b as int]@);
    }
    heads(st, b, &phi_locs[b], Ghost(p));
    let ghost e1 = st.env.entries@;
    body(st, b, &block_flat[b], Ghost(p));
    assert(st.env.entries@.take(e0.len() as int) =~= e0) by {
        assert forall|i: int| 0 <= i < e0.len() implies st.env.entries@[i] == e0[i] by {
            assert(st.env.entries@.take(e1.len() as int)[i] == e1[i]);
            assert(e1.take(e0.len() as int)[i] == e0[i]);
        }
    }
    edges(st, b, &succ[b], pred, Ghost(p));
    let ghost s3 = st.st();
    let ghost e3 = st.env.entries@;
    let below = children(idom, b as u32);
    let mut k: usize = 0;
    while k < below.len()
        invariant
            k <= below@.len(),
            fits(p),
            below@ == kids(p, b as int),
            forall|i: int| 0 <= i < below@.len() ==> (#[trigger] below@[i]) < p.flat.len(),
            block_views(block_flat@) == p.flat,
            location_rows(phi_locs@) == p.phi_locs,
            rows(succ@) == p.succ,
            rows(pred@) == p.pred,
            idom@ == p.idom,
            depth > 0,
            shaped(p, st.st()),
            sound(p, st.env@, st.next@),
            initialized(op_rows(st.ops@)),
            st.env.entries@ == e3,
            st.st() == rename_kids(p, below@, k as int, s3, (depth - 1) as nat),
        decreases below@.len() - k,
    {
        rename_block(
            st,
            below[k] as usize,
            block_flat,
            phi_locs,
            succ,
            pred,
            idom,
            depth - 1,
            Ghost(p),
        );
        k += 1;
    }
    let ghost s4 = st.st();
    st.env.entries.truncate(mark);
    proof {
        assert(st.env.entries@ =~= e0);
        assert(st.st() =~= rename_tree(p, b as int, s0, depth as nat));
    }
}

/// What can be live on entry, each once.
fn entry_locations(block_flat: &[Vec<FlatOp>]) -> (r: (LocMap<u32>, LocMap<u32>))
    ensures
        r.0@ == Map::new(
            |l: Location| mentioned(block_views(block_flat@), l),
            |l: Location| 1u32,
        ),
        r.1@ == Map::new(
            |l: Location| mentioned(block_views(block_flat@), l),
            |l: Location| 2u32,
        ),
{
    let ghost flat = block_views(block_flat@);
    let mut env: LocMap<u32> = LocMap::new();
    let mut next: LocMap<u32> = LocMap::new();
    let mut b: usize = 0;
    while b < block_flat.len()
        invariant
            b <= block_flat@.len(),
            flat == block_views(block_flat@),
            seeded(env@, 1),
            seeded(next@, 2),
            env@.dom() == next@.dom(),
            forall|l: Location|
                #[trigger] env@.dom().contains(l) <==> !(l is Unique) && exists|x: int, i: int|
                    0 <= x < b && 0 <= i < flat[x].len() && #[trigger] mentions(flat[x][i], l),
        decreases block_flat@.len() - b,
    {
        let ops = &block_flat[b];
        assert(flat[b as int] == flat_views(ops@));
        let mut i: usize = 0;
        while i < ops.len()
            invariant
                i <= ops@.len(),
                b < flat.len(),
                flat[b as int] == flat_views(ops@),
                seeded(env@, 1),
                seeded(next@, 2),
                env@.dom() == next@.dom(),
                forall|l: Location|
                    #[trigger] env@.dom().contains(l) <==> !(l is Unique) && exists|x: int, y: int|
                        0 <= x <= b && 0 <= y < flat[x].len() && (x < b || y < i)
                            && #[trigger] mentions(flat[x][y], l),
            decreases ops@.len() - i,
        {
            let op = &ops[i];
            assert(flat[b as int][i as int] == op@);
            let ghost d0 = env@.dom();
            if let Some(l) = &op.def {
                seed(&mut env, &mut next, *l);
            }
            let ghost d1 = env@.dom();
            let mut k: usize = 0;
            while k < op.uses.len()
                invariant
                    k <= op.uses@.len(),
                    seeded(env@, 1),
                    seeded(next@, 2),
                    env@.dom() == next@.dom(),
                    forall|l: Location|
                        #[trigger] env@.dom().contains(l) <==> d1.contains(l) || (!(l is Unique)
                            && exists|j: int| 0 <= j < k && #[trigger] op.uses@[j] == l),
                decreases op.uses@.len() - k,
            {
                let ghost d2 = env@.dom();
                seed(&mut env, &mut next, op.uses[k]);
                proof {
                    assert forall|l: Location| #[trigger] env@.dom().contains(l) <==> d1.contains(l) || (
                    !(l is Unique) && exists|j: int| 0 <= j < k + 1 && #[trigger] op.uses@[j] == l) by {
                        assert(d2.contains(l) || !d2.contains(l));
                        if exists|j: int| 0 <= j < k + 1 && #[trigger] op.uses@[j] == l {
                            let j = choose|j: int| 0 <= j < k + 1 && #[trigger] op.uses@[j] == l;
                            if j < k {
                                assert(0 <= j < k && op.uses@[j] == l);
                            }
                        }
                        if op.uses@[k as int] == l {
                            assert(0 <= k < k + 1);
                        }
                    }
                }
                k += 1;
            }
            proof {
                assert forall|l: Location| #[trigger] env@.dom().contains(l) <==> !(l is Unique)
                    && exists|x: int, y: int|
                    0 <= x <= b && 0 <= y < flat[x].len() && (x < b || y < i + 1)
                        && #[trigger] mentions(flat[x][y], l) by {
                    if !(l is Unique) && exists|x: int, y: int|
                        0 <= x <= b && 0 <= y < flat[x].len() && (x < b || y < i + 1)
                            && #[trigger] mentions(flat[x][y], l) {
                        let (x, y) = choose|x: int, y: int|
                            0 <= x <= b && 0 <= y < flat[x].len() && (x < b || y < i + 1)
                                && #[trigger] mentions(flat[x][y], l);
                        if x < b || y < i {
                            assert(d0.contains(l));
                        } else {
                            assert(mentions(op@, l));
                            if op@.uses.contains(l) {
                                let j = choose|j: int| 0 <= j < op.uses@.len() && op.uses@[j] == l;
                                assert(op.uses@[j] == l);
                            }
                        }
                    }
                    if env@.dom().contains(l) {
                        if d0.contains(l) {
                            let (x, y) = choose|x: int, y: int|
                                0 <= x <= b && 0 <= y < flat[x].len() && (x < b || y < i)
                                    && #[trigger] mentions(flat[x][y], l);
                            assert(x < b || y < i + 1);
                        } else {
                            if !d1.contains(l) {
                                let j = choose|j: int|
                                    0 <= j < op.uses@.len() && #[trigger] op.uses@[j] == l;
                                assert(op@.uses.contains(l));
                            }
                            assert(mentions(flat[b as int][i as int], l));
                        }
                    }
                }
            }
            i += 1;
        }
        proof {
            assert forall|l: Location| #[trigger] env@.dom().contains(l) <==> !(l is Unique)
                && exists|x: int, y: int|
                0 <= x < b + 1 && 0 <= y < flat[x].len() && #[trigger] mentions(flat[x][y], l) by {
                if exists|x: int, y: int|
                    0 <= x < b + 1 && 0 <= y < flat[x].len() && #[trigger] mentions(flat[x][y], l) {
                    let (x, y) = choose|x: int, y: int|
                        0 <= x < b + 1 && 0 <= y < flat[x].len() && #[trigger] mentions(
                            flat[x][y],
                            l,
                        );
                    assert(0 <= x <= b && (x < b || y < ops@.len()));
                }
            }
        }
        b += 1;
    }
    proof {
        assert forall|l: Location| env@.dom().contains(l) <==> mentioned(flat, l) by {}
        assert(env@ =~= Map::new(|l: Location| mentioned(flat, l), |l: Location| 1u32));
        assert(next@ =~= Map::new(|l: Location| mentioned(flat, l), |l: Location| 2u32));
    }
    (env, next)
}

/// Every entry is `v`.
spec fn seeded(m: Map<Location, u32>, v: u32) -> bool {
    forall|l: Location| #[trigger] m.dom().contains(l) ==> m[l] == v
}

fn seed(env: &mut LocMap<u32>, next: &mut LocMap<u32>, l: Location)
    requires
        seeded(old(env)@, 1),
        seeded(old(next)@, 2),
        old(env)@.dom() == old(next)@.dom(),
    ensures
        seeded(final(env)@, 1),
        seeded(final(next)@, 2),
        final(env)@.dom() == final(next)@.dom(),
        forall|x: Location|
            #[trigger] final(env)@.dom().contains(x) <==> old(env)@.dom().contains(x) || (x == l
                && !(l is Unique)),
{
    if !l.is_instruction_scoped() && env.get(&l).is_none() {
        env.insert(l, 1);
        next.insert(l, 2);
        assert(env@.dom() =~= next@.dom());
    }
}

/// Run the renamer over the whole function.
///
/// Returns the phis of each block, with versions and arguments, and the renamed
/// operations of each block.
pub fn rename(block_flat: &[Vec<FlatOp>], phi_locs: &[Vec<Location>], succ: &[Vec<u32>], pred: &[Vec<u32>], idom: &[Option<u32>]) -> (r: (Vec<Vec<PhiNode>>, Vec<Vec<SsaOp>>))
    requires
        block_flat@.len() > 0,
        fits(
            (Plan {
                flat: block_views(block_flat@),
                phi_locs: location_rows(phi_locs@),
                succ: rows(succ@),
                pred: rows(pred@),
                idom: idom@,
            }),
        ),
    ensures
        ({
            let p = Plan {
                flat: block_views(block_flat@),
                phi_locs: location_rows(phi_locs@),
                succ: rows(succ@),
                pred: rows(pred@),
                idom: idom@,
            };
            &&& phi_rows(r.0@) == renamed(p).phis
            &&& op_rows(r.1@) == renamed(p).ops
        }),
        initialized(op_rows(r.1@)),
        r.0@.len() == block_flat@.len(),
        r.1@.len() == block_flat@.len(),
{
    let n: usize = block_flat.len();
    let ghost p = Plan {
        flat: block_views(block_flat@),
        phi_locs: location_rows(phi_locs@),
        succ: rows(succ@),
        pred: rows(pred@),
        idom: idom@,
    };
    let mut phis: Vec<Vec<PhiNode>> = Vec::new();
    let mut ops: Vec<Vec<SsaOp>> = Vec::new();
    let ghost start = initial(p);
    let mut b: usize = 0;
    while b < n
        invariant
            b <= n,
            n == block_flat@.len(),
            fits(p),
            p.flat.len() == n,
            p.phi_locs == location_rows(phi_locs@),
            p.pred == rows(pred@),
            start == initial(p),
            phis@.len() == b,
            ops@.len() == b,
            forall|k: int| 0 <= k < b ==> phi_views((#[trigger] phis@[k])@) == start.phis[k],
            forall|k: int| 0 <= k < b ==> (#[trigger] ops@[k])@.len() == 0,
        decreases n - b,
    {
        assert(location_rows(phi_locs@)[b as int] == phi_locs@[b as int]@);
        assert(rows(pred@)[b as int] == pred@[b as int]@);
        let mut row: Vec<PhiNode> = Vec::new();
        let mut k: usize = 0;
        while k < phi_locs[b].len()
            invariant
                b < n,
                n == p.flat.len(),
                phi_locs@.len() == n,
                pred@.len() == n,
                p.phi_locs[b as int] == phi_locs@[b as int]@,
                p.pred[b as int] == pred@[b as int]@,
                start == initial(p),
                k <= phi_locs@[b as int]@.len(),
                phi_views(row@) == start.phis[b as int].take(k as int),
            decreases phi_locs@[b as int]@.len() - k,
        {
            let mut args: Vec<Option<SsaVar>> = Vec::new();
            let want: usize = pred[b].len();
            while args.len() < want
                invariant
                    args@.len() <= want,
                    forall|i: int| 0 <= i < args@.len() ==> (#[trigger] args@[i]) is None,
                decreases want - args@.len(),
            {
                args.push(None);
            }
            let ghost r0 = row@;
            let new = PhiNode { out: SsaVar { location: phi_locs[b][k], version: 0 }, args };
            row.push(new);
            proof {
                assert(args@ =~= start.phis[b as int][k as int].args);
                assert(new@ == start.phis[b as int][k as int]);
                assert(phi_views(row@) =~= phi_views(r0).push(new@));
                assert(start.phis[b as int].take(k + 1) =~= start.phis[b as int].take(
                    k as int,
                ).push(start.phis[b as int][k as int]));
            }
            k += 1;
        }
        assert(start.phis[b as int].take(p.phi_locs[b as int].len() as int) =~= start.phis[b as int]);
        phis.push(row);
        ops.push(Vec::new());
        b += 1;
    }
    let (env, next) = entry_locations(block_flat);
    let mut st = Renamer { env, next, phis, ops };
    proof {
        assert(phi_rows(st.phis@) =~= start.phis);
        assert forall|k: int| 0 <= k < n implies op_rows(st.ops@)[k] == start.ops[k] by {
            assert(st.ops@[k]@.len() == 0);
            assert(ops_view(st.ops@[k]@) =~= Seq::empty());
        }
        assert(op_rows(st.ops@) =~= start.ops);
        assert(st.st() =~= start);
    }
    let root = find_root(idom);
    rename_block(&mut st, root, block_flat, phi_locs, succ, pred, idom, n, Ghost(p));
    (st.phis, st.ops)
}

} // verus!
