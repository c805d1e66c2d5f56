//! The SSA builder: from lifted P-code and the machine-level graph to a function
//! in SSA form.

use vstd::prelude::*;
use std::collections::{BTreeMap, HashMap};
use pcode_ir::PcodeOp;
use crate::graph::{closed, converse, edge, leads, lemma_path_nodes, reaches, rows};
use crate::program::{BasicBlock, CodeIndex, Edge, Function};
use crate::sets::has_id;
use crate::ssa::cfg::{build_idom, dominance_frontier, frontier_chain, frontiers_closed, idom_of, in_frontier, in_iterated, law_climbs_end, lemma_chain_extend, sets};
use crate::ssa::lower::{block_views, lower_function_with_call_abi_inputs, lowered_from, CallAbiInputs, FlatView};
use crate::ssa::phi::{before, block_defines, collect_def_blocks, lists, needs_phi, ordered, phis_at, place_phis, DefBlocks};
use crate::ssa::rename::{fits, location_rows, mentioned, mentions, op_rows, phi_rows, phi_views, rename, renamed, shaped, slot_from, Plan, Renamed};
use crate::ssa::dominance::{defines_before, gives, law_uses_follow_definitions, live_in, reached, uses_follow, uses_reached};
use crate::ssa::reaching::{argument_reached, block_kept, carries, covered, defs_of, law_reaching_definitions, lemma_names_last, lemma_since, merges_last, names_last, operations_kept, phis_reach, rooted, row_of, rows_of, settles, since, use_reached, uses_reach, walks};
use crate::ssa::versions::{apart, arg_at, args_real, def_at, def_in, law_single_assignment, located, merges_defined, merges_real, out_at, phi_in, phis_mentioned, plain, single, single_assignment};
use crate::ssa::{copy_args, copy_ids, ops_view, BlockView, FunctionView, KindView, Location, OpView, PhiNode, PhiView, SsaBlock, SsaFunction, SsaOp, SsaOpKind};
use crate::types::StackFrame;

verus! {

broadcast use vstd::std_specs::hash::group_hash_axioms;

// ─── The graph ──────────────────────────────────────────────────────────────

/// Position of the last of the first `n` blocks that starts at `va`.
pub open spec fn block_at(blocks: Seq<BasicBlock>, va: u64, n: int) -> Option<int>
    decreases n,
{
    if n <= 0 {
        None
    } else if blocks[n - 1].entry_va == va {
        Some(n - 1)
    } else {
        block_at(blocks, va, n - 1)
    }
}

/// The blocks that the first `n` edges lead to, each once, in order. Unknown
/// targets and targets outside the function are left out.
pub open spec fn targets(blocks: Seq<BasicBlock>, edges: Seq<Edge>, n: int) -> Seq<u32>
    decreases n,
{
    if n <= 0 {
        Seq::empty()
    } else {
        let done = targets(blocks, edges, n - 1);
        let va = edges[n - 1].target;
        match block_at(blocks, va, blocks.len() as int) {
            Some(j) => if va != 0 && !done.contains(j as u32) {
                done.push(j as u32)
            } else {
                done
            },
            None => done,
        }
    }
}

impl Function {
    /// The successors of each block.
    pub open spec fn succs(&self) -> Seq<Seq<u32>> {
        Seq::new(
            self.blocks@.len(),
            |b: int|
                targets(
                    self.blocks@,
                    self.blocks@[b].successors@,
                    self.blocks@[b].successors@.len() as int,
                ),
        )
    }

    /// The predecessors of each block.
    pub open spec fn preds(&self) -> Seq<Seq<u32>> {
        Seq::new(
            self.blocks@.len(),
            |b: int|
                targets(
                    self.blocks@,
                    self.blocks@[b].predecessors@,
                    self.blocks@[b].predecessors@.len() as int,
                ),
        )
    }

    /// The block that the function starts at; the first one if none starts at the
    /// entry address.
    pub open spec fn entry_block(&self) -> u32 {
        match block_at(self.blocks@, self.entry_va, self.blocks@.len() as int) {
            Some(j) => j as u32,
            None => 0,
        }
    }

    /// The function has a block, and its edge lists mirror each other.
    pub open spec fn wf(&self) -> bool {
        &&& 0 < self.blocks@.len() < u32::MAX
        &&& converse(self.succs(), self.preds())
    }
}

// ─── Phi placement as a value ───────────────────────────────────────────────

/// The dominance frontier of each block.
pub open spec fn frontiers(pred: Seq<Seq<u32>>, idom: Seq<Option<u32>>) -> Seq<Set<u32>> {
    Seq::new(pred.len(), |r: int| Set::new(|b: u32| in_frontier(pred, idom, r as u32, b)))
}

/// The blocks that define `l`.
pub open spec fn definers(flat: Seq<Seq<FlatView>>, l: Location) -> Set<u32> {
    Set::new(|b: u32| b < flat.len() && block_defines(flat[b as int], flat[b as int].len() as int, l))
}

/// `l` needs a phi at block `b`: it lies in the iterated dominance frontier of the
/// blocks that define `l`.
pub open spec fn merges(flat: Seq<Seq<FlatView>>, df: Seq<Set<u32>>, l: Location, b: u32) -> bool {
    in_iterated(df, definers(flat, l), b)
}

/// `row` lists what needs a phi at block `b`, in the order of locations.
pub open spec fn placed(flat: Seq<Seq<FlatView>>, df: Seq<Set<u32>>, b: u32, row: Seq<Location>) -> bool {
    &&& forall|i: int, j: int| 0 <= i < j < row.len() ==> before(#[trigger] row[i], #[trigger] row[j])
    &&& forall|l: Location| #[trigger] row.contains(l) <==> merges(flat, df, l, b)
}

/// The phis of every block.
pub open spec fn all_placed(flat: Seq<Seq<FlatView>>, df: Seq<Set<u32>>, locs: Seq<Seq<Location>>) -> bool {
    &&& locs.len() == flat.len()
    &&& forall|b: int| 0 <= b < flat.len() ==> #[trigger] placed(flat, df, b as u32, locs[b])
}

proof fn lemma_phis_at(e: Seq<(Location, std::collections::BTreeSet<u32>)>, df: Seq<Set<u32>>, b: u32, n: int)
    requires
        ordered(e),
        0 <= n <= e.len(),
    ensures
        forall|i: int, j: int|
            0 <= i < j < phis_at(e, df, b, n).len() ==> before(
                #[trigger] phis_at(e, df, b, n)[i],
                #[trigger] phis_at(e, df, b, n)[j],
            ),
        forall|l: Location|
            #[trigger] phis_at(e, df, b, n).contains(l) <==> exists|k: int|
                0 <= k < n && (#[trigger] e[k]).0 == l && needs_phi(e[k], df, b),
    decreases n,
{
    if n > 0 {
        lemma_phis_at(e, df, b, n - 1);
        let less = phis_at(e, df, b, n - 1);
        let now = phis_at(e, df, b, n);
        assert forall|l: Location| #[trigger] now.contains(l) <==> exists|k: int|
            0 <= k < n && (#[trigger] e[k]).0 == l && needs_phi(e[k], df, b) by {
            if now.contains(l) {
                let i = choose|i: int| 0 <= i < now.len() && now[i] == l;
                if i < less.len() {
                    assert(less[i] == l);
                    assert(less.contains(l));
                } else {
                    assert(e[n - 1].0 == l);
                }
            }
            if exists|k: int| 0 <= k < n && (#[trigger] e[k]).0 == l && needs_phi(e[k], df, b) {
                let k = choose|k: int|
                    0 <= k < n && (#[trigger] e[k]).0 == l && needs_phi(e[k], df, b);
                if k < n - 1 {
                    assert(less.contains(l));
                    let i = choose|i: int| 0 <= i < less.len() && less[i] == l;
                    assert(now[i] == l);
                } else {
                    assert(now[now.len() - 1] == l);
                }
            }
        }
        assert forall|i: int, j: int| 0 <= i < j < now.len() implies before(
            #[trigger] now[i],
            #[trigger] now[j],
        ) by {
            assert(now[i] == less[i]);
            if j < less.len() {
                assert(now[j] == less[j]);
            } else {
                assert(less.contains(less[i]));
                let k = choose|k: int|
                    0 <= k < n - 1 && (#[trigger] e[k]).0 == less[i] && needs_phi(e[k], df, b);
                assert(before(e[k].0, e[n - 1].0));
            }
        }
    }
}

/// The lists that `phis_at` gives are the placed ones.
proof fn lemma_placed(d: DefBlocks, flat: Seq<Seq<FlatView>>, df: Seq<Set<u32>>, b: u32)
    requires
        d.describes(flat, flat.len() as int),
    ensures
        placed(flat, df, b, phis_at(d.entries@, df, b, d.entries@.len() as int)),
{
    let e = d.entries@;
    let row = phis_at(e, df, b, e.len() as int);
    lemma_phis_at(e, df, b, e.len() as int);
    assert forall|k: int| 0 <= k < e.len() implies (#[trigger] e[k]).1@ == definers(flat, e[k].0) by {
        let l = e[k].0;
        assert forall|c: u32| e[k].1@.contains(c) <==> definers(flat, l).contains(c) by {
            if e[k].1@.contains(c) {
                assert(lists(e, l, c));
            }
            if definers(flat, l).contains(c) {
                assert(lists(e, l, c));
                let j = choose|j: int| 0 <= j < e.len() && (#[trigger] e[j]).0 == l && e[j].1@.contains(c);
                if j < k {
                    assert(before(e[j].0, e[k].0));
                } else if j > k {
                    assert(before(e[k].0, e[j].0));
                }
            }
        }
        assert(e[k].1@ =~= definers(flat, l));
    }
    assert forall|l: Location| #[trigger] row.contains(l) <==> merges(flat, df, l, b) by {
        if row.contains(l) {
            let k = choose|k: int| 0 <= k < e.len() && (#[trigger] e[k]).0 == l && needs_phi(e[k], df, b);
            assert(e[k].1@ == definers(flat, l));
        }
        if merges(flat, df, l, b) {
            let q = choose|q: Seq<u32>| #[trigger] frontier_chain(df, definers(flat, l), q, b);
            let c = q[0];
            assert(definers(flat, l).contains(c));
            assert(lists(e, l, c));
            let k = choose|k: int| 0 <= k < e.len() && (#[trigger] e[k]).0 == l && e[k].1@.contains(c);
            assert(e[k].1@ == definers(flat, l));
            assert(needs_phi(e[k], df, b));
        }
    }
}

// ─── The SSA form as a value ────────────────────────────────────────────────

/// The operations of every block with their locations.
pub open spec fn flat_of(func: Function, pcode: Map<u64, Vec<PcodeOp>>, index: CodeIndex, inputs: Map<u64, Vec<Location>>) -> Seq<Seq<FlatView>> {
    Seq::new(
        func.blocks@.len(),
        |b: int|
            lowered_from(
                pcode,
                index,
                inputs,
                func.blocks@[b].entry_va,
                func.blocks@[b].exit_va,
                Seq::empty(),
            ),
    )
}

/// A phi as an operation at the head of its block.
pub open spec fn phi_op(phi: PhiView) -> OpView {
    OpView { va: 0, kind: KindView::Phi(phi), def: Some(phi.out), uses: Seq::empty() }
}

/// Block `b` of the renamed function: its phis, then its operations.
pub open spec fn built_block(func: Function, r: Renamed, b: int) -> BlockView {
    BlockView {
        id: b as u32,
        entry_va: func.blocks@[b].entry_va,
        ops: Seq::new(r.phis[b].len(), |k: int| phi_op(r.phis[b][k])) + r.ops[b],
        preds: func.preds()[b],
        succs: func.succs()[b],
    }
}

/// What renaming works on, with the phis at `locs`.
pub open spec fn plan(func: Function, flat: Seq<Seq<FlatView>>, locs: Seq<Seq<Location>>) -> Plan {
    Plan {
        flat,
        phi_locs: locs,
        succ: func.succs(),
        pred: func.preds(),
        idom: idom_of(func.succs(), func.entry_block()),
    }
}

/// `out` is the SSA form of `func`: phis at the iterated dominance frontiers of
/// the definitions, and the versions that renaming gives.
pub open spec fn built(func: Function, flat: Seq<Seq<FlatView>>, bitness: u32, image_base: u64, out: FunctionView) -> bool {
    exists|locs: Seq<Seq<Location>>| #[trigger]
        built_with(func, flat, bitness, image_base, locs, out)
}

pub open spec fn built_with(func: Function, flat: Seq<Seq<FlatView>>, bitness: u32, image_base: u64, locs: Seq<Seq<Location>>, out: FunctionView) -> bool {
    let p = plan(func, flat, locs);
    &&& all_placed(flat, frontiers(p.pred, p.idom), locs)
    &&& out.entry_va == func.entry_va
    &&& out.bitness == bitness
    &&& out.image_base == image_base
    &&& out.blocks == Seq::new(func.blocks@.len(), |b: int| built_block(func, renamed(p), b))
}

/// No P-code operation reads a register in version 0.
pub open spec fn registers_defined(f: FunctionView) -> bool {
    forall|b: int, i: int, k: int|
        0 <= b < f.blocks.len() && 0 <= i < f.blocks[b].ops.len() && 0 <= k
            < f.blocks[b].ops[i].uses.len() && f.blocks[b].ops[i].kind is Pcode
            && (#[trigger] f.blocks[b].ops[i].uses[k]).location is Register
            ==> f.blocks[b].ops[i].uses[k].version > 0
}

// ─── Computation ────────────────────────────────────────────────────────────

fn find_block(func: &Function, va: u64) -> (r: Option<usize>)
    ensures
        match r {
            Some(j) => j < func.blocks@.len() && block_at(
                func.blocks@,
                va,
                func.blocks@.len() as int,
            ) == Some(j as int),
            None => block_at(func.blocks@, va, func.blocks@.len() as int) is None,
        },
{
    let mut n: usize = func.blocks.len();
    while n > 0
        invariant
            n <= func.blocks@.len(),
            block_at(func.blocks@, va, n as int) == block_at(
                func.blocks@,
                va,
                func.blocks@.len() as int,
            ),
        decreases n,
    {
        n -= 1;
        if func.blocks[n].entry_va == va {
            return Some(n);
        }
    }
    None
}

proof fn lemma_block_at(blocks: Seq<BasicBlock>, va: u64, n: int)
    ensures
        match block_at(blocks, va, n) {
            Some(j) => 0 <= j < n,
            None => true,
        },
    decreases n,
{
    if n > 0 {
        lemma_block_at(blocks, va, n - 1);
    }
}

fn find_targets(func: &Function, edges: &Vec<Edge>) -> (r: Vec<u32>)
    requires
        func.blocks@.len() < u32::MAX,
    ensures
        r@ == targets(func.blocks@, edges@, edges@.len() as int),
        forall|k: int| 0 <= k < r@.len() ==> (#[trigger] r@[k]) < func.blocks@.len(),
{
    let mut r: Vec<u32> = Vec::new();
    let mut i: usize = 0;
    while i < edges.len()
        invariant
            func.blocks@.len() < u32::MAX,
            i <= edges@.len(),
            r@ == targets(func.blocks@, edges@, i as int),
            forall|k: int| 0 <= k < r@.len() ==> (#[trigger] r@[k]) < func.blocks@.len(),
        decreases edges@.len() - i,
    {
        let va = edges[i].target;
        if let Some(j) = find_block(func, va) {
            let id: u32 = j as u32;
            if va != 0 && !has_id(&r, id) {
                r.push(id);
            }
        }
        i += 1;
    }
    r
}

/// Every edge of `from` is listed at its other end in `to`.
fn is_listed(from: &Vec<Vec<u32>>, to: &Vec<Vec<u32>>) -> (r: bool)
    requires
        from@.len() == to@.len() < u32::MAX,
        closed(rows(from@)),
    ensures
        r == forall|a: u32, b: u32| #[trigger] edge(rows(from@), a, b) ==> edge(rows(to@), b, a),
{
    let n: usize = from.len();
    let mut a: usize = 0;
    while a < n
        invariant
            a <= n,
            n == from@.len() == to@.len(),
            n < u32::MAX,
            closed(rows(from@)),
            forall|x: u32, y: u32| x < a && #[trigger] edge(rows(from@), x, y) ==> edge(rows(to@), y, x),
        decreases n - a,
    {
        let row = &from[a];
        assert(rows(from@)[a as int] == row@);
        let mut k: usize = 0;
        while k < row.len()
            invariant
                k <= row@.len(),
                a < n,
                n == from@.len() == to@.len(),
                n < u32::MAX,
                closed(rows(from@)),
                rows(from@)[a as int] == row@,
                forall|j: int| 0 <= j < k ==> edge(rows(to@), #[trigger] row@[j], a as u32),
            decreases row@.len() - k,
        {
            let b: u32 = row[k];
            assert(rows(from@)[a as int][k as int] < n);
            assert(rows(to@)[b as int] == to@[b as int]@);
            if !has_id(&to[b as usize], a as u32) {
                assert(row@.contains(b));
                assert(edge(rows(from@), a as u32, b));
                assert(!edge(rows(to@), b, a as u32));
                return false;
            }
            k += 1;
        }
        assert forall|x: u32, y: u32| x < a + 1 && #[trigger] edge(rows(from@), x, y) implies edge(rows(to@), y, x) by {
            if x == a {
                let j = choose|j: int| 0 <= j < row@.len() && row@[j] == y;
                assert(edge(rows(to@), row@[j], a as u32));
            }
        }
        a += 1;
    }
    true
}

impl Function {
    /// Whether the function has a block, and its edge lists mirror each other.
    pub fn is_well_formed(&self) -> (r: bool)
        ensures
            r == self.wf(),
    {
        let n: usize = self.blocks.len();
        if n == 0 || n >= u32::MAX as usize {
            return false;
        }
        let (succ, pred) = find_edges(self);
        let there = is_listed(&succ, &pred);
        let back = is_listed(&pred, &succ);
        proof {
            let s = self.succs();
            let p = self.preds();
            if there && back {
                assert(converse(s, p));
            }
            if converse(s, p) {
                assert forall|a: u32, b: u32| #[trigger] edge(s, a, b) implies edge(p, b, a) by {
                    let k = choose|k: int| 0 <= k < s[a as int].len() && s[a as int][k] == b;
                    assert(s[a as int][k] < s.len());
                }
                assert forall|b: u32, a: u32| #[trigger] edge(p, b, a) implies edge(s, a, b) by {
                    let k = choose|k: int| 0 <= k < p[b as int].len() && p[b as int][k] == a;
                    assert(p[b as int][k] < p.len());
                }
            }
        }
        there && back
    }
}

/// The successors and the predecessors of each block.
fn find_edges(func: &Function) -> (r: (Vec<Vec<u32>>, Vec<Vec<u32>>))
    requires
        func.blocks@.len() < u32::MAX,
    ensures
        rows(r.0@) == func.succs(),
        rows(r.1@) == func.preds(),
        closed(rows(r.0@)),
        closed(rows(r.1@)),
        r.0@.len() == func.blocks@.len(),
        r.1@.len() == func.blocks@.len(),
{
    let n: usize = func.blocks.len();
    let mut succ: Vec<Vec<u32>> = Vec::new();
    let mut pred: Vec<Vec<u32>> = Vec::new();
    let mut i: usize = 0;
    while i < n
        invariant
            i <= n,
            n == func.blocks@.len(),
            n < u32::MAX,
            succ@.len() == i,
            pred@.len() == i,
            forall|b: int| 0 <= b < i ==> (#[trigger] succ@[b])@ == func.succs()[b],
            forall|b: int| 0 <= b < i ==> (#[trigger] pred@[b])@ == func.preds()[b],
            forall|b: int, k: int|
                0 <= b < i && 0 <= k < succ@[b]@.len() ==> (#[trigger] succ@[b]@[k]) < n,
            forall|b: int, k: int|
                0 <= b < i && 0 <= k < pred@[b]@.len() ==> (#[trigger] pred@[b]@[k]) < n,
        decreases n - i,
    {
        let s = find_targets(func, &func.blocks[i].successors);
        let p = find_targets(func, &func.blocks[i].predecessors);
        succ.push(s);
        pred.push(p);
        i += 1;
    }
    proof {
        assert(rows(succ@) =~= func.succs());
        assert(rows(pred@) =~= func.preds());
        assert forall|a: int, k: int| 0 <= a < rows(succ@).len() && 0 <= k < rows(succ@)[a].len() implies (
        #[trigger] rows(succ@)[a][k]) < rows(succ@).len() by {
            assert(succ@[a]@[k] < n);
        }
        assert forall|a: int, k: int| 0 <= a < rows(pred@).len() && 0 <= k < rows(pred@)[a].len() implies (
        #[trigger] rows(pred@)[a][k]) < rows(pred@).len() by {
            assert(pred@[a]@[k] < n);
        }
    }
    (succ, pred)
}

/// The operations of one block: phis first.
fn joined(phis: &Vec<PhiNode>, ops: &Vec<SsaOp>) -> (r: Vec<SsaOp>)
    ensures
        ops_view(r@) == Seq::new(phis@.len(), |k: int| phi_op(phis@[k]@)) + ops_view(ops@),
{
    let ghost heads = Seq::new(phis@.len(), |k: int| phi_op(phis@[k]@));
    let mut r: Vec<SsaOp> = Vec::new();
    let mut i: usize = 0;
    while i < phis.len()
        invariant
            i <= phis@.len(),
            heads == Seq::new(phis@.len(), |k: int| phi_op(phis@[k]@)),
            ops_view(r@) == heads.take(i as int),
        decreases phis@.len() - i,
    {
        let phi = &phis[i];
        let ghost r0 = r@;
        let new = SsaOp {
            va: 0,
            kind: SsaOpKind::Phi(PhiNode { out: phi.out, args: copy_args(&phi.args) }),
            def: Some(phi.out),
            uses: Vec::new(),
        };
        r.push(new);
        proof {
            assert(new@.uses =~= Seq::empty());
            assert(new@ == heads[i as int]);
            assert(ops_view(r@) =~= ops_view(r0).push(new@));
            assert(heads.take(i + 1) =~= heads.take(i as int).push(heads[i as int]));
        }
        i += 1;
    }
    assert(heads.take(heads.len() as int) =~= heads);
    let mut j: usize = 0;
    while j < ops.len()
        invariant
            j <= ops@.len(),
            ops_view(r@) == heads + ops_view(ops@).take(j as int),
        decreases ops@.len() - j,
    {
        let ghost r0 = r@;
        let new = ops[j].copied();
        r.push(new);
        proof {
            assert(ops_view(r@) =~= ops_view(r0).push(new@));
            assert(ops_view(ops@).take(j + 1) =~= ops_view(ops@).take(j as int).push(
                ops_view(ops@)[j as int],
            ));
            assert(ops_view(r@) =~= heads + ops_view(ops@).take(j + 1));
        }
        j += 1;
    }
    assert(ops_view(ops@).take(ops@.len() as int) =~= ops_view(ops@));
    r
}

/// A location with a phi is one that the function mentions.
proof fn lemma_phis_mentioned(p: Plan, df: Seq<Set<u32>>)
    requires
        all_placed(p.flat, df, p.phi_locs),
        p.flat.len() <= u32::MAX,
    ensures
        phis_mentioned(p),
{
    assert forall|b: int, k: int| 0 <= b < p.phi_locs.len() && 0 <= k < p.phi_locs[b].len() implies mentioned(
        p.flat,
        #[trigger] p.phi_locs[b][k],
    ) by {
        let l = p.phi_locs[b][k];
        assert(placed(p.flat, df, b as u32, p.phi_locs[b]));
        assert(p.phi_locs[b].contains(l));
        let d = definers(p.flat, l);
        let q = choose|q: Seq<u32>| #[trigger] frontier_chain(df, d, q, b as u32);
        let c = q[0];
        assert(d.contains(c));
        let i = choose|i: int|
            0 <= i < p.flat[c as int].len() && (#[trigger] p.flat[c as int][i]).def == Some(l) && !(l is Unique);
        assert(mentions(p.flat[c as int][i], l));
    }
}

/// What renaming guarantees of its rows holds of the function made of them.
proof fn lemma_built_single(func: Function, done: Renamed, f: FunctionView)
    requires
        single(done),
        args_real(done),
        plain(done),
        f.blocks.len() == done.phis.len(),
        f.blocks.len() == done.ops.len(),
        f.blocks == Seq::new(f.blocks.len(), |b: int| built_block(func, done, b)),
    ensures
        single_assignment(f),
        merges_defined(f),
{
    assert forall|b: int, i: int|
        0 <= b < f.blocks.len() && 0 <= i < f.blocks[b].ops.len() implies #[trigger] f.blocks[b].ops[i] == (
    if i < done.phis[b].len() {
        phi_op(done.phis[b][i])
    } else {
        done.ops[b][i - done.phis[b].len()]
    }) by {
        assert(f.blocks[b] == built_block(func, done, b));
    }
    assert forall|b: int, i: int, c: int, j: int|
        #![trigger f.blocks[b].ops[i], f.blocks[c].ops[j]]
        0 <= b < f.blocks.len() && 0 <= i < f.blocks[b].ops.len() && 0 <= c < f.blocks.len() && 0 <= j
            < f.blocks[c].ops.len() && (b != c || i != j) && f.blocks[b].ops[i].def is Some
            && f.blocks[c].ops[j].def is Some implies apart(
        f.blocks[b].ops[i].def->0,
        f.blocks[c].ops[j].def->0,
    ) by {
        let h = done.phis[b].len() as int;
        let g = done.phis[c].len() as int;
        if i < h && j < g {
            assert(phi_in(done, b, i) && phi_in(done, c, j));
            assert(apart(out_at(done, b, i), out_at(done, c, j)));
        } else if i < h {
            assert(phi_in(done, b, i) && def_in(done, c, j - g));
            assert(apart(out_at(done, b, i), def_at(done, c, j - g)));
        } else if j < g {
            assert(phi_in(done, c, j) && def_in(done, b, i - h));
            assert(apart(out_at(done, c, j), def_at(done, b, i - h)));
        } else {
            assert(def_in(done, b, i - h) && def_in(done, c, j - g));
            assert(apart(def_at(done, b, i - h), def_at(done, c, j - g)));
        }
    }
    assert forall|b: int, i: int, k: int|
        0 <= b < f.blocks.len() && 0 <= i < f.blocks[b].ops.len() implies #[trigger] merges_real(
        f.blocks[b].ops[i],
        k,
    ) by {
        let h = done.phis[b].len() as int;
        if i < h {
            assert(phi_in(done, b, i));
            if 0 <= k < done.phis[b][i].args.len() {
                assert(arg_at(done, b, i, k) == done.phis[b][i].args[k]);
            }
        } else {
            assert(done.ops[b][i - h].kind is Pcode);
        }
    }
}

/// What renaming guarantees of uses holds of the function made of its rows.
proof fn lemma_built_follows(func: Function, p: Plan, e: u32, done: Renamed, f: FunctionView)
    requires
        uses_reached(p, e, done, Set::full()),
        shaped(p, done),
        f.blocks.len() == p.flat.len(),
        f.blocks == Seq::new(f.blocks.len(), |b: int| built_block(func, done, b)),
    ensures
        uses_follow(p.succ, e, p.flat, f),
{
    assert forall|b: int, i: int, k: int|
        0 <= b < f.blocks.len() && 0 <= i < f.blocks[b].ops.len() && 0 <= k < f.blocks[b].ops[i].uses.len() implies ({
        let v = #[trigger] f.blocks[b].ops[i].uses[k];
        ||| v.version == 0
        ||| v.version == 1 && mentioned(p.flat, v.location)
        ||| exists|c: int, j: int| #[trigger] defines_before(p.succ, e, f, v, b, i, c, j)
    }) by {
        let v = f.blocks[b].ops[i].uses[k];
        let h = done.phis[b].len() as int;
        assert(f.blocks[b] == built_block(func, done, b));
        assert(done.phis[b].len() == p.phi_locs[b].len());
        if i >= h {
            assert(f.blocks[b].ops[i] == done.ops[b][i - h]);
            assert(reached(p, e, done, Set::full(), b, h + (i - h), done.ops[b][i - h].uses[k]));
            if v.version != 0 && !live_in(p, v) {
                let (c, j) = choose|c: int, j: int| #[trigger]
                    gives(p, e, done, Set::full(), b, h + (i - h), v, c, j);
                assert(f.blocks[c] == built_block(func, done, c));
                assert(done.phis[c].len() == p.phi_locs[c].len());
                assert(defines_before(p.succ, e, f, v, b, i, c, j));
            }
        }
    }
}

/// What renaming guarantees of walks holds of the function made of its rows.
proof fn lemma_built_reaches(func: Function, p: Plan, e: u32, fr: Seq<Set<u32>>, done: Renamed, f: FunctionView)
    requires
        rooted(p, e),
        converse(p.succ, p.pred),
        p.pred == func.preds(),
        fr == frontiers(p.pred, p.idom),
        all_placed(p.flat, fr, p.phi_locs),
        phis_mentioned(p),
        located(p, done),
        plain(done),
        done == renamed(p),
        f.blocks.len() == p.flat.len(),
        f.blocks == Seq::new(f.blocks.len(), |b: int| built_block(func, done, b)),
    ensures
        operations_kept(p.succ, e, p.flat, f),
        uses_reach(p.succ, e, f),
        phis_reach(p.succ, e, f),
{
    assert forall|l: Location| mentioned(p.flat, l) implies #[trigger] covered(p, l) by {
        assert forall|r: int, b: int|
            0 <= r < p.flat.len() && 0 <= b < p.flat.len() && settles(p, r, l) && #[trigger] in_frontier(
                p.pred,
                p.idom,
                r as u32,
                b as u32,
            ) implies p.phi_locs[b].contains(l) by {
            let d = definers(p.flat, l);
            assert(placed(p.flat, fr, r as u32, p.phi_locs[r]));
            assert(placed(p.flat, fr, b as u32, p.phi_locs[b]));
            if !p.phi_locs[r].contains(l) {
                let i = choose|i: int| 0 <= i < p.flat[r].len() && (#[trigger] p.flat[r][i]).def == Some(l);
                assert(block_defines(p.flat[r], p.flat[r].len() as int, l));
                assert(d.contains(r as u32));
            }
            assert(fr[(r as u32) as int].contains(b as u32));
            lemma_chain_extend(fr, d, r as u32, b as u32);
            assert(merges(p.flat, fr, l, b as u32));
        }
    }
    law_reaching_definitions(p, e);
    assert forall|b: int| 0 <= b < f.blocks.len() implies defs_of(f)[b] == #[trigger] row_of(done, b) by {
        assert(f.blocks[b] == built_block(func, done, b));
        assert(defs_of(f)[b] =~= row_of(done, b));
    }
    assert(defs_of(f) =~= rows_of(p, done));
    assert forall|b: int| 0 <= b < p.flat.len() && reaches(p.succ, e, b as u32, None) implies #[trigger] block_kept(
        f.blocks[b],
        p.flat[b],
    ) by {
        assert(f.blocks[b] == built_block(func, done, b));
        let h = done.phis[b].len() as int;
        assert(done.ops[b].len() == p.flat[b].len());
        assert forall|i: int| 0 <= i < p.flat[b].len() implies #[trigger] carries(f.blocks[b].ops[h + i], p.flat[b][i]) by {
            assert(f.blocks[b].ops[h + i] == done.ops[b][i]);
        }
    }
    assert forall|w: Seq<u32>, i: int, k: int|
        walks(p.succ, e, w) && 0 <= i < f.blocks[w.last() as int].ops.len() && f.blocks[w.last() as int].ops[i].kind is Pcode
            && 0 <= k < f.blocks[w.last() as int].ops[i].uses.len()
            && !(f.blocks[w.last() as int].ops[i].uses[k].location is Unique) implies #[trigger] names_last(
        f,
        e,
        w,
        i,
        f.blocks[w.last() as int].ops[i].uses[k],
    ) by {
        let b = w.last() as int;
        lemma_path_nodes(p.succ, w, w.len() - 1);
        assert(leads(p.succ, w, e, w.last(), None));
        assert(f.blocks[b] == built_block(func, done, b));
        let h = done.phis[b].len() as int;
        assert(h == p.phi_locs[b].len());
        assert(i >= h);
        assert(f.blocks[b].ops[i] == done.ops[b][i - h]);
        assert(carries(done.ops[b][i - h], p.flat[b][i - h]));
        let v = done.ops[b][i - h].uses[k];
        assert(v.location == p.flat[b][i - h].uses[k]);
        lemma_since(p.succ, e, w);
        assert(use_reached(p, done, since(w, e), i - h, k));
        lemma_names_last(f, e, w, i, v);
    }
    assert forall|w: Seq<u32>, x: u32, j: int|
        walks(p.succ, e, w) && edge(p.succ, w.last(), x) && 0 <= j < f.blocks[x as int].ops.len()
            && f.blocks[x as int].ops[j].kind is Phi implies #[trigger] merges_last(f, e, w, x, j) by {
        let b = w.last() as int;
        lemma_path_nodes(p.succ, w, w.len() - 1);
        let s = choose|s: int| 0 <= s < p.succ[b].len() && p.succ[b][s] == x;
        assert(p.succ[b][s] < p.flat.len());
        assert(f.blocks[x as int] == built_block(func, done, x as int));
        assert(f.blocks[b] == built_block(func, done, b));
        let h = done.phis[x as int].len() as int;
        assert(h == p.phi_locs[x as int].len());
        if j >= h {
            assert(f.blocks[x as int].ops[j] == done.ops[x as int][j - h]);
        }
        assert(f.blocks[x as int].ops[j] == phi_op(done.phis[x as int][j]));
        assert(phi_in(done, x as int, j));
        assert(out_at(done, x as int, j).location == p.phi_locs[x as int][j]);
        lemma_since(p.succ, e, w);
        assert(argument_reached(p, done, since(w, e), x, j));
        lemma_names_last(
            f,
            e,
            w,
            f.blocks[b].ops.len() as int,
            done.phis[x as int][j].args[slot_from(p.pred[x as int], w.last(), 0)]->0,
        );
    }
}

/// Build the SSA form of `func` from its lifted P-code.
///
/// Every block that can be reached from the entry block keeps its lowered operations,
/// and every use and every argument of a phi names the definition that reaches it.
///
/// `pcode` holds the lifted operations of each instruction. Names of stack slots
/// are applied when the function is printed; the frames are taken so that callers
/// share one signature.
pub fn build_ssa_with_call_abi_inputs(func: &Function, pcode: &HashMap<u64, Vec<PcodeOp>>, code_index: &CodeIndex, function_frames: &BTreeMap<u64, StackFrame>, bitness: u32, image_base: u64, call_abi_inputs: &CallAbiInputs) -> (r: SsaFunction)
    requires
        func.wf(),
        code_index.wf(),
    ensures
        built(
            *func,
            flat_of(*func, pcode@, *code_index, call_abi_inputs@),
            bitness,
            image_base,
            r@,
        ),
        registers_defined(r@),
        single_assignment(r@),
        merges_defined(r@),
        uses_follow(
            func.succs(),
            func.entry_block(),
            flat_of(*func, pcode@, *code_index, call_abi_inputs@),
            r@,
        ),
        operations_kept(
            func.succs(),
            func.entry_block(),
            flat_of(*func, pcode@, *code_index, call_abi_inputs@),
            r@,
        ),
        uses_reach(func.succs(), func.entry_block(), r@),
        phis_reach(func.succs(), func.entry_block(), r@),
        r.wf(),
{
    let _frames = function_frames;
    let block_flat = lower_function_with_call_abi_inputs(func, pcode, code_index, call_abi_inputs);
    let ghost flat = flat_of(*func, pcode@, *code_index, call_abi_inputs@);
    assert(block_views(block_flat@) =~= flat);
    assert(block_views(block_flat@).len() == block_flat@.len());
    let n: usize = func.blocks.len();
    let entry: u32 = match find_block(func, func.entry_va) {
        Some(j) => j as u32,
        None => 0,
    };
    let (succ, pred) = find_edges(func);
    let idom = build_idom(&succ, &pred, entry);
    proof {
        law_climbs_end(rows(succ@), rows(pred@), entry, idom@);
        assert forall|b: int| 0 <= b < idom@.len() && (#[trigger] idom@[b]) is Some implies idom@[b]->0
            < idom@.len() by {
            assert(idom@[(b as u32) as int] is Some);
        }
    }
    let df = dominance_frontier(&succ, &pred, &idom);
    let ghost fr = frontiers(rows(pred@), idom@);
    proof {
        assert forall|r: int| 0 <= r < df@.len() implies (#[trigger] sets(df@)[r]) == fr[r] by {
            assert forall|b: u32| df@[r]@.contains(b) <==> fr[r].contains(b) by {
                assert(df@[(r as u32) as int]@.contains(b) <==> in_frontier(
                    rows(pred@),
                    idom@,
                    r as u32,
                    b,
                ));
            }
            assert(df@[r]@ =~= fr[r]);
        }
        assert(sets(df@) =~= fr);
        assert(frontiers_closed(sets(df@)));
    }
    let defs = collect_def_blocks(&block_flat, n);
    let phi_locs = place_phis(&defs, &df);
    let ghost locs = location_rows(phi_locs@);
    let ghost p = plan(*func, flat, locs);
    proof {
        assert forall|b: int| 0 <= b < flat.len() implies #[trigger] placed(
            flat,
            fr,
            b as u32,
            locs[b],
        ) by {
            lemma_placed(defs, flat, fr, b as u32);
            assert(phi_locs@[b]@ == locs[b]);
        }
        assert forall|b: int, k: int| 0 <= b < n && 0 <= k < p.succ[b].len() implies (
        #[trigger] p.succ[b][k]) < n && p.pred[p.succ[b][k] as int].len() > 0 by {
            assert(rows(succ@)[b][k] < n);
            let s = p.succ[b][k];
            assert(p.succ[b].contains(s));
            assert(edge(p.succ, b as u32, s));
            assert(edge(p.pred, s, b as u32));
        }
        assert(fits(p));
        assert(rows(succ@) == p.succ && rows(pred@) == p.pred && idom@ == p.idom);
    }
    let (phis, pcode_ops) = rename(&block_flat, &phi_locs, &succ, &pred, &idom);
    let ghost done = renamed(p);
    let mut blocks: Vec<SsaBlock> = Vec::new();
    let mut b: usize = 0;
    while b < n
        invariant
            b <= n,
            n == func.blocks@.len(),
            n < u32::MAX,
            done == renamed(p),
            phi_rows(phis@) == done.phis,
            op_rows(pcode_ops@) == done.ops,
            phis@.len() == n,
            pcode_ops@.len() == n,
            rows(succ@) == func.succs(),
            rows(pred@) == func.preds(),
            succ@.len() == n,
            pred@.len() == n,
            blocks@.len() == b,
            forall|k: int| 0 <= k < b ==> (#[trigger] blocks@[k])@ == built_block(*func, done, k),
        decreases n - b,
    {
        let ops = joined(&phis[b], &pcode_ops[b]);
        let block = SsaBlock {
            id: b as u32,
            entry_va: func.blocks[b].entry_va,
            ops,
            predecessor_ids: copy_ids(&pred[b]),
            successor_ids: copy_ids(&succ[b]),
        };
        proof {
            assert(phi_rows(phis@)[b as int] == phi_views(phis@[b as int]@));
            assert(op_rows(pcode_ops@)[b as int] == ops_view(pcode_ops@[b as int]@));
            assert(rows(succ@)[b as int] == succ@[b as int]@);
            assert(rows(pred@)[b as int] == pred@[b as int]@);
            assert(Seq::new(phis@[b as int]@.len(), |k: int| phi_op(phis@[b as int]@[k]@)) =~= Seq::new(
                done.phis[b as int].len(),
                |k: int| phi_op(done.phis[b as int][k]),
            ));
            assert(block@ =~= built_block(*func, done, b as int));
        }
        blocks.push(block);
        b += 1;
    }
    let r = SsaFunction { entry_va: func.entry_va, bitness, blocks, image_base };
    proof {
        assert(r@.blocks =~= Seq::new(func.blocks@.len(), |b: int| built_block(*func, done, b)));
        assert(built_with(*func, flat, bitness, image_base, locs, r@));
        assert forall|k: int| 0 <= k < n implies (#[trigger] r.blocks@[k]).successor_ids@ == func.succs()[k]
            && r.blocks@[k].predecessor_ids@ == func.preds()[k] by {
            assert(r.blocks@[k]@ == built_block(*func, done, k));
        }
        assert(r.succs() =~= func.succs());
        assert(r.preds() =~= func.preds());
        assert forall|b: int, i: int, k: int|
            0 <= b < r@.blocks.len() && 0 <= i < r@.blocks[b].ops.len() && 0 <= k
                < r@.blocks[b].ops[i].uses.len() && r@.blocks[b].ops[i].kind is Pcode
                && (#[trigger] r@.blocks[b].ops[i].uses[k]).location is Register implies r@.blocks[b].ops[i].uses[k].version
            > 0 by {
            let h = done.phis[b].len();
            assert(r@.blocks[b] == built_block(*func, done, b));
            if i >= h {
                assert(r@.blocks[b].ops[i] == done.ops[b][i - h]);
                assert(done.ops[b][i - h].uses[k].location is Register);
            }
        }
        lemma_phis_mentioned(p, fr);
        law_single_assignment(p);
        lemma_built_single(*func, done, r@);
        law_uses_follow_definitions(p, entry);
        lemma_built_follows(*func, p, entry, done, r@);
        assert forall|b: int, k: int| 0 <= b < p.flat.len() && 0 <= k < p.succ[b].len() implies p.pred[(
        #[trigger] p.succ[b][k]) as int].contains(b as u32) by {
            assert(rows(succ@)[b][k] < n);
            assert(p.succ[b].contains(p.succ[b][k]));
            assert(edge(p.succ, b as u32, p.succ[b][k]));
            assert(edge(p.pred, p.succ[b][k], b as u32));
        }
        lemma_built_reaches(*func, p, entry, fr, done, r@);
    }
    r
}

/// Whether no P-code operation reads a register in version 0.
pub fn verify_no_uninitialized_register_uses(ssa: &SsaFunction) -> (r: bool)
    ensures
        r == registers_defined(ssa@),
{
    let mut b: usize = 0;
    while b < ssa.blocks.len()
        invariant
            b <= ssa.blocks@.len(),
            forall|x: int, i: int, k: int|
                0 <= x < b && 0 <= i < ssa@.blocks[x].ops.len() && 0 <= k
                    < ssa@.blocks[x].ops[i].uses.len() && ssa@.blocks[x].ops[i].kind is Pcode
                    && (#[trigger] ssa@.blocks[x].ops[i].uses[k]).location is Register
                    ==> ssa@.blocks[x].ops[i].uses[k].version > 0,
        decreases ssa.blocks@.len() - b,
    {
        let block = &ssa.blocks[b];
        assert(ssa@.blocks[b as int] == block@);
        let mut i: usize = 0;
        while i < block.ops.len()
            invariant
                b < ssa.blocks@.len(),
                ssa@.blocks[b as int] == block@,
                i <= block.ops@.len(),
                forall|y: int, k: int|
                    0 <= y < i && 0 <= k < block@.ops[y].uses.len() && block@.ops[y].kind is Pcode
                        && (#[trigger] block@.ops[y].uses[k]).location is Register
                        ==> block@.ops[y].uses[k].version > 0,
            decreases block.ops@.len() - i,
        {
            let op = &block.ops[i];
            assert(block@.ops[i as int] == op@);
            if matches!(op.kind, SsaOpKind::Pcode(_)) {
                let mut k: usize = 0;
                while k < op.uses.len()
                    invariant
                        b < ssa.blocks@.len(),
                        ssa@.blocks[b as int] == block@,
                        i < block.ops@.len(),
                        block@.ops[i as int] == op@,
                        op@.kind is Pcode,
                        k <= op.uses@.len(),
                        forall|z: int|
                            0 <= z < k && (#[trigger] op.uses@[z]).location is Register
                                ==> op.uses@[z].version > 0,
                    decreases op.uses@.len() - k,
                {
                    let u = op.uses[k];
                    if matches!(u.location, Location::Register { .. }) && u.version == 0 {
                        assert(ssa@.blocks[b as int].ops[i as int].uses[k as int] == u);
                        return false;
                    }
                    k += 1;
                }
            }
            i += 1;
        }
        b += 1;
    }
    true
}

/// Two rows in the order of locations with the same members are the same.
proof fn lemma_ordered_same(a: Seq<Location>, b: Seq<Location>)
    requires
        forall|i: int, j: int| 0 <= i < j < a.len() ==> before(#[trigger] a[i], #[trigger] a[j]),
        forall|i: int, j: int| 0 <= i < j < b.len() ==> before(#[trigger] b[i], #[trigger] b[j]),
        forall|x: Location| #[trigger] a.contains(x) <==> b.contains(x),
    ensures
        a == b,
    decreases a.len(),
{
    if a.len() == 0 {
        if b.len() > 0 {
            assert(b.contains(b[0]));
            assert(a.contains(b[0]));
        }
        assert(a =~= b);
    } else {
        let x = a[a.len() - 1];
        assert(a.contains(x));
        assert(b.contains(x));
        let y = b[b.len() - 1];
        assert(b.contains(y));
        assert(a.contains(y));
        let i = choose|i: int| 0 <= i < a.len() && a[i] == y;
        let j = choose|j: int| 0 <= j < b.len() && b[j] == x;
        assert(x == y) by {
            if i < a.len() - 1 && j < b.len() - 1 {
                assert(before(a[i], a[a.len() - 1]));
                assert(before(b[j], b[b.len() - 1]));
            }
        }
        let a0 = a.drop_last();
        let b0 = b.drop_last();
        assert forall|z: Location| #[trigger] a0.contains(z) <==> b0.contains(z) by {
            if a0.contains(z) {
                let k = choose|k: int| 0 <= k < a0.len() && a0[k] == z;
                assert(a[k] == z);
                assert(before(a[k], a[a.len() - 1]));
                assert(a.contains(z));
                assert(b.contains(z));
                let m = choose|m: int| 0 <= m < b.len() && b[m] == z;
                assert(b0[m] == z);
            }
            if b0.contains(z) {
                let k = choose|k: int| 0 <= k < b0.len() && b0[k] == z;
                assert(b[k] == z);
                assert(before(b[k], b[b.len() - 1]));
                assert(b.contains(z));
                assert(a.contains(z));
                let m = choose|m: int| 0 <= m < a.len() && a[m] == z;
                assert(a0[m] == z);
            }
        }
        lemma_ordered_same(a0, b0);
        assert(a =~= a0.push(x));
        assert(b =~= b0.push(x));
    }
}

/// A function has one SSA form.
pub proof fn law_built_is_one(func: Function, flat: Seq<Seq<FlatView>>, bitness: u32, image_base: u64, x: FunctionView, y: FunctionView)
    requires
        built(func, flat, bitness, image_base, x),
        built(func, flat, bitness, image_base, y),
    ensures
        x == y,
{
    let a = choose|a: Seq<Seq<Location>>| #[trigger] built_with(func, flat, bitness, image_base, a, x);
    let b = choose|b: Seq<Seq<Location>>| #[trigger] built_with(func, flat, bitness, image_base, b, y);
    let df = frontiers(func.preds(), idom_of(func.succs(), func.entry_block()));
    assert forall|i: int| 0 <= i < flat.len() implies a[i] == b[i] by {
        assert(placed(flat, df, i as u32, a[i]));
        assert(placed(flat, df, i as u32, b[i]));
        assert forall|l: Location| #[trigger] a[i].contains(l) <==> b[i].contains(l) by {
            assert(merges(flat, df, l, i as u32) <==> a[i].contains(l));
            assert(merges(flat, df, l, i as u32) <==> b[i].contains(l));
        }
        lemma_ordered_same(a[i], b[i]);
    }
    assert(a =~= b);
    assert(x =~= y);
}

} // verus!
