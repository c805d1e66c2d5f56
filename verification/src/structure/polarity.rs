//! Which way a branch goes, and what the printed conditions say of it.

use vstd::prelude::*;
use pcode_ir::PcodeOp;
use crate::graph::{dominates, reaches};
use crate::ssa::cfg::idom_tree;
use crate::ssa::{SsaBlock, SsaFunction, SsaOpKind};
use crate::structure::cfg_norm::{resolve, JUMP_LIMIT};
use crate::structure::emit_region::{kept, region, say, structured, LoopFrame, Page};
use crate::structure::predicate::simplified;
use crate::structure::region::{arms_of, cases_of, classified, latches, heads_loop, bottom_tested, latch_exit, law_tree_dominance, loop_region, region_at, table_for, tree_dominates, Flow, Region, RegionView, SwitchInfo};
use crate::structure::statements::{block_cond, cond_from, cond_or_mark, do_while_text, oriented, pad, while_text, Scene};

verus! {

// ─── Control ────────────────────────────────────────────────────────────────

/// The block ends in a conditional branch.
pub open spec fn tests(block: SsaBlock) -> bool {
    &&& block.successor_ids@.len() > 0
    &&& exists|i: int|
        0 <= i < block.ops@.len() && ((#[trigger] block.ops@[i]).kind matches SsaOpKind::Pcode(PcodeOp::CBranch { .. }))
}

/// Where control goes behind a conditional branch: to the second successor if its
/// condition holds, else to the first. One successor stands for both.
pub open spec fn goes_to(block: SsaBlock, holds: bool) -> u32 {
    if holds && block.successor_ids@.len() >= 2 {
        block.successor_ids@[1]
    } else {
        block.successor_ids@[0]
    }
}

/// The block does nothing but hand control on: one way out, and no store, call, return
/// or further branch.
pub open spec fn hands_on(block: SsaBlock) -> bool {
    &&& block.successor_ids@.len() == 1
    &&& forall|i: int| 0 <= i < block.ops@.len() ==> match (#[trigger] block.ops@[i]).kind {
        SsaOpKind::Pcode(p) => match p {
            PcodeOp::Store { .. } => false,
            PcodeOp::CBranch { .. } => false,
            PcodeOp::BranchInd { .. } => false,
            PcodeOp::Call { .. } => false,
            PcodeOp::CallInd { .. } => false,
            PcodeOp::Return { .. } => false,
            _ => true,
        },
        SsaOpKind::Phi(_) => true,
    }
}

/// Step `i` of `q` goes over a block that hands control on.
pub open spec fn handed(ssa: SsaFunction, q: Seq<u32>, i: int) -> bool {
    q[i] < ssa.blocks@.len() && hands_on(ssa.blocks@[q[i] as int]) && ssa.blocks@[q[i] as int].successor_ids@[0]
        == q[i + 1]
}

/// Control that comes to `a` comes to `b` and does nothing on the way.
pub open spec fn comes_to(ssa: SsaFunction, a: u32, b: u32) -> bool {
    exists|q: Seq<u32>|
        q.len() > 0 && q[0] == a && q.last() == b && forall|i: int|
            0 <= i < q.len() - 1 ==> #[trigger] handed(ssa, q, i)
}

/// Control comes from `a` to `b`, over blocks that hand it on if `collapse` is set.
pub open spec fn arrives(ssa: SsaFunction, collapse: bool, a: u32, b: u32) -> bool {
    if collapse {
        comes_to(ssa, a, b)
    } else {
        a == b
    }
}

/// Looking through jump-only blocks never passes over anything that happens.
pub proof fn law_resolve_passes_nothing(ssa: SsaFunction, b: u32, limit: nat)
    ensures
        comes_to(ssa, b, resolve(ssa, b, limit)),
    decreases limit,
{
    let here = seq![b];
    assert(here[0] == b && here.last() == b);
    let end = resolve(ssa, b, limit);
    if end != b {
        let block = ssa.blocks@[b as int];
        let next = block.successor_ids@[0];
        law_resolve_passes_nothing(ssa, next, (limit - 1) as nat);
        let q = choose|q: Seq<u32>|
            q.len() > 0 && q[0] == next && q.last() == end && forall|i: int|
                0 <= i < q.len() - 1 ==> #[trigger] handed(ssa, q, i);
        let w = seq![b] + q;
        assert(hands_on(block)) by {
            assert forall|i: int| 0 <= i < block.ops@.len() implies (match (#[trigger] block.ops@[i]).kind {
                SsaOpKind::Pcode(p) => match p {
                    PcodeOp::Store { .. } => false,
                    PcodeOp::CBranch { .. } => false,
                    PcodeOp::BranchInd { .. } => false,
                    PcodeOp::Call { .. } => false,
                    PcodeOp::CallInd { .. } => false,
                    PcodeOp::Return { .. } => false,
                    _ => true,
                },
                SsaOpKind::Phi(_) => true,
            }) by {
                let op = block.ops@[i];
                assert(!crate::structure::cfg_norm::busy_op(op));
                assert(!crate::normalize::is_return_op(op));
            }
        }
        assert forall|i: int| 0 <= i < w.len() - 1 implies #[trigger] handed(ssa, w, i) by {
            if i > 0 {
                assert(handed(ssa, q, i - 1));
                assert(w[i] == q[i - 1] && w[i + 1] == q[i]);
            } else {
                assert(w[1] == q[0]);
            }
        }
        assert(w[0] == b && w.last() == end);
    }
}

/// The arms of a block are where its branch goes.
proof fn lemma_arms(ssa: SsaFunction, b: int, collapse: bool)
    requires
        0 <= b < ssa.blocks@.len(),
    ensures
        match arms_of(ssa, b, collapse) {
            Some((fall, taken)) => {
                &&& tests(ssa.blocks@[b])
                &&& arrives(ssa, collapse, goes_to(ssa.blocks@[b], false), fall)
                &&& arrives(ssa, collapse, goes_to(ssa.blocks@[b], true), taken)
            },
            None => !tests(ssa.blocks@[b]),
        },
{
    let block = ssa.blocks@[b];
    if let Some((fall, taken)) = arms_of(ssa, b, collapse) {
        law_resolve_passes_nothing(ssa, goes_to(block, false), JUMP_LIMIT as nat);
        law_resolve_passes_nothing(ssa, goes_to(block, true), JUMP_LIMIT as nat);
        let i = choose|i: int|
            0 <= i < block.ops@.len() && crate::normalize::is_cbranch_op(#[trigger] block.ops@[i]);
        assert(block.ops@[i].kind matches SsaOpKind::Pcode(PcodeOp::CBranch { .. }));
    } else if tests(block) {
        let i = choose|i: int|
            0 <= i < block.ops@.len() && ((#[trigger] block.ops@[i]).kind matches SsaOpKind::Pcode(
                PcodeOp::CBranch { .. },
            ));
        assert(crate::normalize::is_cbranch_op(block.ops@[i]));
    }
}

// ─── Regions ────────────────────────────────────────────────────────────────

/// Whether the condition holds for the arm that is printed first: it is printed negated
/// if `invert` is set.
pub open spec fn shown(holds: bool, invert: bool) -> bool {
    holds != invert
}

/// Where the branch of block `b` goes if its printed condition is `x`.
pub open spec fn way(ssa: SsaFunction, b: int, invert: bool, x: bool) -> u32 {
    goes_to(ssa.blocks@[b], x != invert)
}

/// An arm that is left out: it is the merge, or no block.
pub open spec fn left_out(ssa: SsaFunction, arm: u32, merge: u32) -> bool {
    arm == merge || arm >= ssa.blocks@.len()
}

/// The ways out of block `b` come together at `merge`: at its immediate post-dominator,
/// or at no block where it has none.
pub open spec fn joins(f: Flow, b: int, merge: u32) -> bool {
    match f.ipdom[b] {
        Some(m) => merge == m,
        None => merge >= f.succ.len(),
    }
}

/// Control goes from the branch in block `b` back to `back` on one outcome of its
/// condition, and to `out` on the other.
pub open spec fn splits(ssa: SsaFunction, b: int, collapse: bool, back: u32, out: u32) -> bool {
    &&& tests(ssa.blocks@[b])
    &&& exists|holds: bool| #[trigger]
        arrives(ssa, collapse, goes_to(ssa.blocks@[b], holds), back) && arrives(
            ssa,
            collapse,
            goes_to(ssa.blocks@[b], !holds),
            out,
        )
}

/// The cases are those of the last table that is given for the block, or else its
/// successors, numbered from zero.
pub open spec fn tabled(switches: Seq<SwitchInfo>, block: SsaBlock, cases: Seq<(i64, u32)>) -> bool {
    ||| exists|j: int|
        0 <= j < switches.len() && (#[trigger] switches[j]).branch_va == block.entry_va && cases == switches[j].cases@
            && forall|k: int| j < k < switches.len() ==> (#[trigger] switches[k]).branch_va != block.entry_va
    ||| {
        &&& forall|k: int| 0 <= k < switches.len() ==> (#[trigger] switches[k]).branch_va != block.entry_va
        &&& cases.len() == block.successor_ids@.len()
        &&& forall|k: int| 0 <= k < cases.len() ==> #[trigger] cases[k] == (k as i64, block.successor_ids@[k])
    }
}

proof fn lemma_table(switches: Seq<SwitchInfo>, va: u64, n: int)
    requires
        0 <= n <= switches.len(),
    ensures
        match table_for(switches, va, n) {
            Some(cases) => exists|j: int|
                0 <= j < n && (#[trigger] switches[j]).branch_va == va && cases == switches[j].cases@ && forall|k: int|
                    j < k < n ==> (#[trigger] switches[k]).branch_va != va,
            None => forall|k: int| 0 <= k < n ==> (#[trigger] switches[k]).branch_va != va,
        },
    decreases n,
{
    if n > 0 {
        lemma_table(switches, va, n - 1);
        if switches[n - 1].branch_va == va {
            assert(switches[n - 1].cases@ == table_for(switches, va, n)->0);
        } else if table_for(switches, va, n - 1) is Some {
            let j = choose|j: int|
                0 <= j < n - 1 && (#[trigger] switches[j]).branch_va == va && table_for(switches, va, n - 1)->0
                    == switches[j].cases@ && forall|k: int| j < k < n - 1 ==> (#[trigger] switches[k]).branch_va != va;
            assert(switches[j].branch_va == va);
        }
    }
}

/// Some operation of the block is a return.
pub open spec fn leaves(block: SsaBlock) -> bool {
    exists|i: int|
        0 <= i < block.ops@.len() && ((#[trigger] block.ops@[i]).kind matches SsaOpKind::Pcode(PcodeOp::Return { .. }))
}

/// Some operation of the block is a computed jump.
pub open spec fn jumps_by_table(block: SsaBlock) -> bool {
    exists|i: int|
        0 <= i < block.ops@.len() && ((#[trigger] block.ops@[i]).kind matches SsaOpKind::Pcode(
            PcodeOp::BranchInd { .. },
        ))
}

proof fn lemma_kinds(block: SsaBlock)
    ensures
        crate::normalize::has_return(block) == leaves(block),
        crate::normalize::has_branch_ind(block) == jumps_by_table(block),
{
    if crate::normalize::has_return(block) {
        let i = choose|i: int| 0 <= i < block.ops@.len() && crate::normalize::is_return_op(#[trigger] block.ops@[i]);
        assert(block.ops@[i].kind matches SsaOpKind::Pcode(PcodeOp::Return { .. }));
    }
    if leaves(block) {
        let i = choose|i: int|
            0 <= i < block.ops@.len() && ((#[trigger] block.ops@[i]).kind matches SsaOpKind::Pcode(PcodeOp::Return { .. }));
        assert(crate::normalize::is_return_op(block.ops@[i]));
    }
    if crate::normalize::has_branch_ind(block) {
        let i = choose|i: int|
            0 <= i < block.ops@.len() && crate::normalize::is_branch_ind_op(#[trigger] block.ops@[i]);
        assert(block.ops@[i].kind matches SsaOpKind::Pcode(PcodeOp::BranchInd { .. }));
    }
    if jumps_by_table(block) {
        let i = choose|i: int|
            0 <= i < block.ops@.len() && ((#[trigger] block.ops@[i]).kind matches SsaOpKind::Pcode(
                PcodeOp::BranchInd { .. },
            ));
        assert(crate::normalize::is_branch_ind_op(block.ops@[i]));
    }
}

/// The region of a block says where control goes. The arm that is printed under the
/// condition, negated if `invert` is set, is where control goes when that is true, and the
/// other arm, or the merge, is where it goes when not. A loop is a branch that goes to
/// the body on one outcome and to the exit on the other. A switch is a computed jump with
/// its table, and a return region returns.
pub open spec fn truly(ssa: SsaFunction, switches: Seq<SwitchInfo>, f: Flow, b: int, collapse: bool, r: RegionView) -> bool {
    let block = ssa.blocks@[b];
    match r {
        RegionView::If { body_entry, merge, invert } => {
            &&& tests(block)
            &&& arrives(ssa, collapse, way(ssa, b, invert, true), body_entry)
            &&& exists|arm: u32| #[trigger]
                arrives(ssa, collapse, way(ssa, b, invert, false), arm) && left_out(ssa, arm, merge)
            &&& body_entry != merge
            &&& joins(f, b, merge)
        },
        RegionView::IfElse { then_entry, else_entry, merge, invert } => {
            &&& tests(block)
            &&& arrives(ssa, collapse, way(ssa, b, invert, true), then_entry)
            &&& arrives(ssa, collapse, way(ssa, b, invert, false), else_entry)
            &&& then_entry != merge
            &&& else_entry != merge
            &&& joins(f, b, merge)
        },
        RegionView::While { body_entry, exit } => {
            &&& splits(ssa, b, collapse, body_entry, exit)
            &&& tree_dominates(b as u32, body_entry, f.idom)
            &&& !tree_dominates(b as u32, exit, f.idom)
        },
        RegionView::DoWhile { body_entry, cond_block, exit } => {
            &&& body_entry == b
            &&& cond_block < ssa.blocks@.len()
            &&& splits(ssa, cond_block as int, collapse, body_entry, exit)
            &&& cond_block != b ==> f.succ[cond_block as int].contains(b as u32) && tree_dominates(
                b as u32,
                cond_block,
                f.idom,
            )
        },
        RegionView::Switch { cases, merge } => {
            &&& jumps_by_table(block)
            &&& block.successor_ids@.len() >= 2
            &&& tabled(switches, block, cases)
            &&& joins(f, b, merge)
        },
        RegionView::Return => leaves(block),
        RegionView::IfThenFallthrough { .. } => false,
    }
}

proof fn lemma_bottom(ssa: SsaFunction, f: Flow, h: u32, l: int, collapse: bool)
    requires
        f.succ.len() == ssa.blocks@.len() <= u32::MAX,
        0 <= l,
    ensures
        bottom_tested(ssa, f, h, l, collapse) matches Some(r) ==> (r matches RegionView::DoWhile {
            body_entry,
            cond_block,
            exit,
        } && body_entry == h && cond_block < ssa.blocks@.len() && splits(
            ssa,
            cond_block as int,
            collapse,
            body_entry,
            exit,
        ) && f.succ[cond_block as int].contains(h) && tree_dominates(h, cond_block, f.idom)),
        bottom_tested(ssa, f, h, l, collapse) is None ==> forall|k: int|
            l <= k < f.succ.len() ==> #[trigger] latch_exit(ssa, f, h, k, collapse) is None,
    decreases f.succ.len() - l,
{
    if l < f.succ.len() {
        lemma_arms(ssa, l, collapse);
        lemma_bottom(ssa, f, h, l + 1, collapse);
        if let Some(exit) = latch_exit(ssa, f, h, l, collapse) {
            let (fall, taken) = arms_of(ssa, l, collapse)->0;
            if fall == h {
                assert(arrives(ssa, collapse, goes_to(ssa.blocks@[l], false), h));
                assert(arrives(ssa, collapse, goes_to(ssa.blocks@[l], !false), exit));
            } else {
                assert(arrives(ssa, collapse, goes_to(ssa.blocks@[l], true), h));
                assert(arrives(ssa, collapse, goes_to(ssa.blocks@[l], !true), exit));
            }
            assert(splits(ssa, l, collapse, h, exit));
        }
    }
}

proof fn lemma_loop(ssa: SsaFunction, switches: Seq<SwitchInfo>, f: Flow, h: u32, collapse: bool)
    requires
        f.succ.len() == ssa.blocks@.len() <= u32::MAX,
        h < ssa.blocks@.len(),
        loop_region(ssa, f, h, collapse) is Some,
    ensures
        truly(ssa, switches, f, h as int, collapse, loop_region(ssa, f, h, collapse)->0),
{
    lemma_arms(ssa, h as int, collapse);
    lemma_bottom(ssa, f, h, 0, collapse);
    let block = ssa.blocks@[h as int];
    if let Some((fall, taken)) = arms_of(ssa, h as int, collapse) {
        assert(arrives(ssa, collapse, goes_to(block, false), fall) && arrives(
            ssa,
            collapse,
            goes_to(block, !false),
            taken,
        ));
        assert(arrives(ssa, collapse, goes_to(block, true), taken) && arrives(
            ssa,
            collapse,
            goes_to(block, !true),
            fall,
        ));
        assert(splits(ssa, h as int, collapse, fall, taken));
        assert(splits(ssa, h as int, collapse, taken, fall));
    }
}

/// Every region that classification gives says truly where control goes, and a block that
/// it leaves without one neither returns nor branches in a way that has a body.
pub proof fn law_regions_are_true(ssa: SsaFunction, switches: Seq<SwitchInfo>, f: Flow, b: int, collapse: bool)
    requires
        f.succ.len() == ssa.blocks@.len() <= u32::MAX,
        0 <= b < ssa.blocks@.len(),
    ensures
        match region_at(ssa, switches, f, b, collapse) {
            Some(r) => truly(ssa, switches, f, b, collapse, r),
            None => {
                &&& !leaves(ssa.blocks@[b])
                &&& !(jumps_by_table(ssa.blocks@[b]) && ssa.blocks@[b].successor_ids@.len() >= 2)
                &&& tests(ssa.blocks@[b]) ==> exists|m: u32, x: u32, y: u32|
                    #![trigger left_out(ssa, x, m), left_out(ssa, y, m)]
                    left_out(ssa, x, m) && left_out(ssa, y, m) && arrives(
                        ssa,
                        collapse,
                        goes_to(ssa.blocks@[b], true),
                        x,
                    ) && arrives(ssa, collapse, goes_to(ssa.blocks@[b], false), y)
            },
        },
{
    let block = ssa.blocks@[b];
    lemma_arms(ssa, b, collapse);
    lemma_kinds(block);
    lemma_table(switches, block.entry_va, switches.len() as int);
    let m = crate::structure::region::merge_of(f, b);
    assert(joins(f, b, m));
    assert(tabled(switches, block, cases_of(switches, block)));
    if loop_region(ssa, f, b as u32, collapse) is Some {
        lemma_loop(ssa, switches, f, b as u32, collapse);
    }
    if let Some((fall, taken)) = arms_of(ssa, b, collapse) {
        assert(way(ssa, b, false, true) == goes_to(block, true));
        assert(way(ssa, b, true, true) == goes_to(block, false));
        assert(arrives(ssa, collapse, way(ssa, b, false, false), fall));
        assert(arrives(ssa, collapse, way(ssa, b, true, false), taken));
        assert(left_out(ssa, taken, m) == !crate::structure::region::has_body(f, taken, m));
        assert(left_out(ssa, fall, m) == !crate::structure::region::has_body(f, fall, m));
    }
    if loop_region(ssa, f, b as u32, collapse) is None || !heads_loop(f, b as u32) {
        if let Some(RegionView::If { body_entry, merge, invert }) = region_at(ssa, switches, f, b, collapse) {
            let (fall, taken) = arms_of(ssa, b, collapse)->0;
            let arm = if invert {
                taken
            } else {
                fall
            };
            assert(arrives(ssa, collapse, way(ssa, b, invert, false), arm));
            assert(left_out(ssa, arm, merge));
        }
    }
}

/// Where the branch of block `b` leads if its condition is `holds`.
pub open spec fn leads_to(ssa: SsaFunction, b: int, collapse: bool, holds: bool) -> u32 {
    if collapse {
        resolve(ssa, goes_to(ssa.blocks@[b], holds), JUMP_LIMIT as nat)
    } else {
        goes_to(ssa.blocks@[b], holds)
    }
}

/// Every block of `regions` has a region that is true, and only blocks have one.
pub proof fn law_classified_regions(ssa: SsaFunction, switches: Seq<SwitchInfo>, f: Flow, collapse: bool, regions: Map<u32, Region>, b: u32)
    requires
        classified(ssa, switches, f, collapse, regions),
        f.succ.len() == ssa.blocks@.len() <= u32::MAX,
        regions.dom().contains(b),
    ensures
        b < ssa.blocks@.len(),
        truly(ssa, switches, f, b as int, collapse, regions[b]@),
{
    law_regions_are_true(ssa, switches, f, b as int, collapse);
}

/// Every loop with a test is found. A block that heads a loop and tests gets a loop region
/// if one of its ways leads back to it, or one stays under it and the other does not;
/// and one that has no such test gets one if a latch tests.
pub proof fn law_loops_are_found(ssa: SsaFunction, switches: Seq<SwitchInfo>, f: Flow, b: u32, l: int, collapse: bool)
    requires
        f.succ.len() == ssa.blocks@.len() <= u32::MAX,
        b < ssa.blocks@.len(),
        0 <= l < ssa.blocks@.len(),
        f.succ[l].contains(b),
        tree_dominates(b, l as u32, f.idom),
    ensures
        forall|holds: bool|
            #![trigger leads_to(ssa, b as int, collapse, holds)]
            tests(ssa.blocks@[b as int]) ==> {
                let here = leads_to(ssa, b as int, collapse, holds);
                let there = leads_to(ssa, b as int, collapse, !holds);
                let r = region_at(ssa, switches, f, b as int, collapse);
                &&& here == b && there != b ==> r == Some(
                    RegionView::DoWhile { body_entry: b, cond_block: b, exit: there },
                )
                &&& here != b && there != b && tree_dominates(b, here, f.idom) && !tree_dominates(
                    b,
                    there,
                    f.idom,
                ) ==> r == Some(RegionView::While { body_entry: here, exit: there })
            },
        l != b && tests(ssa.blocks@[l]) && (leads_to(ssa, l, collapse, true) == b || leads_to(ssa, l, collapse, false)
            == b) ==> (region_at(ssa, switches, f, b as int, collapse) matches Some(r) && (r is While || r is DoWhile)),
{
    lemma_arms(ssa, b as int, collapse);
    lemma_arms(ssa, l, collapse);
    lemma_bottom(ssa, f, b, 0, collapse);
    assert(latches(f, l, b));
    assert(heads_loop(f, b));
    if arms_of(ssa, b as int, collapse) is Some {
        let (fall, taken) = arms_of(ssa, b as int, collapse)->0;
        assert(fall == leads_to(ssa, b as int, collapse, false));
        assert(taken == leads_to(ssa, b as int, collapse, true));
    }
    if tests(ssa.blocks@[l]) {
        let (fall, taken) = arms_of(ssa, l, collapse)->0;
        assert(fall == leads_to(ssa, l, collapse, false));
        assert(taken == leads_to(ssa, l, collapse, true));
        assert(latch_exit(ssa, f, b, l, collapse) is None || latch_exit(ssa, f, b, l, collapse) is Some);
    }
}

/// The body of a top-tested loop can only be reached through its test, and its exit can be
/// reached without: the test dominates the one and not the other.
pub proof fn law_loop_test_dominates(ssa: SsaFunction, switches: Seq<SwitchInfo>, f: Flow, b: int, collapse: bool, body: u32, exit: u32)
    requires
        f.succ.len() == ssa.blocks@.len() < u32::MAX,
        idom_tree(f.succ, 0, f.idom),
        0 <= b < ssa.blocks@.len(),
        region_at(ssa, switches, f, b, collapse) == Some(RegionView::While { body_entry: body, exit }),
        body < ssa.blocks@.len(),
        reaches(f.succ, 0, body, None),
        exit < ssa.blocks@.len(),
        reaches(f.succ, 0, exit, None),
    ensures
        dominates(f.succ, 0, b as u32, body),
        !dominates(f.succ, 0, b as u32, exit),
{
    law_regions_are_true(ssa, switches, f, b, collapse);
    law_tree_dominance(f.succ, 0, f.idom, b as u32, body);
    law_tree_dominance(f.succ, 0, f.idom, b as u32, exit);
}

// ─── Printed conditions ─────────────────────────────────────────────────────

/// What the text `t` says where the condition `c` is `holds`: the same if it is the
/// condition, the opposite if it is the condition behind `!`.
pub open spec fn says(t: Seq<char>, c: Seq<char>, holds: bool) -> Option<bool> {
    if t == c {
        Some(holds)
    } else if t == "!("@ + c + ")"@ {
        Some(!holds)
    } else {
        None
    }
}

proof fn lemma_oriented(c: Seq<char>, invert: bool, holds: bool)
    ensures
        says(oriented(c, invert), c, holds) == Some(holds != invert),
{
    reveal_strlit("!(");
    reveal_strlit(")");
    let n = "!("@ + c + ")"@;
    assert(n.len() == c.len() + 3);
}

/// The condition that is printed for a loop is true exactly if control stays in it: where
/// one way out of the test leads to the body and the other does not.
pub proof fn law_loop_conditions(sc: Scene, b: u32, body: u32, holds: bool)
    requires
        b < sc.ssa.blocks@.len(),
        tests(sc.ssa.blocks@[b as int]),
        goes_to(sc.ssa.blocks@[b as int], true) == body || goes_to(sc.ssa.blocks@[b as int], false) == body,
        goes_to(sc.ssa.blocks@[b as int], true) != goes_to(sc.ssa.blocks@[b as int], false),
    ensures
        says(while_text(sc, b, body), cond_or_mark(sc, b), holds) == Some(
            goes_to(sc.ssa.blocks@[b as int], holds) == body,
        ),
        says(do_while_text(sc, b, body), cond_or_mark(sc, b), holds) == Some(
            goes_to(sc.ssa.blocks@[b as int], holds) == body,
        ),
{
    lemma_arms(sc.ssa, b as int, false);
    let (fall, taken) = arms_of(sc.ssa, b as int, false)->0;
    lemma_oriented(cond_or_mark(sc, b), fall == body, holds);
    lemma_oriented(cond_or_mark(sc, b), fall == body && taken != body, holds);
}

/// The condition of a block is what its first conditional branch tests.
pub proof fn law_condition_is_tested(sc: Scene, b: u32, i: int)
    requires
        b < sc.ssa.blocks@.len(),
        0 <= i < sc.ssa.blocks@[b as int].ops@.len(),
        sc.ssa.blocks@[b as int].ops@[i].kind matches SsaOpKind::Pcode(PcodeOp::CBranch { .. }),
        forall|j: int|
            0 <= j < i ==> !((#[trigger] sc.ssa.blocks@[b as int].ops@[j]).kind matches SsaOpKind::Pcode(
                PcodeOp::CBranch { .. },
            )),
    ensures
        ({
            let op = sc.ssa.blocks@[b as int].ops@[i];
            op.kind matches SsaOpKind::Pcode(PcodeOp::CBranch { cond, .. }) && block_cond(sc, b) == Some(
                simplified(
                    crate::structure::expr::operand_text(cond, op.uses@, sc.inline, sc.names, op.va),
                ),
            )
        }),
{
    lemma_cond_from(sc, sc.ssa.blocks@[b as int].ops@, 0, i);
}

proof fn lemma_cond_from(sc: Scene, ops: Seq<crate::ssa::SsaOp>, k: int, i: int)
    requires
        0 <= k <= i < ops.len(),
        forall|j: int|
            k <= j < i ==> !((#[trigger] ops[j]).kind matches SsaOpKind::Pcode(PcodeOp::CBranch { .. })),
    ensures
        cond_from(sc, ops, k) == cond_from(sc, ops, i),
    decreases i - k,
{
    if k < i {
        assert(!(ops[k].kind matches SsaOpKind::Pcode(PcodeOp::CBranch { .. })));
        lemma_cond_from(sc, ops, k + 1, i);
    }
}

/// What is printed for a top-tested loop: its condition, the body under it, up to the test,
/// and then what follows the exit.
#[verifier::rlimit(60)]
pub proof fn law_loop_is_printed(sc: Scene, p: Page, b: u32, body: u32, exit: u32, indent: int, loops: Seq<LoopFrame>)
    requires
        b < sc.ssa.blocks@.len(),
        body != b,
    ensures
        ({
            let r = structured(sc, p, b, RegionView::While { body_entry: body, exit }, indent, loops);
            let p1 = say(p, pad(indent) + "while ("@ + while_text(sc, b, body) + ") {\n"@);
            &&& r.0 == say(
                region(sc, p1, body, b, indent + 1, loops.push(LoopFrame { header: b, exit })),
                pad(indent) + "}\n"@,
            )
            &&& exit < sc.ssa.blocks@.len() && exit != sc.ve ==> r.1 == Some(exit)
            &&& exit >= sc.ssa.blocks@.len() ==> r.1 is None
        }),
{
}

/// What is printed for a two-way branch: a line with a condition that is true exactly if
/// control goes to the first arm, that arm under it, and the other arm under `else`.
pub proof fn law_branch_is_printed(sc: Scene, p: Page, b: u32, r: RegionView, indent: int, loops: Seq<LoopFrame>, holds: bool)
    requires
        r is If || r is IfElse || r is IfThenFallthrough,
        b < sc.ssa.blocks@.len(),
    ensures
        match r {
            RegionView::If { body_entry, merge, invert } => {
                let t = oriented(cond_or_mark(sc, b), invert);
                let p1 = say(p, pad(indent) + "if ("@ + t + ") {\n"@);
                &&& says(t, cond_or_mark(sc, b), holds) == Some(shown(holds, invert))
                &&& body_entry != merge ==> structured(sc, p, b, r, indent, loops).0 == say(
                    region(sc, p1, body_entry, merge, indent + 1, loops),
                    pad(indent) + "}\n"@,
                )
            },
            RegionView::IfElse { then_entry, else_entry, merge, invert } => {
                let t = oriented(cond_or_mark(sc, b), invert);
                let p1 = say(p, pad(indent) + "if ("@ + t + ") {\n"@);
                let p2 = region(sc, p1, then_entry, merge, indent + 1, loops);
                let p3 = say(kept(sc, p, p2), pad(indent) + "} else {\n"@);
                &&& says(t, cond_or_mark(sc, b), holds) == Some(shown(holds, invert))
                &&& then_entry != merge && else_entry != merge ==> structured(sc, p, b, r, indent, loops).0 == say(
                    region(sc, p3, else_entry, merge, indent + 1, loops),
                    pad(indent) + "}\n"@,
                )
            },
            RegionView::IfThenFallthrough { then_entry, cont_entry, merge, invert } => {
                let t = oriented(cond_or_mark(sc, b), invert);
                let p1 = say(p, pad(indent) + "if ("@ + t + ") {\n"@);
                let p2 = region(sc, p1, then_entry, merge, indent + 1, loops);
                let p3 = say(kept(sc, p, p2), pad(indent) + "}\n"@);
                &&& says(t, cond_or_mark(sc, b), holds) == Some(shown(holds, invert))
                &&& then_entry != merge && cont_entry != merge && !p3.emitted.contains(cont_entry) ==> structured(
                    sc,
                    p,
                    b,
                    r,
                    indent,
                    loops,
                ).0 == region(sc, p3, cont_entry, merge, indent, loops)
            },
            _ => true,
        },
{
    match r {
        RegionView::If { invert, .. } => {
            lemma_oriented(cond_or_mark(sc, b), invert, holds);
        },
        RegionView::IfElse { invert, .. } => {
            lemma_oriented(cond_or_mark(sc, b), invert, holds);
        },
        RegionView::IfThenFallthrough { invert, .. } => {
            lemma_oriented(cond_or_mark(sc, b), invert, holds);
        },
        _ => {},
    }
}

} // verus!
