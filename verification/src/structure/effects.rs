//! What a block does to the world, and what rewriting may do with it.

use vstd::prelude::*;
use pcode_ir::PcodeOp;
use crate::graph::rows;
use crate::ssa::{SsaBlock, SsaFunction, SsaOp, SsaOpKind};
use crate::structure::rd_model::{block_effects, criticals, effects_of, kinds_of, keeps, keeps_any, presented, residual_cost, target, tied_down, unrepeatable, DualDecompModel, Effect, EffectKind, SemanticGraph};
use crate::structure::cfg_norm::{resolve, JUMP_LIMIT};
use crate::structure::polarity::{comes_to, law_resolve_passes_nothing};
use crate::structure::region::{Region, RegionView};
use crate::structure::rewrite::{outcome_of, rejection, rewritten, OutcomeView, RewriteMove};

verus! {

/// The operation calls, directly or not.
pub open spec fn calls_out(op: SsaOp) -> bool {
    op.kind matches SsaOpKind::Pcode(p) && (p matches PcodeOp::Call { .. } || p matches PcodeOp::CallInd { .. })
}

/// The operation writes memory.
pub open spec fn writes_memory(op: SsaOp) -> bool {
    op.kind matches SsaOpKind::Pcode(PcodeOp::Store { .. })
}

/// The operation returns.
pub open spec fn goes_back(op: SsaOp) -> bool {
    op.kind matches SsaOpKind::Pcode(PcodeOp::Return { .. })
}

/// The effect says what the operation does.
pub open spec fn tells(op: SsaOp, e: Effect, b: u32) -> bool {
    &&& e.block == b
    &&& match e.kind {
        EffectKind::Call { target_hint } => calls_out(op) && target_hint is None,
        EffectKind::Store => writes_memory(op),
        EffectKind::Return => goes_back(op),
        _ => false,
    }
}

/// `at` gives the operation of every effect, in order, and leaves out no operation that
/// calls, stores or returns.
pub open spec fn told(b: u32, ops: Seq<SsaOp>, n: int, e: Seq<Effect>, at: Seq<int>) -> bool {
    &&& at.len() == e.len()
    &&& forall|k: int| 0 <= k < at.len() ==> 0 <= #[trigger] at[k] < n && tells(ops[at[k]], e[k], b)
    &&& forall|j: int, k: int| 0 <= j < k < at.len() ==> #[trigger] at[j] < #[trigger] at[k]
    &&& forall|i: int|
        0 <= i < n && (calls_out(#[trigger] ops[i]) || writes_memory(ops[i]) || goes_back(ops[i])) ==> at.contains(i)
}

proof fn lemma_told(b: u32, ops: Seq<SsaOp>, n: int) -> (at: Seq<int>)
    requires
        0 <= n <= ops.len(),
    ensures
        told(b, ops, n, effects_of(b, ops, n), at),
    decreases n,
{
    if n <= 0 {
        Seq::empty()
    } else {
        let less = lemma_told(b, ops, n - 1);
        let e = effects_of(b, ops, n);
        let at = if e.len() > effects_of(b, ops, n - 1).len() {
            less.push(n - 1)
        } else {
            less
        };
        assert forall|i: int|
            0 <= i < n && (calls_out(#[trigger] ops[i]) || writes_memory(ops[i]) || goes_back(ops[i])) implies at.contains(
            i,
        ) by {
            if i < n - 1 {
                assert(less.contains(i));
                let k = choose|k: int| 0 <= k < less.len() && less[k] == i;
                assert(at[k] == i);
            } else {
                assert(at[at.len() - 1] == i);
            }
        }
        at
    }
}

/// The effects of a block are its calls, its stores and its returns, each once and in order.
pub proof fn law_effects_are_told(ssa: SsaFunction, b: u32)
    requires
        b < ssa.blocks@.len(),
    ensures
        exists|at: Seq<int>| #[trigger]
            told(b, ssa.blocks@[b as int].ops@, ssa.blocks@[b as int].ops@.len() as int, block_effects(ssa, b), at),
{
    let ops = ssa.blocks@[b as int].ops@;
    let at = lemma_told(b, ops, ops.len() as int);
    assert(told(b, ops, ops.len() as int, block_effects(ssa, b), at));
}

/// No operation of the block calls or stores.
pub open spec fn harmless(block: SsaBlock) -> bool {
    forall|i: int| 0 <= i < block.ops@.len() ==> !calls_out(#[trigger] block.ops@[i]) && !writes_memory(block.ops@[i])
}

/// Some operation of the block returns.
pub open spec fn returning(block: SsaBlock) -> bool {
    exists|i: int| 0 <= i < block.ops@.len() && goes_back(#[trigger] block.ops@[i])
}

proof fn lemma_kinds(sem: SemanticGraph, ssa: SsaFunction, b: u32)
    requires
        sem.describes(ssa),
        b < ssa.blocks@.len(),
    ensures
        kinds_of(sem.effects@, b) == Seq::new(block_effects(ssa, b).len(), |i: int| block_effects(ssa, b)[i].kind),
{
    assert(kinds_of(sem.effects@, b) =~= Seq::new(block_effects(ssa, b).len(), |i: int| block_effects(ssa, b)[i].kind));
}

/// Only a block that neither calls nor stores may be printed twice.
pub proof fn law_only_harmless_blocks_repeat(dual: DualDecompModel, ssa: SsaFunction, block: u32)
    requires
        dual.semantic.describes(ssa),
        block < ssa.blocks@.len(),
    ensures
        rejection(dual, RewriteMove::DuplicatePureBlock { block }) is None <==> harmless(ssa.blocks@[block as int]),
{
    let ops = ssa.blocks@[block as int].ops@;
    let e = block_effects(ssa, block);
    let k = kinds_of(dual.semantic.effects@, block);
    lemma_kinds(dual.semantic, ssa, block);
    let at = lemma_told(block, ops, ops.len() as int);
    if rejection(dual, RewriteMove::DuplicatePureBlock { block }) is None {
        assert(!tied_down(k));
        assert forall|i: int| 0 <= i < ops.len() implies !calls_out(#[trigger] ops[i]) && !writes_memory(ops[i]) by {
            if calls_out(ops[i]) || writes_memory(ops[i]) {
                assert(at.contains(i));
                let j = choose|j: int| 0 <= j < at.len() && at[j] == i;
                assert(tells(ops[at[j]], e[j], block));
                assert(k[j] == e[j].kind);
                assert(unrepeatable(k[j]));
            }
        }
    } else {
        assert(tied_down(k));
        let j = choose|j: int| 0 <= j < k.len() && unrepeatable(#[trigger] k[j]);
        assert(k[j] == e[j].kind);
        assert(tells(ops[at[j]], e[j], block));
    }
}

/// A return that is printed early is all that its arm does: the arm returns, and neither
/// calls nor stores.
pub proof fn law_early_returns_only_return(sem: SemanticGraph, ssa: SsaFunction, header: u32, r: RegionView)
    requires
        sem.describes(ssa),
        r matches RegionView::IfElse { then_entry, else_entry, .. } && then_entry < ssa.blocks@.len() && else_entry
            < ssa.blocks@.len(),
    ensures
        rewritten(sem.effects@, RewriteMove::EarlyReturnExtract { header }, r) matches RegionView::IfThenFallthrough {
            then_entry,
            ..
        } ==> then_entry < ssa.blocks@.len() && returning(ssa.blocks@[then_entry as int]) && harmless(
            ssa.blocks@[then_entry as int],
        ),
{
    if let RegionView::IfThenFallthrough { then_entry, .. } = rewritten(
        sem.effects@,
        RewriteMove::EarlyReturnExtract { header },
        r,
    ) {
        let ops = ssa.blocks@[then_entry as int].ops@;
        let e = block_effects(ssa, then_entry);
        let k = kinds_of(sem.effects@, then_entry);
        lemma_kinds(sem, ssa, then_entry);
        let at = lemma_told(then_entry, ops, ops.len() as int);
        assert(k.len() > 0);
        assert(k[0] == e[0].kind);
        assert(tells(ops[at[0]], e[0], then_entry));
        assert(goes_back(ops[at[0]]));
        assert forall|i: int| 0 <= i < ops.len() implies !calls_out(#[trigger] ops[i]) && !writes_memory(ops[i]) by {
            if calls_out(ops[i]) || writes_memory(ops[i]) {
                assert(at.contains(i));
                let j = choose|j: int| 0 <= j < at.len() && at[j] == i;
                assert(tells(ops[at[j]], e[j], then_entry));
                assert(k[j] == e[j].kind);
                assert(k[j] is Return);
            }
        }
    }
}

/// A move that is applied never raises the cost, and one that is rejected says why.
pub proof fn law_moves_do_not_cost(dual: DualDecompModel, mv: RewriteMove)
    ensures
        match outcome_of(dual, mv) {
            OutcomeView::Applied { cost_before, cost_after } => cost_before == dual.cost() && cost_after <= cost_before
                && !(mv is DuplicatePureBlock),
            OutcomeView::Rejected(reason) => reason.len() > 0,
        },
{
    reveal_strlit("not_if_else");
    reveal_strlit("no_presentation_gain");
    reveal_strlit("no_pure_return_arm");
    reveal_strlit("cannot_duplicate_effectful_block");
    reveal_strlit("cost_increase");
}

/// The critical effects are those other than volatile accesses: they keep their order, and
/// two lists that agree on them agree on their calls, stores and returns.
pub proof fn law_critical_effects(e: Seq<EffectKind>, n: int)
    requires
        0 <= n <= e.len(),
    ensures
        criticals(e, n) == e.take(n).filter(
            |k: EffectKind|
                match k {
                    EffectKind::VolatileAccess => false,
                    EffectKind::Call { .. } | EffectKind::Store | EffectKind::Return | EffectKind::Throwish | EffectKind::Barrier => true,
                },
        ),
    decreases n,
{
    reveal(Seq::filter);
    if n > 0 {
        law_critical_effects(e, n - 1);
        assert(e.take(n).drop_last() =~= e.take(n - 1));
        assert(e.take(n).last() == e[n - 1]);
    } else {
        assert(e.take(n) =~= Seq::empty());
    }
}

// ─── Presentation ───────────────────────────────────────────────────────────

/// Every edge that is presented is one that control takes, over blocks that do nothing, and
/// every block that goes somewhere is presented as going somewhere.
pub proof fn law_presented_edges_are_taken(sem: SemanticGraph, ssa: SsaFunction, i: int)
    requires
        sem.describes(ssa),
        0 <= i < ssa.blocks@.len(),
    ensures
        forall|x: u32| #[trigger]
            presented(sem, ssa, i, x) ==> exists|k: int|
                0 <= k < ssa.blocks@[i].successor_ids@.len() && comes_to(
                    ssa,
                    #[trigger] ssa.blocks@[i].successor_ids@[k],
                    x,
                ),
        ssa.blocks@[i].successor_ids@.len() > 0 ==> exists|x: u32| #[trigger] presented(sem, ssa, i, x),
        ssa.blocks@[i].successor_ids@.len() == 1 ==> presented(
            sem,
            ssa,
            i,
            resolve(ssa, ssa.blocks@[i].successor_ids@[0], JUMP_LIMIT as nat),
        ),
{
    let s = ssa.blocks@[i].successor_ids@;
    assert(rows(sem.succ@).len() == sem.succ@.len());
    assert(rows(sem.succ@)[i] == sem.succ@[i]@);
    assert(ssa.succs()[i] == s);
    assert(sem.succ@[i]@ == s);
    assert forall|x: u32| #[trigger] presented(sem, ssa, i, x) implies exists|k: int|
        0 <= k < s.len() && comes_to(ssa, #[trigger] s[k], x) by {
        let k = choose|k: int|
            0 <= k < sem.succ@[i]@.len() && #[trigger] target(sem, ssa, i, k) == x && (keeps(sem, ssa, i, k) || !keeps_any(
                sem,
                ssa,
                i,
            ));
        law_resolve_passes_nothing(ssa, s[k], JUMP_LIMIT as nat);
        assert(comes_to(ssa, s[k], x));
    }
    if s.len() > 0 {
        if keeps_any(sem, ssa, i) {
            let k = choose|k: int| 0 <= k < sem.succ@[i]@.len() && #[trigger] keeps(sem, ssa, i, k);
            assert(presented(sem, ssa, i, target(sem, ssa, i, k)));
        } else {
            assert(presented(sem, ssa, i, target(sem, ssa, i, 0)));
        }
        if s.len() == 1 {
            assert(keeps(sem, ssa, i, 0));
            assert(presented(sem, ssa, i, target(sem, ssa, i, 0)));
        }
    }
}

/// A block costs nothing once it has a region, and less the fewer ways out it has without.
pub proof fn law_regions_cut_the_cost(succ: Seq<Vec<u32>>, regions: Map<u32, Region>, b: u32, r: Region, n: int)
    requires
        0 <= n <= u32::MAX,
    ensures
        residual_cost(succ, regions.insert(b, r), n) <= residual_cost(succ, regions, n),
        b < n && !regions.dom().contains(b) && succ[b as int]@.len() > 0 ==> residual_cost(succ, regions.insert(b, r), n)
            < residual_cost(succ, regions, n),
    decreases n,
{
    if n > 0 {
        law_regions_cut_the_cost(succ, regions, b, r, n - 1);
    }
}

} // verus!
