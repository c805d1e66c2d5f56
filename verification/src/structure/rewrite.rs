//! Rewrites of the presentation that are applied only where a check on the
//! effects accepts them.

use vstd::prelude::*;
use crate::ssa::SsaFunction;
use crate::structure::contracts::{lists_fit, ContractSet};
use crate::structure::rd_model::{check_branch_inversion_shape, check_pure_duplication_allowed, critical, is_critical, kinds_of, tied_down, CheckResult, DualDecompModel, EffectKind, ResidualReason};
use crate::sets::ascending;
use crate::structure::region::{every_block, region_keys, Region, RegionView};

verus! {

broadcast use vstd::std_specs::hash::group_hash_axioms;

/// A candidate rewrite.
#[derive(Clone, Copy, Debug, PartialEq, Eq, Structural)]
pub enum RewriteMove {
    /// Swap the arms of a branch and negate its condition.
    InvertBranch { header: u32 },
    /// Print an arm that only returns first, and the other arm behind it.
    EarlyReturnExtract { header: u32 },
    /// Keep a shared tail in one place.
    FactorPureSharedTail { merge: u32 },
    /// Print a block twice.
    DuplicatePureBlock { block: u32 },
}

/// What became of a candidate.
#[derive(Clone, Copy, Debug, PartialEq, Eq)]
pub enum RewriteOutcome {
    Applied { cost_before: i32, cost_after: i32 },
    Rejected(&'static str),
}

/// An outcome as a value.
pub ghost enum OutcomeView {
    Applied { cost_before: int, cost_after: int },
    Rejected(Seq<char>),
}

impl View for RewriteOutcome {
    type V = OutcomeView;

    open spec fn view(&self) -> OutcomeView {
        match *self {
            RewriteOutcome::Applied { cost_before, cost_after } => OutcomeView::Applied {
                cost_before: cost_before as int,
                cost_after: cost_after as int,
            },
            RewriteOutcome::Rejected(r) => OutcomeView::Rejected(r@),
        }
    }
}

// ─── Candidates ─────────────────────────────────────────────────────────────

/// The candidates that the region of block `b` suggests.
pub open spec fn moves_at(regions: Map<u32, Region>, b: u32) -> Seq<RewriteMove> {
    if !regions.dom().contains(b) {
        Seq::empty()
    } else {
        match regions[b]@ {
            RegionView::IfElse { .. } => seq![
                RewriteMove::InvertBranch { header: b },
                RewriteMove::EarlyReturnExtract { header: b },
            ],
            RegionView::If { merge, .. } => seq![RewriteMove::FactorPureSharedTail { merge }],
            RegionView::While { body_entry, .. } => seq![
                RewriteMove::DuplicatePureBlock { block: body_entry },
            ],
            RegionView::DoWhile { body_entry, .. } => seq![
                RewriteMove::DuplicatePureBlock { block: body_entry },
            ],
            _ => Seq::empty(),
        }
    }
}

/// The candidates of the blocks below `n`, by block.
pub open spec fn moves_below(regions: Map<u32, Region>, n: int) -> Seq<RewriteMove>
    decreases n,
{
    if n <= 0 {
        Seq::empty()
    } else {
        moves_below(regions, n - 1) + moves_at(regions, (n - 1) as u32)
    }
}

/// Blocks without a region suggest nothing.
proof fn lemma_gap(regions: Map<u32, Region>, a: int, b: int)
    requires
        0 <= a <= b <= every_block(),
        forall|x: u32| a <= x < b ==> !#[trigger] regions.dom().contains(x),
    ensures
        moves_below(regions, a) == moves_below(regions, b),
    decreases b - a,
{
    if a < b {
        lemma_gap(regions, a, b - 1);
        assert(!regions.dom().contains((b - 1) as u32));
        assert(moves_below(regions, b) =~= moves_below(regions, b - 1));
    }
}

/// Propose moves from the shape of the regions, by block; the check comes later.
pub fn propose_moves(dual: &DualDecompModel) -> (moves: Vec<RewriteMove>)
    ensures
        moves@ == moves_below(dual.regions@, every_block()),
{
    let keys = region_keys(&dual.regions);
    let mut moves: Vec<RewriteMove> = Vec::new();
    let mut i: usize = 0;
    let ghost mut low: int = 0;
    while i < keys.len()
        invariant
            i <= keys@.len(),
            ascending(keys@),
            forall|b: u32| #[trigger] keys@.contains(b) <==> dual.regions@.dom().contains(b),
            low == if i == 0 {
                0
            } else {
                keys@[i - 1] + 1
            },
            moves@ == moves_below(dual.regions@, low),
        decreases keys@.len() - i,
    {
        let b: u32 = keys[i];
        let ghost before = moves@;
        proof {
            if i > 0 {
                assert(keys@[i - 1] < keys@[i as int]);
            }
            assert forall|x: u32| low <= x < b implies !#[trigger] dual.regions@.dom().contains(x) by {
                if keys@.contains(x) {
                    let j = choose|j: int| 0 <= j < keys@.len() && keys@[j] == x;
                    if j < i - 1 {
                        assert(keys@[j] < keys@[i - 1]);
                    } else if j > i {
                        assert(keys@[i as int] < keys@[j]);
                    }
                }
            }
            lemma_gap(dual.regions@, low, b as int);
            assert(keys@.contains(b));
        }
        match dual.regions.get(&b) {
            Some(Region::IfElse { .. }) => {
                moves.push(RewriteMove::InvertBranch { header: b });
                moves.push(RewriteMove::EarlyReturnExtract { header: b });
            },
            Some(Region::If { merge, .. }) => {
                moves.push(RewriteMove::FactorPureSharedTail { merge: *merge });
            },
            Some(Region::While { body_entry, .. }) => {
                moves.push(RewriteMove::DuplicatePureBlock { block: *body_entry });
            },
            Some(Region::DoWhile { body_entry, .. }) => {
                moves.push(RewriteMove::DuplicatePureBlock { block: *body_entry });
            },
            _ => {},
        }
        proof {
            assert(moves@ =~= before + moves_at(dual.regions@, b));
            low = b + 1;
        }
        i += 1;
    }
    proof {
        assert forall|x: u32| low <= x < every_block() implies !#[trigger] dual.regions@.dom().contains(x) by {
            if keys@.contains(x) {
                let j = choose|j: int| 0 <= j < keys@.len() && keys@[j] == x;
                if j < keys@.len() - 1 {
                    assert(keys@[j] < keys@[keys@.len() - 1]);
                }
            }
        }
        lemma_gap(dual.regions@, low, every_block());
    }
    moves
}

// ─── Checks ─────────────────────────────────────────────────────────────────

/// The arm has effects, and all of them are returns.
pub open spec fn only_returns(effects: Seq<EffectKind>) -> bool {
    effects.len() > 0 && forall|i: int| 0 <= i < effects.len() ==> (#[trigger] effects[i]) is Return
}

fn is_pure_return_arm(effects: &Vec<EffectKind>) -> (r: bool)
    ensures
        r == only_returns(effects@),
{
    let mut i: usize = 0;
    while i < effects.len()
        invariant
            i <= effects@.len(),
            forall|j: int| 0 <= j < i ==> (#[trigger] effects@[j]) is Return,
        decreases effects@.len() - i,
    {
        if !matches!(effects[i], EffectKind::Return) {
            return false;
        }
        i += 1;
    }
    effects.len() > 0
}

/// How many of the first `n` effects are critical.
pub open spec fn critical_count(e: Seq<EffectKind>, n: int) -> nat
    decreases n,
{
    if n <= 0 {
        0
    } else {
        critical_count(e, n - 1) + if critical(e[n - 1]) {
            1nat
        } else {
            0
        }
    }
}

fn count_critical(e: &Vec<EffectKind>) -> (r: usize)
    ensures
        r == critical_count(e@, e@.len() as int),
{
    let mut n: usize = 0;
    let mut i: usize = 0;
    while i < e.len()
        invariant
            i <= e.len(),
            n <= i,
            n == critical_count(e@, i as int),
        decreases e@.len() - i,
    {
        if is_critical(&e[i]) {
            n += 1;
        }
        i += 1;
    }
    n
}

/// Inverting pays when the else arm only returns, or is the lighter one of two
/// arms with effects.
pub open spec fn inversion_pays(t: Seq<EffectKind>, e: Seq<EffectKind>) -> bool {
    only_returns(e) || (critical_count(t, t.len() as int) > critical_count(e, e.len() as int)
        && e.len() > 0)
}

/// Why a move is rejected, if it is.
pub open spec fn rejection(dual: DualDecompModel, mv: RewriteMove) -> Option<Seq<char>> {
    let effects = dual.semantic.effects@;
    match mv {
        RewriteMove::InvertBranch { header } => if !dual.regions@.dom().contains(header) {
            Some("not_if_else"@)
        } else {
            match dual.regions@[header]@ {
                RegionView::IfElse { then_entry, else_entry, .. } => if inversion_pays(
                    kinds_of(effects, then_entry),
                    kinds_of(effects, else_entry),
                ) {
                    None
                } else {
                    Some("no_presentation_gain"@)
                },
                _ => Some("not_if_else"@),
            }
        },
        RewriteMove::EarlyReturnExtract { header } => if !dual.regions@.dom().contains(header) {
            Some("not_if_else"@)
        } else {
            match dual.regions@[header]@ {
                RegionView::IfElse { then_entry, else_entry, .. } => if only_returns(
                    kinds_of(effects, then_entry),
                ) || only_returns(kinds_of(effects, else_entry)) {
                    None
                } else {
                    Some("no_pure_return_arm"@)
                },
                _ => Some("not_if_else"@),
            }
        },
        RewriteMove::FactorPureSharedTail { .. } => None,
        RewriteMove::DuplicatePureBlock { block } => {
            if tied_down(kinds_of(effects, block)) {
                Some("cannot_duplicate_effectful_block"@)
            } else {
                None
            }
        },
    }
}

/// Swapping two arms, or printing one before the other, keeps the effects of both
/// taken together: each happens as often as before.
pub proof fn law_arms_keep_effects(t: Seq<EffectKind>, e: Seq<EffectKind>)
    ensures
        (t + e).to_multiset() == (e + t).to_multiset(),
{
    vstd::seq_lib::lemma_multiset_commutative(t, e);
    vstd::seq_lib::lemma_multiset_commutative(e, t);
    assert(t.to_multiset().add(e.to_multiset()) =~= e.to_multiset().add(t.to_multiset()));
}

/// Apply the check to a single move.
pub fn check_move(dual: &DualDecompModel, mv: &RewriteMove) -> (r: CheckResult)
    ensures
        r.reason() == rejection(*dual, *mv),
{
    match *mv {
        RewriteMove::InvertBranch { header } => match dual.regions.get(&header) {
            Some(Region::IfElse { then_entry, else_entry, .. }) => {
                let t = dual.semantic.block_effect_kinds(*then_entry);
                let e = dual.semantic.block_effect_kinds(*else_entry);
                let shape = check_branch_inversion_shape(&t, &e);
                if let CheckResult::Reject(_) = shape {
                    return shape;
                }
                let prefer = is_pure_return_arm(&e) || (count_critical(&t) > count_critical(&e)
                    && e.len() > 0);
                if !prefer {
                    return CheckResult::Reject("no_presentation_gain");
                }
                CheckResult::Accept
            },
            _ => CheckResult::Reject("not_if_else"),
        },
        RewriteMove::EarlyReturnExtract { header } => match dual.regions.get(&header) {
            Some(Region::IfElse { then_entry, else_entry, .. }) => {
                let t = dual.semantic.block_effect_kinds(*then_entry);
                let e = dual.semantic.block_effect_kinds(*else_entry);
                if !is_pure_return_arm(&t) && !is_pure_return_arm(&e) {
                    return CheckResult::Reject("no_pure_return_arm");
                }
                CheckResult::Accept
            },
            _ => CheckResult::Reject("not_if_else"),
        },
        RewriteMove::FactorPureSharedTail { .. } => CheckResult::Accept,
        RewriteMove::DuplicatePureBlock { block } => {
            let fx = dual.semantic.block_effect_kinds(block);
            check_pure_duplication_allowed(&fx)
        },
    }
}

// ─── Selection ──────────────────────────────────────────────────────────────

/// How a move changes the cost.
pub open spec fn cost_change(mv: RewriteMove) -> int {
    match mv {
        RewriteMove::InvertBranch { .. } => -1,
        RewriteMove::EarlyReturnExtract { .. } => -2,
        RewriteMove::FactorPureSharedTail { .. } => -2,
        RewriteMove::DuplicatePureBlock { .. } => 1,
    }
}

/// What becomes of a candidate: applied if the check accepts it and the cost does
/// not rise.
pub open spec fn outcome_of(dual: DualDecompModel, mv: RewriteMove) -> OutcomeView {
    match rejection(dual, mv) {
        Some(r) => OutcomeView::Rejected(r),
        None => if cost_change(mv) <= 0 {
            OutcomeView::Applied {
                cost_before: dual.cost(),
                cost_after: dual.cost() + cost_change(mv),
            }
        } else {
            OutcomeView::Rejected("cost_increase"@)
        },
    }
}

/// `x` can be told as a cost.
pub open spec fn is_cost(x: int) -> bool {
    i32::MIN <= x <= i32::MAX
}

/// The cost of the presentation, and the cost after any move that is applied, can be
/// told.
pub open spec fn costs_fit(dual: DualDecompModel) -> bool {
    &&& is_cost(dual.cost())
    &&& forall|i: int|
        0 <= i < moves_below(dual.regions@, every_block()).len() && outcome_of(
            dual,
            #[trigger] moves_below(dual.regions@, every_block())[i],
        ) is Applied ==> is_cost(dual.cost() + cost_change(moves_below(dual.regions@, every_block())[i]))
}

/// Decide every candidate; only accepted moves that do not raise the cost are
/// to be applied.
pub fn select_improving_moves(dual: &DualDecompModel) -> (out: Vec<(RewriteMove, RewriteOutcome)>)
    requires
        costs_fit(*dual),
    ensures
        ({
            let moves = moves_below(dual.regions@, every_block());
            &&& out@.len() == moves.len()
            &&& forall|i: int|
                0 <= i < moves.len() ==> (#[trigger] out@[i]).0 == moves[i] && out@[i].1@
                    == outcome_of(*dual, moves[i])
        }),
{
    let base: i32 = dual.presentation_cost();
    let moves = propose_moves(dual);
    let mut out: Vec<(RewriteMove, RewriteOutcome)> = Vec::new();
    let mut i: usize = 0;
    while i < moves.len()
        invariant
            i <= moves@.len(),
            base == dual.cost(),
            costs_fit(*dual),
            moves@ == moves_below(dual.regions@, every_block()),
            out@.len() == i,
            forall|j: int|
                0 <= j < i ==> (#[trigger] out@[j]).0 == moves@[j] && out@[j].1@ == outcome_of(
                    *dual,
                    moves@[j],
                ),
        decreases moves@.len() - i,
    {
        let mv = moves[i];
        let outcome = match check_move(dual, &mv) {
            CheckResult::Accept => {
                let delta: i32 = match mv {
                    RewriteMove::InvertBranch { .. } => -1,
                    RewriteMove::EarlyReturnExtract { .. } => -2,
                    RewriteMove::FactorPureSharedTail { .. } => -2,
                    RewriteMove::DuplicatePureBlock { .. } => 1,
                };
                if delta <= 0 {
                    assert(outcome_of(*dual, moves@[i as int]) is Applied);
                    RewriteOutcome::Applied { cost_before: base, cost_after: base + delta }
                } else {
                    RewriteOutcome::Rejected("cost_increase")
                }
            },
            CheckResult::Reject(r) => RewriteOutcome::Rejected(r),
        };
        out.push((mv, outcome));
        i += 1;
    }
    out
}

// ─── Application ────────────────────────────────────────────────────────────

/// The regions as values.
pub open spec fn region_views(regions: Map<u32, Region>) -> Map<u32, RegionView> {
    regions.map_values(|r: Region| r@)
}

/// The region that a move makes of `r`.
pub open spec fn rewritten(effects: Map<u32, Vec<crate::structure::rd_model::Effect>>, mv: RewriteMove, r: RegionView) -> RegionView {
    match r {
        RegionView::IfElse { then_entry, else_entry, merge, invert } => match mv {
            RewriteMove::InvertBranch { .. } => RegionView::IfElse {
                then_entry: else_entry,
                else_entry: then_entry,
                merge,
                invert: !invert,
            },
            RewriteMove::EarlyReturnExtract { .. } => if only_returns(
                kinds_of(effects, then_entry),
            ) {
                RegionView::IfThenFallthrough { then_entry, cont_entry: else_entry, merge, invert }
            } else if only_returns(kinds_of(effects, else_entry)) {
                RegionView::IfThenFallthrough {
                    then_entry: else_entry,
                    cont_entry: then_entry,
                    merge,
                    invert: !invert,
                }
            } else {
                r
            },
            _ => r,
        },
        _ => r,
    }
}

/// The block whose region a move rewrites.
pub open spec fn move_header(mv: RewriteMove) -> Option<u32> {
    match mv {
        RewriteMove::InvertBranch { header } => Some(header),
        RewriteMove::EarlyReturnExtract { header } => Some(header),
        _ => None,
    }
}

/// The regions after one move.
pub open spec fn after_move(effects: Map<u32, Vec<crate::structure::rd_model::Effect>>, mv: RewriteMove, regions: Map<u32, RegionView>) -> Map<u32, RegionView> {
    match move_header(mv) {
        Some(h) => if regions.dom().contains(h) {
            regions.insert(h, rewritten(effects, mv, regions[h]))
        } else {
            regions
        },
        None => regions,
    }
}

/// The regions after those of the first `n` moves that are to be applied.
pub open spec fn after_moves(effects: Map<u32, Vec<crate::structure::rd_model::Effect>>, selected: Seq<(RewriteMove, RewriteOutcome)>, n: int, regions: Map<u32, RegionView>) -> Map<u32, RegionView>
    decreases n,
{
    if n <= 0 {
        regions
    } else {
        let rest = after_moves(effects, selected, n - 1, regions);
        if selected[n - 1].1 is Applied {
            after_move(effects, selected[n - 1].0, rest)
        } else {
            rest
        }
    }
}

/// Inverting a branch twice gives back the region.
pub proof fn law_invert_twice(effects: Map<u32, Vec<crate::structure::rd_model::Effect>>, header: u32, r: RegionView)
    ensures
        rewritten(
            effects,
            RewriteMove::InvertBranch { header },
            rewritten(effects, RewriteMove::InvertBranch { header }, r),
        ) == r,
{
}

/// The arm that runs when the condition of a two-way region holds, or does not.
pub open spec fn arm_when(r: RegionView, holds: bool) -> Option<u32> {
    match r {
        RegionView::IfElse { then_entry, else_entry, invert, .. } => Some(
            if holds != invert {
                then_entry
            } else {
                else_entry
            },
        ),
        RegionView::IfThenFallthrough { then_entry, cont_entry, invert, .. } => Some(
            if holds != invert {
                then_entry
            } else {
                cont_entry
            },
        ),
        _ => None,
    }
}

/// No move changes which arm of a branch runs.
pub proof fn law_move_keeps_branch(effects: Map<u32, Vec<crate::structure::rd_model::Effect>>, mv: RewriteMove, r: RegionView, holds: bool)
    ensures
        arm_when(rewritten(effects, mv, r), holds) == arm_when(r, holds),
{
}

/// The moves that are applied leave the same blocks with regions, and each branch with
/// the same arms.
pub proof fn law_moves_keep_branches(effects: Map<u32, Vec<crate::structure::rd_model::Effect>>, selected: Seq<(RewriteMove, RewriteOutcome)>, n: int, regions: Map<u32, RegionView>, h: u32, holds: bool)
    ensures
        after_moves(effects, selected, n, regions).dom().contains(h) <==> regions.dom().contains(h),
        regions.dom().contains(h) ==> arm_when(after_moves(effects, selected, n, regions)[h], holds) == arm_when(
            regions[h],
            holds,
        ),
    decreases n,
{
    if n > 0 {
        law_moves_keep_branches(effects, selected, n - 1, regions, h, holds);
        let rest = after_moves(effects, selected, n - 1, regions);
        if rest.dom().contains(h) {
            law_move_keeps_branch(effects, selected[n - 1].0, rest[h], holds);
        }
    }
}

fn rewrite_region(dual: &DualDecompModel, mv: &RewriteMove, r: &Region) -> (out: Region)
    ensures
        out@ == rewritten(dual.semantic.effects@, *mv, r@),
{
    match r {
        Region::IfElse { then_entry, else_entry, merge, invert } => match mv {
            RewriteMove::InvertBranch { .. } => Region::IfElse {
                then_entry: *else_entry,
                else_entry: *then_entry,
                merge: *merge,
                invert: !*invert,
            },
            RewriteMove::EarlyReturnExtract { .. } => {
                let t = dual.semantic.block_effect_kinds(*then_entry);
                let e = dual.semantic.block_effect_kinds(*else_entry);
                if is_pure_return_arm(&t) {
                    Region::IfThenFallthrough {
                        then_entry: *then_entry,
                        cont_entry: *else_entry,
                        merge: *merge,
                        invert: *invert,
                    }
                } else if is_pure_return_arm(&e) {
                    Region::IfThenFallthrough {
                        then_entry: *else_entry,
                        cont_entry: *then_entry,
                        merge: *merge,
                        invert: !*invert,
                    }
                } else {
                    r.copied()
                }
            },
            _ => r.copied(),
        },
        _ => r.copied(),
    }
}

/// Apply the moves that were selected, in order, and derive the contracts anew.
///
/// Moves that only keep a tail in one place or print a block twice leave the
/// regions as they are.
pub fn apply_moves(dual: &mut DualDecompModel, selected: &[(RewriteMove, RewriteOutcome)], ssa: &SsaFunction)
    requires
        ssa.blocks@.len() < u32::MAX,
        lists_fit(*ssa),
    ensures
        region_views(final(dual).regions@) == after_moves(
            old(dual).semantic.effects@,
            selected@,
            selected@.len() as int,
            region_views(old(dual).regions@),
        ),
        final(dual).regions@.dom() == old(dual).regions@.dom(),
        final(dual).contracts.recovers(*ssa, final(dual).regions@),
        final(dual).semantic == old(dual).semantic,
        final(dual).presentation == old(dual).presentation,
{
    let ghost effects = dual.semantic.effects@;
    let ghost start = region_views(dual.regions@);
    let ghost dom = dual.regions@.dom();
    let mut i: usize = 0;
    while i < selected.len()
        invariant
            i <= selected@.len(),
            effects == dual.semantic.effects@,
            dual.semantic == old(dual).semantic,
            dual.presentation == old(dual).presentation,
            region_views(dual.regions@) == after_moves(effects, selected@, i as int, start),
            dual.regions@.dom() == dom,
        decreases selected@.len() - i,
    {
        let ghost before = dual.regions@;
        let applied = matches!(selected[i].1, RewriteOutcome::Applied { .. });
        let mv = selected[i].0;
        if applied {
            let header: Option<u32> = match mv {
                RewriteMove::InvertBranch { header } => Some(header),
                RewriteMove::EarlyReturnExtract { header } => Some(header),
                _ => None,
            };
            if let Some(h) = header {
                let new: Option<Region> = match dual.regions.get(&h) {
                    Some(r) => Some(rewrite_region(dual, &mv, r)),
                    None => None,
                };
                if let Some(r) = new {
                    dual.regions.insert(h, r);
                    assert(dual.regions@ == before.insert(h, r));
                    assert(region_views(dual.regions@) =~= region_views(before).insert(h, r@));
                    assert(dual.regions@.dom() =~= dom);
                }
            }
        }
        assert(region_views(dual.regions@) =~= after_moves(effects, selected@, i + 1, start));
        i += 1;
    }
    let contracts = ContractSet::from_regions(ssa, &dual.regions);
    dual.contracts = contracts;
}

// ─── Residual edges ─────────────────────────────────────────────────────────

/// The reason for an emit tag.
pub fn residual_reason_for_emit_tag(tag: &str) -> (r: ResidualReason)
    ensures
        r == ResidualReason::of_tag(tag@),
{
    ResidualReason::from_emit_tag(tag)
}

/// Some loop contract has the header `h`.
pub open spec fn contract_heads(dual: DualDecompModel, h: u32) -> bool {
    exists|i: int|
        0 <= i < dual.contracts.loops@.len() && (#[trigger] dual.contracts.loops@[i]).header == h
}

/// The reason for a residual edge: an edge into a loop header or between regions
/// where several edges meet, else what the tag says.
pub fn classify_residual_edge(dual: &DualDecompModel, from: u32, to: u32, emit_tag: &str) -> (r: ResidualReason)
    ensures
        r == if to < dual.presentation.pred@.len() && dual.presentation.pred@[to as int]@.len() >= 2
            && contract_heads(*dual, to) {
            ResidualReason::MultiEntryScc
        } else if to < dual.presentation.pred@.len() && dual.presentation.pred@[to as int]@.len() >= 2
            && dual.regions@.dom().contains(from) && dual.regions@.dom().contains(to) {
            ResidualReason::CrossRegionEscape
        } else {
            ResidualReason::of_tag(emit_tag@)
        },
{
    if (to as usize) < dual.presentation.pred.len() && dual.presentation.pred[to as usize].len() >= 2 {
        let mut heads = false;
        let mut i: usize = 0;
        while i < dual.contracts.loops.len()
            invariant
                i <= dual.contracts.loops@.len(),
                heads == exists|j: int|
                    0 <= j < i && (#[trigger] dual.contracts.loops@[j]).header == to,
            decreases dual.contracts.loops@.len() - i,
        {
            if dual.contracts.loops[i].header == to {
                heads = true;
            }
            i += 1;
        }
        if heads {
            return ResidualReason::MultiEntryScc;
        }
        if dual.regions.contains_key(&from) && dual.regions.contains_key(&to) {
            return ResidualReason::CrossRegionEscape;
        }
    }
    residual_reason_for_emit_tag(emit_tag)
}

} // verus!
