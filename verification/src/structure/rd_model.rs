//! Two views of one function: the effects it has, and the graph it is presented
//! with. Contracts recovered from the second are checked against the first.

use vstd::prelude::*;
use std::collections::{BTreeMap, BTreeSet, HashMap};
use pcode_ir::PcodeOp;
use crate::graph::{closed, converse, edge, rows};
use crate::normalize::{block_has_branch_ind, block_has_call, block_has_memory, block_has_xor, has_branch_ind, has_call, has_memory, has_return, has_xor};
use crate::sets::{ascending, has_id, insert_ascending};
use crate::ssa::{SsaBlock, SsaFunction, SsaOp, SsaOpKind};
use crate::structure::cfg_norm::{lemma_resolve_in_range, resolve, resolve_jump_target, JUMP_LIMIT};
use crate::structure::pdom::{adj_from_ssa, build_ipdom, ipdom_of, virtual_exit};
use crate::structure::contracts::{case_issues, case_views, has_tag, lists_fit, loop_issues, return_issues, tags};
use crate::structure::region::{classified, classify_with_adj, flow_of, Region, SwitchInfo};
use crate::text::{chars_of, is_lit};

pub use crate::structure::contracts::{case_partition_from_decomp_text, CasePartition, ContractSet, LoopContract, LoopKind, ReturnClass};

verus! {

broadcast use vstd::std_specs::hash::group_hash_axioms;

// ─── Residual reasons ───────────────────────────────────────────────────────

/// Why an unstructured edge remains.
#[derive(Clone, Copy, Debug, PartialEq, Eq, Hash, Structural)]
pub enum ResidualReason {
    /// A loop with several entries.
    MultiEntryScc,
    /// An edge out of a region that is no break, continue, return or throw.
    CrossRegionEscape,
    /// The join has been printed already.
    JoinAlreadyEmitted,
    /// The case body has been printed already.
    SharedCaseBody,
    /// A single successor that has been printed already.
    SingleSuccRejoin,
    /// An arm of a multi-way branch.
    MultiwayResidual,
    /// An arm that rejoins.
    ArmRejoin,
    /// None of these.
    Unclassified,
}

impl ResidualReason {
    /// The tag of a reason.
    pub open spec fn tag(self) -> Seq<char> {
        match self {
            ResidualReason::MultiEntryScc => "multi_entry_scc"@,
            ResidualReason::CrossRegionEscape => "cross_region_escape"@,
            ResidualReason::JoinAlreadyEmitted => "join_already_emitted"@,
            ResidualReason::SharedCaseBody => "shared_case_body"@,
            ResidualReason::SingleSuccRejoin => "single_succ_rejoin"@,
            ResidualReason::MultiwayResidual => "multiway_residual"@,
            ResidualReason::ArmRejoin => "arm_rejoin"@,
            ResidualReason::Unclassified => "unclassified"@,
        }
    }

    /// The reason with a given tag.
    pub open spec fn of_tag(tag: Seq<char>) -> ResidualReason {
        if tag == "join_already_emitted"@ {
            ResidualReason::JoinAlreadyEmitted
        } else if tag == "shared_case_body"@ {
            ResidualReason::SharedCaseBody
        } else if tag == "single_succ_rejoin"@ {
            ResidualReason::SingleSuccRejoin
        } else if tag == "multiway_residual"@ {
            ResidualReason::MultiwayResidual
        } else if tag == "arm_rejoin"@ {
            ResidualReason::ArmRejoin
        } else if tag == "multi_entry_scc"@ {
            ResidualReason::MultiEntryScc
        } else if tag == "cross_region_escape"@ {
            ResidualReason::CrossRegionEscape
        } else {
            ResidualReason::Unclassified
        }
    }

    /// The tag that is printed for this reason.
    pub fn as_str(self) -> (r: &'static str)
        ensures
            r@ == self.tag(),
    {
        match self {
            ResidualReason::MultiEntryScc => "multi_entry_scc",
            ResidualReason::CrossRegionEscape => "cross_region_escape",
            ResidualReason::JoinAlreadyEmitted => "join_already_emitted",
            ResidualReason::SharedCaseBody => "shared_case_body",
            ResidualReason::SingleSuccRejoin => "single_succ_rejoin",
            ResidualReason::MultiwayResidual => "multiway_residual",
            ResidualReason::ArmRejoin => "arm_rejoin",
            ResidualReason::Unclassified => "unclassified",
        }
    }

    /// The reason for an emit tag; an unknown tag is unclassified.
    pub fn from_emit_tag(tag: &str) -> (r: ResidualReason)
        ensures
            r == ResidualReason::of_tag(tag@),
    {
        let t = chars_of(tag);
        if is_lit(&t, "join_already_emitted") {
            ResidualReason::JoinAlreadyEmitted
        } else if is_lit(&t, "shared_case_body") {
            ResidualReason::SharedCaseBody
        } else if is_lit(&t, "single_succ_rejoin") {
            ResidualReason::SingleSuccRejoin
        } else if is_lit(&t, "multiway_residual") {
            ResidualReason::MultiwayResidual
        } else if is_lit(&t, "arm_rejoin") {
            ResidualReason::ArmRejoin
        } else if is_lit(&t, "multi_entry_scc") {
            ResidualReason::MultiEntryScc
        } else if is_lit(&t, "cross_region_escape") {
            ResidualReason::CrossRegionEscape
        } else {
            ResidualReason::Unclassified
        }
    }
}

/// The tag of a reason reads back as that reason.
pub proof fn law_residual_tags(r: ResidualReason)
    ensures
        ResidualReason::of_tag(r.tag()) == r,
{
    reveal_strlit("multi_entry_scc");
    reveal_strlit("cross_region_escape");
    reveal_strlit("join_already_emitted");
    reveal_strlit("shared_case_body");
    reveal_strlit("single_succ_rejoin");
    reveal_strlit("multiway_residual");
    reveal_strlit("arm_rejoin");
    reveal_strlit("unclassified");
    // The tags differ in length.
    assert("multi_entry_scc"@.len() == 15);
    assert("cross_region_escape"@.len() == 19);
    assert("join_already_emitted"@.len() == 20);
    assert("shared_case_body"@.len() == 16);
    assert("single_succ_rejoin"@.len() == 18);
    assert("multiway_residual"@.len() == 17);
    assert("arm_rejoin"@.len() == 10);
    assert("unclassified"@.len() == 12);
}

// ─── Effects ────────────────────────────────────────────────────────────────

/// Kinds of effect that a block has beyond the values it computes.
#[derive(Clone, Copy, Debug, PartialEq, Eq, Hash, Structural)]
pub enum EffectKind {
    Call { target_hint: Option<u64> },
    Store,
    Return,
    Throwish,
    VolatileAccess,
    Barrier,
}

/// One effect of a block.
#[derive(Clone, Copy, Debug, PartialEq, Eq, Structural)]
pub struct Effect {
    pub block: u32,
    pub kind: EffectKind,
}

/// The effect of one operation, if it has one.
pub open spec fn effect_of(op: SsaOp) -> Option<EffectKind> {
    match op.kind {
        SsaOpKind::Pcode(p) => if p is Call || p is CallInd {
            Some(EffectKind::Call { target_hint: None })
        } else if p is Store {
            Some(EffectKind::Store)
        } else if p is Return {
            Some(EffectKind::Return)
        } else {
            None
        },
        SsaOpKind::Phi(_) => None,
    }
}

fn op_effect(op: &SsaOp) -> (r: Option<EffectKind>)
    ensures
        r == effect_of(*op),
{
    match &op.kind {
        SsaOpKind::Pcode(PcodeOp::Call { .. }) => Some(EffectKind::Call { target_hint: None }),
        SsaOpKind::Pcode(PcodeOp::CallInd { .. }) => Some(EffectKind::Call { target_hint: None }),
        SsaOpKind::Pcode(PcodeOp::Store { .. }) => Some(EffectKind::Store),
        SsaOpKind::Pcode(PcodeOp::Return { .. }) => Some(EffectKind::Return),
        _ => None,
    }
}

/// The effects of the first `n` operations of block `b`, in order.
pub open spec fn effects_of(b: u32, ops: Seq<SsaOp>, n: int) -> Seq<Effect>
    decreases n,
{
    if n <= 0 {
        Seq::empty()
    } else {
        match effect_of(ops[n - 1]) {
            Some(kind) => effects_of(b, ops, n - 1).push(Effect { block: b, kind }),
            None => effects_of(b, ops, n - 1),
        }
    }
}

/// All effects of a block.
pub open spec fn block_effects(ssa: SsaFunction, b: u32) -> Seq<Effect> {
    effects_of(b, ssa.blocks@[b as int].ops@, ssa.blocks@[b as int].ops@.len() as int)
}

/// A small block that mixes memory with exclusive or and calls nothing, as stack
/// cookie checks do.
pub open spec fn cookie_scaffold(block: SsaBlock) -> bool {
    !has_call(block) && has_xor(block) && has_memory(block) && block.ops@.len() <= 12
}

/// An indirect branch with many targets, as exception dispatch has.
pub open spec fn exception_scaffold(block: SsaBlock) -> bool {
    has_branch_ind(block) && block.successor_ids@.len() >= 4
}

fn is_cookie_scaffold_block(block: &SsaBlock) -> (r: bool)
    ensures
        r == cookie_scaffold(*block),
{
    !block_has_call(block) && block_has_xor(block) && block_has_memory(block) && block.ops.len() <= 12
}

fn is_exception_scaffold_block(block: &SsaBlock) -> (r: bool)
    ensures
        r == exception_scaffold(*block),
{
    block_has_branch_ind(block) && block.successor_ids.len() >= 4
}

/// What a function does: its edges, and the effects of its blocks.
#[derive(Clone, Debug)]
pub struct SemanticGraph {
    pub n_blocks: usize,
    pub entry: u32,
    /// All edges.
    pub succ: Vec<Vec<u32>>,
    pub pred: Vec<Vec<u32>>,
    /// Effects by block, in order; a block without effects has no entry.
    pub effects: BTreeMap<u32, Vec<Effect>>,
    /// Blocks that look like cookie scaffolding.
    pub cookie_overlay: BTreeSet<u32>,
    /// Blocks that look like exception dispatch.
    pub exception_overlay: BTreeSet<u32>,
}

/// The kinds of the effects of block `b`.
pub open spec fn kinds_of(effects: Map<u32, Vec<Effect>>, b: u32) -> Seq<EffectKind> {
    if effects.dom().contains(b) {
        Seq::new(effects[b]@.len(), |i: int| effects[b]@[i].kind)
    } else {
        Seq::empty()
    }
}

impl SemanticGraph {
    /// One row of edges per block, and effects of existing blocks only.
    pub open spec fn wf(&self) -> bool {
        &&& self.n_blocks < u32::MAX
        &&& self.succ@.len() == self.n_blocks
        &&& self.pred@.len() == self.n_blocks
        &&& forall|b: u32| #[trigger] self.effects@.dom().contains(b) ==> b < self.n_blocks
    }

    /// Holds the edges and effects of `ssa`.
    pub open spec fn describes(&self, ssa: SsaFunction) -> bool {
        &&& self.n_blocks == ssa.blocks@.len()
        &&& self.entry == 0
        &&& rows(self.succ@) == ssa.succs()
        &&& rows(self.pred@) == ssa.preds()
        &&& forall|b: u32|
            #[trigger] self.effects@.dom().contains(b) <==> b < ssa.blocks@.len() && block_effects(
                ssa,
                b,
            ).len() > 0
        &&& forall|b: u32|
            #[trigger] self.effects@.dom().contains(b) ==> self.effects@[b]@ == block_effects(ssa, b)
        &&& forall|b: u32|
            #[trigger] self.cookie_overlay@.contains(b) <==> b < ssa.blocks@.len()
                && cookie_scaffold(ssa.blocks@[b as int])
        &&& forall|b: u32|
            #[trigger] self.exception_overlay@.contains(b) <==> b < ssa.blocks@.len()
                && exception_scaffold(ssa.blocks@[b as int])
    }

    /// Extract edges and effects from a function.
    pub fn from_ssa(ssa: &SsaFunction) -> (r: SemanticGraph)
        requires
            ssa.blocks@.len() < u32::MAX,
        ensures
            r.describes(*ssa),
            r.wf(),
    {
        let n: usize = ssa.blocks.len();
        let (succ, pred) = adj_from_ssa(ssa);
        let mut effects: BTreeMap<u32, Vec<Effect>> = BTreeMap::new();
        let mut cookie_overlay: BTreeSet<u32> = BTreeSet::new();
        let mut exception_overlay: BTreeSet<u32> = BTreeSet::new();
        let mut i: usize = 0;
        while i < n
            invariant
                i <= n,
                n == ssa.blocks@.len(),
                n < u32::MAX,
                forall|b: u32|
                    #[trigger] effects@.dom().contains(b) <==> b < i && block_effects(*ssa, b).len()
                        > 0,
                forall|b: u32|
                    #[trigger] effects@.dom().contains(b) ==> effects@[b]@ == block_effects(
                        *ssa,
                        b,
                    ),
                forall|b: u32|
                    #[trigger] cookie_overlay@.contains(b) <==> b < i && cookie_scaffold(
                        ssa.blocks@[b as int],
                    ),
                forall|b: u32|
                    #[trigger] exception_overlay@.contains(b) <==> b < i && exception_scaffold(
                        ssa.blocks@[b as int],
                    ),
            decreases n - i,
        {
            let block = &ssa.blocks[i];
            let bid: u32 = i as u32;
            let mut list: Vec<Effect> = Vec::new();
            let mut k: usize = 0;
            while k < block.ops.len()
                invariant
                    k <= block.ops@.len(),
                    list@ == effects_of(bid, block.ops@, k as int),
                decreases block.ops@.len() - k,
            {
                if let Some(kind) = op_effect(&block.ops[k]) {
                    list.push(Effect { block: bid, kind });
                }
                k += 1;
            }
            assert(list@ == block_effects(*ssa, bid));
            let ghost e0 = effects@;
            let ghost c0 = cookie_overlay@;
            let ghost x0 = exception_overlay@;
            if list.len() > 0 {
                effects.insert(bid, list);
                assert(effects@ == e0.insert(bid, list));
            }
            if is_cookie_scaffold_block(block) {
                cookie_overlay.insert(bid);
            }
            if is_exception_scaffold_block(block) {
                exception_overlay.insert(bid);
            }
            assert forall|b: u32|
                #[trigger] effects@.dom().contains(b) <==> b < i + 1 && block_effects(*ssa, b).len()
                    > 0 by {
                assert(e0.dom().contains(b) <==> b < i && block_effects(*ssa, b).len() > 0);
            }
            assert forall|b: u32| #[trigger] effects@.dom().contains(b) implies effects@[b]@
                == block_effects(*ssa, b) by {
                if b != bid {
                    assert(e0.dom().contains(b));
                }
            }
            i += 1;
        }
        assert(rows(succ@).len() == ssa.succs().len());
        assert(rows(pred@).len() == ssa.preds().len());
        SemanticGraph {
            n_blocks: n,
            entry: 0,
            succ,
            pred,
            effects,
            cookie_overlay,
            exception_overlay,
        }
    }

    /// The kinds of the effects of a block, in order.
    pub fn block_effect_kinds(&self, b: u32) -> (r: Vec<EffectKind>)
        ensures
            r@ == kinds_of(self.effects@, b),
    {
        let mut r: Vec<EffectKind> = Vec::new();
        match self.effects.get(&b) {
            Some(list) => {
                let mut i: usize = 0;
                while i < list.len()
                    invariant
                        i <= list@.len(),
                        r@.len() == i,
                        forall|j: int| 0 <= j < i ==> r@[j] == list@[j].kind,
                    decreases list@.len() - i,
                {
                    r.push(list[i].kind);
                    i += 1;
                }
                assert(r@ =~= kinds_of(self.effects@, b));
            },
            None => {
                assert(r@ =~= kinds_of(self.effects@, b));
            },
        }
        r
    }

    /// True if the block is cookie or exception scaffolding.
    pub fn is_overlay(&self, b: u32) -> (r: bool)
        ensures
            r == (self.cookie_overlay@.contains(b) || self.exception_overlay@.contains(b)),
    {
        self.cookie_overlay.contains(&b) || self.exception_overlay.contains(&b)
    }
}

// ─── Presentation graph ─────────────────────────────────────────────────────

/// The graph that regions are selected on.
#[derive(Clone, Debug)]
pub struct PresentationGraph {
    pub n_blocks: usize,
    pub entry: u32,
    pub succ: Vec<Vec<u32>>,
    pub pred: Vec<Vec<u32>>,
    /// Virtual exit for post-dominator analysis.
    pub virtual_exit: u32,
    pub ipdom: Vec<Option<u32>>,
}

/// Successor `k` of block `i`, looked through jump-only blocks.
pub open spec fn target(sem: SemanticGraph, ssa: SsaFunction, i: int, k: int) -> u32 {
    resolve(ssa, sem.succ@[i]@[k], JUMP_LIMIT as nat)
}

/// Successor `k` of block `i` is kept: it is no cookie block, or the only successor.
pub open spec fn keeps(sem: SemanticGraph, ssa: SsaFunction, i: int, k: int) -> bool {
    !(sem.cookie_overlay@.contains(target(sem, ssa, i, k)) && sem.succ@[i]@.len() > 1)
}

/// Some successor of block `i` is kept.
pub open spec fn keeps_any(sem: SemanticGraph, ssa: SsaFunction, i: int) -> bool {
    exists|k: int| 0 <= k < sem.succ@[i]@.len() && #[trigger] keeps(sem, ssa, i, k)
}

/// `x` is a presentation successor of block `i`: the target of a kept successor,
/// or of any successor if none is kept.
pub open spec fn presented(sem: SemanticGraph, ssa: SsaFunction, i: int, x: u32) -> bool {
    exists|k: int|
        0 <= k < sem.succ@[i]@.len() && #[trigger] target(sem, ssa, i, k) == x && (keeps(
            sem,
            ssa,
            i,
            k,
        ) || !keeps_any(sem, ssa, i))
}

impl PresentationGraph {
    /// The rows are ascending, list the presentation edges and mirror each other.
    pub open spec fn presents(&self, sem: SemanticGraph, ssa: SsaFunction) -> bool {
        &&& self.n_blocks == sem.n_blocks
        &&& self.entry == sem.entry
        &&& self.virtual_exit == sem.n_blocks
        &&& self.succ@.len() == sem.n_blocks
        &&& self.pred@.len() == sem.n_blocks
        &&& forall|i: int| 0 <= i < self.succ@.len() ==> ascending(#[trigger] self.succ@[i]@)
        &&& forall|i: int| 0 <= i < self.pred@.len() ==> ascending(#[trigger] self.pred@[i]@)
        &&& forall|i: int, x: u32|
            0 <= i < self.succ@.len() ==> (#[trigger] self.succ@[i]@.contains(x) <==> presented(
                sem,
                ssa,
                i,
                x,
            ))
        &&& closed(rows(self.succ@))
        &&& closed(rows(self.pred@))
        &&& converse(rows(self.succ@), rows(self.pred@))
        &&& self.ipdom@ == ipdom_of(rows(self.succ@), rows(self.pred@))
    }

    /// Build the presentation graph: jump-only blocks are looked through, and edges
    /// into cookie blocks are dropped where another successor remains.
    pub fn from_semantic(sem: &SemanticGraph, ssa: &SsaFunction) -> (r: PresentationGraph)
        requires
            sem.wf(),
            sem.n_blocks == ssa.blocks@.len(),
            closed(rows(sem.succ@)),
            closed(ssa.succs()),
        ensures
            r.presents(*sem, *ssa),
    {
        let n: usize = sem.n_blocks;
        let ve = virtual_exit(n);
        let mut succ: Vec<Vec<u32>> = Vec::new();
        let mut i: usize = 0;
        while i < n
            invariant
                i <= n,
                n == sem.n_blocks,
                sem.wf(),
                n == ssa.blocks@.len(),
                closed(rows(sem.succ@)),
                closed(ssa.succs()),
                succ@.len() == i,
                forall|j: int| 0 <= j < i ==> ascending(#[trigger] succ@[j]@),
                forall|j: int, x: u32|
                    0 <= j < i ==> (#[trigger] succ@[j]@.contains(x) <==> presented(
                        *sem,
                        *ssa,
                        j,
                        x,
                    )),
                forall|j: int, k: int|
                    0 <= j < i && 0 <= k < succ@[j]@.len() ==> (#[trigger] succ@[j]@[k]) < n,
            decreases n - i,
        {
            let row = presentation_row(sem, ssa, i);
            succ.push(row);
            i += 1;
        }
        // Predecessors follow from the presentation successors.
        let mut pred: Vec<Vec<u32>> = Vec::new();
        let mut t: usize = 0;
        while t < n
            invariant
                t <= n,
                n < u32::MAX,
                succ@.len() == n,
                pred@.len() == t,
                forall|j: int| 0 <= j < t ==> ascending(#[trigger] pred@[j]@),
                forall|j: int, x: u32|
                    0 <= j < t ==> (#[trigger] pred@[j]@.contains(x) <==> x < n
                        && succ@[x as int]@.contains(j as u32)),
            decreases n - t,
        {
            let mut row: Vec<u32> = Vec::new();
            let mut s: usize = 0;
            while s < n
                invariant
                    s <= n,
                    t < n,
                    n < u32::MAX,
                    succ@.len() == n,
                    ascending(row@),
                    forall|x: u32|
                        #[trigger] row@.contains(x) <==> x < s && succ@[x as int]@.contains(
                            t as u32,
                        ),
                decreases n - s,
            {
                if has_id(&succ[s], t as u32) {
                    insert_ascending(&mut row, s as u32);
                }
                s += 1;
            }
            pred.push(row);
            t += 1;
        }
        proof {
            let a = rows(succ@);
            let b = rows(pred@);
            assert forall|x: int, k: int| 0 <= x < a.len() && 0 <= k < a[x].len() implies (
            #[trigger] a[x][k]) < a.len() by {
                assert(succ@[x]@[k] < n);
            }
            assert forall|x: int, k: int| 0 <= x < b.len() && 0 <= k < b[x].len() implies (
            #[trigger] b[x][k]) < b.len() by {
                assert(pred@[x]@.contains(pred@[x]@[k]));
            }
            assert forall|x: u32, y: u32| x < a.len() && y < a.len() implies (#[trigger] edge(
                a,
                x,
                y,
            ) <==> edge(b, y, x)) by {
                assert(pred@[y as int]@.contains(x) <==> x < n && succ@[x as int]@.contains(y));
            }
        }
        let ipdom = build_ipdom(&succ, &pred);
        PresentationGraph {
            n_blocks: n,
            entry: sem.entry,
            succ,
            pred,
            virtual_exit: ve,
            ipdom,
        }
    }

    /// Immediate post-dominator of a block in the presentation graph.
    pub fn ipdom_of(&self, b: u32) -> (r: Option<u32>)
        ensures
            r == if b < self.ipdom@.len() {
                self.ipdom@[b as int]
            } else {
                None
            },
    {
        if (b as usize) < self.ipdom.len() {
            self.ipdom[b as usize]
        } else {
            None
        }
    }
}

fn presentation_row(sem: &SemanticGraph, ssa: &SsaFunction, i: usize) -> (row: Vec<u32>)
    requires
        sem.wf(),
        i < sem.n_blocks,
        sem.n_blocks == ssa.blocks@.len(),
        closed(rows(sem.succ@)),
        closed(ssa.succs()),
    ensures
        ascending(row@),
        forall|x: u32| #[trigger] row@.contains(x) <==> presented(*sem, *ssa, i as int, x),
        forall|k: int| 0 <= k < row@.len() ==> (#[trigger] row@[k]) < sem.n_blocks,
{
    let raw = &sem.succ[i];
    let mut kept: Vec<u32> = Vec::new();
    let mut all: Vec<u32> = Vec::new();
    let mut any = false;
    let mut k: usize = 0;
    while k < raw.len()
        invariant
            i < sem.succ@.len(),
            sem.wf(),
            sem.n_blocks == ssa.blocks@.len(),
            closed(rows(sem.succ@)),
            closed(ssa.succs()),
            *raw == sem.succ@[i as int],
            k <= raw@.len(),
            ascending(kept@),
            ascending(all@),
            any == exists|j: int| 0 <= j < k && #[trigger] keeps(*sem, *ssa, i as int, j),
            forall|x: u32| #[trigger] kept@.contains(x) <==> exists|j: int|
                0 <= j < k && #[trigger] target(*sem, *ssa, i as int, j) == x && keeps(
                    *sem,
                    *ssa,
                    i as int,
                    j,
                ),
            forall|x: u32| #[trigger] all@.contains(x) <==> exists|j: int|
                0 <= j < k && #[trigger] target(*sem, *ssa, i as int, j) == x,
            forall|j: int|
                0 <= j < k ==> (#[trigger] target(*sem, *ssa, i as int, j)) < sem.n_blocks,
        decreases raw@.len() - k,
    {
        let t = resolve_jump_target(ssa, raw[k], JUMP_LIMIT);
        let ghost kept0 = kept@;
        let ghost all0 = all@;
        proof {
            assert(rows(sem.succ@)[i as int][k as int] < rows(sem.succ@).len());
            lemma_resolve_in_range(*ssa, raw@[k as int], JUMP_LIMIT as nat);
            assert(t == target(*sem, *ssa, i as int, k as int));
        }
        let keep = !(sem.cookie_overlay.contains(&t) && raw.len() > 1);
        assert(keep == keeps(*sem, *ssa, i as int, k as int));
        if keep {
            any = true;
            insert_ascending(&mut kept, t);
        }
        insert_ascending(&mut all, t);
        proof {
            assert forall|x: u32| #[trigger] kept@.contains(x) <==> exists|j: int|
                0 <= j < k + 1 && #[trigger] target(*sem, *ssa, i as int, j) == x && keeps(
                    *sem,
                    *ssa,
                    i as int,
                    j,
                ) by {
                if kept0.contains(x) {
                    let j = choose|j: int|
                        0 <= j < k && #[trigger] target(*sem, *ssa, i as int, j) == x && keeps(
                            *sem,
                            *ssa,
                            i as int,
                            j,
                        );
                    assert(0 <= j < k + 1);
                }
                if exists|j: int|
                    0 <= j < k + 1 && #[trigger] target(*sem, *ssa, i as int, j) == x && keeps(
                        *sem,
                        *ssa,
                        i as int,
                        j,
                    ) {
                    let j = choose|j: int|
                        0 <= j < k + 1 && #[trigger] target(*sem, *ssa, i as int, j) == x && keeps(
                            *sem,
                            *ssa,
                            i as int,
                            j,
                        );
                    if j < k {
                        assert(kept0.contains(x));
                    }
                }
            }
            assert forall|x: u32| #[trigger] all@.contains(x) <==> exists|j: int|
                0 <= j < k + 1 && #[trigger] target(*sem, *ssa, i as int, j) == x by {
                if all0.contains(x) {
                    let j = choose|j: int|
                        0 <= j < k && #[trigger] target(*sem, *ssa, i as int, j) == x;
                    assert(0 <= j < k + 1);
                }
                if exists|j: int| 0 <= j < k + 1 && #[trigger] target(*sem, *ssa, i as int, j) == x {
                    let j = choose|j: int|
                        0 <= j < k + 1 && #[trigger] target(*sem, *ssa, i as int, j) == x;
                    if j < k {
                        assert(all0.contains(x));
                    }
                }
            }
        }
        k += 1;
    }
    let row = if any {
        kept
    } else {
        all
    };
    proof {
        assert(any == keeps_any(*sem, *ssa, i as int));
        assert forall|x: u32| #[trigger] row@.contains(x) <==> presented(
            *sem,
            *ssa,
            i as int,
            x,
        ) by {
            assert(kept@.contains(x) || !kept@.contains(x));
            assert(all@.contains(x) || !all@.contains(x));
        }
        assert forall|m: int| 0 <= m < row@.len() implies (#[trigger] row@[m]) < sem.n_blocks by {
            assert(row@.contains(row@[m]));
        }
    }
    row
}

// ─── Both views together ────────────────────────────────────────────────────

/// What a function does, how it is presented, its regions and its contracts.
#[derive(Clone, Debug)]
pub struct DualDecompModel {
    pub semantic: SemanticGraph,
    pub presentation: PresentationGraph,
    pub regions: HashMap<u32, Region>,
    pub contracts: ContractSet,
}

/// The cost of the blocks below `n` that head no region: by their successors.
pub open spec fn residual_cost(succ: Seq<Vec<u32>>, regions: Map<u32, Region>, n: int) -> int
    decreases n,
{
    if n <= 0 {
        0
    } else {
        residual_cost(succ, regions, n - 1) + if regions.dom().contains((n - 1) as u32) {
            0int
        } else if succ[n - 1]@.len() >= 2 {
            3
        } else if succ[n - 1]@.len() == 1 {
            1
        } else {
            0
        }
    }
}

pub proof fn lemma_residual_cost(succ: Seq<Vec<u32>>, regions: Map<u32, Region>, n: int)
    requires
        0 <= n,
    ensures
        0 <= residual_cost(succ, regions, n) <= 3 * n,
    decreases n,
{
    if n > 0 {
        lemma_residual_cost(succ, regions, n - 1);
    }
}

/// `c` passes the check of case partitions.
pub open spec fn case_stands(sem: SemanticGraph, c: CasePartition) -> bool {
    c.case_values@.len() > 0 && c.switch_block < sem.n_blocks
}

/// The case partitions among the first `n` that pass the check.
pub open spec fn standing_cases(sem: SemanticGraph, cases: Seq<CasePartition>, n: int) -> Seq<CasePartition>
    decreases n,
{
    if n <= 0 {
        Seq::empty()
    } else if case_stands(sem, cases[n - 1]) {
        standing_cases(sem, cases, n - 1).push(cases[n - 1])
    } else {
        standing_cases(sem, cases, n - 1)
    }
}

/// What is wrong with loops is one of two things.
proof fn lemma_loop_tags(sem: SemanticGraph, loops: Seq<LoopContract>, n: int)
    ensures
        forall|i: int|
            0 <= i < loop_issues(sem, loops, n).len() ==> #[trigger] loop_issues(sem, loops, n)[i]
                == "loop_header_oob"@ || loop_issues(sem, loops, n)[i] == "missing_loop_recurrence"@,
    decreases n,
{
    if n > 0 {
        lemma_loop_tags(sem, loops, n - 1);
        let a = loop_issues(sem, loops, n - 1);
        let b = loop_issues(sem, loops, n);
        assert forall|i: int| 0 <= i < b.len() implies #[trigger] b[i] == "loop_header_oob"@ || b[i]
            == "missing_loop_recurrence"@ by {
            if i < a.len() {
                assert(b[i] == a[i]);
            }
        }
    }
}

/// What is wrong with case partitions is one of two things.
proof fn lemma_case_tags(sem: SemanticGraph, cases: Seq<CasePartition>, n: int)
    ensures
        forall|i: int|
            0 <= i < case_issues(sem, cases, n).len() ==> #[trigger] case_issues(sem, cases, n)[i]
                == "incomplete_case_partition"@ || case_issues(sem, cases, n)[i] == "case_switch_oob"@,
    decreases n,
{
    if n > 0 {
        lemma_case_tags(sem, cases, n - 1);
        let a = case_issues(sem, cases, n - 1);
        let b = case_issues(sem, cases, n);
        assert forall|i: int| 0 <= i < b.len() implies #[trigger] b[i] == "incomplete_case_partition"@ || b[i]
            == "case_switch_oob"@ by {
            if i < a.len() {
                assert(b[i] == a[i]);
            }
        }
    }
}

/// Nothing is wrong with case partitions that stand.
proof fn lemma_standing(sem: SemanticGraph, cases: Seq<CasePartition>, n: int)
    requires
        0 <= n <= cases.len(),
        forall|i: int| 0 <= i < n ==> case_stands(sem, #[trigger] cases[i]),
    ensures
        case_issues(sem, cases, n).len() == 0,
    decreases n,
{
    if n > 0 {
        lemma_standing(sem, cases, n - 1);
    }
}

/// The partitions that are kept stand.
proof fn lemma_kept_stand(sem: SemanticGraph, cases: Seq<CasePartition>, n: int)
    requires
        0 <= n <= cases.len(),
    ensures
        forall|i: int|
            0 <= i < standing_cases(sem, cases, n).len() ==> case_stands(
                sem,
                #[trigger] standing_cases(sem, cases, n)[i],
            ),
    decreases n,
{
    if n > 0 {
        lemma_kept_stand(sem, cases, n - 1);
        let a = standing_cases(sem, cases, n - 1);
        let b = standing_cases(sem, cases, n);
        assert forall|i: int| 0 <= i < b.len() implies case_stands(sem, #[trigger] b[i]) by {
            if i < a.len() {
                assert(b[i] == a[i]);
            }
        }
    }
}

/// An issue of one kind of contract is an issue of the set.
proof fn lemma_issue_listed(c: ContractSet, sem: SemanticGraph, ssa: SsaFunction)
    ensures
        forall|i: int|
            0 <= i < loop_issues(sem, c.loops@, c.loops@.len() as int).len() ==> c.issues(sem, ssa).contains(
                #[trigger] loop_issues(sem, c.loops@, c.loops@.len() as int)[i],
            ),
        forall|i: int|
            0 <= i < return_issues(sem, ssa, c.returns).len() ==> c.issues(sem, ssa).contains(
                #[trigger] return_issues(sem, ssa, c.returns)[i],
            ),
        forall|i: int|
            0 <= i < case_issues(sem, c.cases@, c.cases@.len() as int).len() ==> c.issues(sem, ssa).contains(
                #[trigger] case_issues(sem, c.cases@, c.cases@.len() as int)[i],
            ),
{
    let a = loop_issues(sem, c.loops@, c.loops@.len() as int);
    let b = return_issues(sem, ssa, c.returns);
    let d = case_issues(sem, c.cases@, c.cases@.len() as int);
    let all = c.issues(sem, ssa);
    assert forall|i: int| 0 <= i < a.len() implies all.contains(#[trigger] a[i]) by {
        assert(all[i] == a[i]);
    }
    assert forall|i: int| 0 <= i < b.len() implies all.contains(#[trigger] b[i]) by {
        assert(all[a.len() + i] == b[i]);
    }
    assert forall|i: int| 0 <= i < d.len() implies all.contains(#[trigger] d[i]) by {
        assert(all[a.len() + b.len() + i] == d[i]);
    }
}

impl DualDecompModel {
    /// The parts fit each other.
    pub open spec fn wf(&self) -> bool {
        &&& self.semantic.wf()
        &&& self.presentation.succ@.len() == self.semantic.n_blocks
        &&& self.presentation.pred@.len() == self.semantic.n_blocks
        &&& forall|b: u32|
            #[trigger] self.regions@.dom().contains(b) ==> b < self.semantic.n_blocks
    }

    /// Holds both views of `ssa`, with the regions of the presentation graph and
    /// their contracts.
    pub open spec fn models(&self, ssa: SsaFunction, switches: Seq<SwitchInfo>) -> bool {
        &&& self.semantic.describes(ssa)
        &&& self.presentation.presents(self.semantic, ssa)
        &&& classified(
            ssa,
            switches,
            flow_of(rows(self.presentation.succ@), rows(self.presentation.pred@)),
            true,
            self.regions@,
        )
        &&& self.contracts.recovers(ssa, self.regions@)
    }

    /// Build both views, classify regions on the presentation graph and derive
    /// their contracts.
    pub fn build(ssa: &SsaFunction, switches: &[SwitchInfo]) -> (r: DualDecompModel)
        requires
            ssa.wf(),
            lists_fit(*ssa),
        ensures
            r.models(*ssa, switches@),
            r.wf(),
    {
        let semantic = SemanticGraph::from_ssa(ssa);
        let presentation = PresentationGraph::from_semantic(&semantic, ssa);
        let regions = classify_with_adj(
            ssa,
            switches,
            &presentation.succ,
            &presentation.pred,
            true,
        );
        let contracts = ContractSet::from_regions(ssa, &regions);
        DualDecompModel { semantic, presentation, regions, contracts }
    }

    /// Check the contracts against what the function does; empty means that they hold.
    pub fn validate_contracts(&self, ssa: &SsaFunction) -> (issues: Vec<&'static str>)
        requires
            self.semantic.wf(),
        ensures
            tags(issues@) == self.contracts.issues(self.semantic, *ssa),
    {
        self.contracts.validate_against_semantic(&self.semantic, ssa)
    }

    /// Drop the contracts that the function contradicts. Returns the issues found.
    pub fn sanitize_contracts(&mut self, ssa: &SsaFunction) -> (issues: Vec<&'static str>)
        requires
            old(self).semantic.wf(),
        ensures
            tags(issues@) == old(self).contracts.issues(old(self).semantic, *ssa),
            final(self).semantic == old(self).semantic,
            final(self).presentation == old(self).presentation,
            final(self).regions == old(self).regions,
            final(self).contracts.returns == if tags(issues@).contains(
                "return_contract_without_return_effect"@,
            ) || tags(issues@).contains("wrong_return_class_xor"@) {
                None
            } else {
                old(self).contracts.returns
            },
            case_views(final(self).contracts.cases@) == case_views(
                if tags(issues@).contains("incomplete_case_partition"@) || tags(issues@).contains(
                    "case_switch_oob"@,
                ) {
                    standing_cases(
                        old(self).semantic,
                        old(self).contracts.cases@,
                        old(self).contracts.cases@.len() as int,
                    )
                } else {
                    old(self).contracts.cases@
                },
            ),
            final(self).contracts.loops@ == if tags(issues@).contains("missing_loop_recurrence"@)
                || tags(issues@).contains("loop_header_oob"@) {
                Seq::empty()
            } else {
                old(self).contracts.loops@
            },
            final(self).contracts.issues(final(self).semantic, *ssa).len() == 0,
    {
        let issues = self.validate_contracts(ssa);
        let ghost c0 = self.contracts;
        let ghost sem = self.semantic;
        let ghost listed = tags(issues@);
        proof {
            lemma_issue_listed(c0, sem, *ssa);
            lemma_loop_tags(sem, c0.loops@, c0.loops@.len() as int);
            lemma_case_tags(sem, c0.cases@, c0.cases@.len() as int);
            lemma_kept_stand(sem, c0.cases@, c0.cases@.len() as int);
        }
        if has_tag(&issues, "return_contract_without_return_effect") || has_tag(
            &issues,
            "wrong_return_class_xor",
        ) {
            self.contracts.returns = None;
        }
        if has_tag(&issues, "incomplete_case_partition") || has_tag(&issues, "case_switch_oob") {
            let ghost all = self.contracts.cases@;
            let mut kept: Vec<CasePartition> = Vec::new();
            let mut i: usize = 0;
            while i < self.contracts.cases.len()
                invariant
                    i <= self.contracts.cases@.len(),
                    self.contracts.cases@ == all,
                    case_views(kept@) == case_views(standing_cases(self.semantic, all, i as int)),
                decreases self.contracts.cases@.len() - i,
            {
                let c = &self.contracts.cases[i];
                if c.case_values.len() > 0 && (c.switch_block as usize) < self.semantic.n_blocks {
                    let copy = c.copied();
                    let ghost before = kept@;
                    let ghost stood = standing_cases(self.semantic, all, i as int);
                    kept.push(copy);
                    assert(case_views(kept@) =~= case_views(before).push(copy@));
                    assert(case_views(stood.push(all[i as int])) =~= case_views(stood).push(
                        all[i as int]@,
                    ));
                }
                i += 1;
            }
            self.contracts.cases = kept;
        }
        if has_tag(&issues, "missing_loop_recurrence") || has_tag(&issues, "loop_header_oob") {
            self.contracts.loops = Vec::new();
            assert(self.contracts.loops@ =~= Seq::empty());
        }
        proof {
            let c1 = self.contracts;
            if c1.loops@.len() > 0 && loop_issues(sem, c0.loops@, c0.loops@.len() as int).len() > 0 {
                let t = loop_issues(sem, c0.loops@, c0.loops@.len() as int)[0];
                assert(listed.contains(t));
            }
            if c1.returns is Some && return_issues(sem, *ssa, c0.returns).len() > 0 {
                let t = return_issues(sem, *ssa, c0.returns)[0];
                assert(listed.contains(t));
            }
            if listed.contains("incomplete_case_partition"@) || listed.contains("case_switch_oob"@) {
                let kept = standing_cases(sem, c0.cases@, c0.cases@.len() as int);
                assert forall|i: int| 0 <= i < c1.cases@.len() implies case_stands(
                    sem,
                    #[trigger] c1.cases@[i],
                ) by {
                    assert(case_views(c1.cases@)[i] == case_views(kept)[i]);
                    assert(case_stands(sem, kept[i]));
                }
                lemma_standing(sem, c1.cases@, c1.cases@.len() as int);
            } else if case_issues(sem, c0.cases@, c0.cases@.len() as int).len() > 0 {
                let t = case_issues(sem, c0.cases@, c0.cases@.len() as int)[0];
                assert(listed.contains(t));
            }
        }
        issues
    }

    /// The presentation cost: residual branches and scaffolding, less what has been
    /// recovered.
    pub open spec fn cost(&self) -> int {
        residual_cost(
            self.presentation.succ@,
            self.regions@,
            self.presentation.succ@.len() as int,
        ) + self.semantic.cookie_overlay@.len() + 2 * self.semantic.exception_overlay@.len() - 2
            * self.contracts.loops@.len() - 2 * self.contracts.cases@.len() - if (
        self.contracts.returns matches Some(r) && r.has_return) {
            1int
        } else {
            0
        }
    }

    /// Cost of the presentation: lower is better.
    pub fn presentation_cost(&self) -> (cost: i32)
        requires
            i32::MIN <= self.cost() <= i32::MAX,
        ensures
            cost == self.cost(),
    {
        let mut cost: i128 = 0;
        let mut i: usize = 0;
        while i < self.presentation.succ.len()
            invariant
                i <= self.presentation.succ@.len(),
                cost == residual_cost(self.presentation.succ@, self.regions@, i as int),
                0 <= cost <= 3 * i,
            decreases self.presentation.succ@.len() - i,
        {
            let row = &self.presentation.succ[i];
            if !self.regions.contains_key(&(i as u32)) {
                if row.len() >= 2 {
                    cost += 3;
                } else if row.len() == 1 {
                    cost += 1;
                }
            }
            i += 1;
        }
        cost += self.semantic.cookie_overlay.len() as i128;
        cost += 2 * self.semantic.exception_overlay.len() as i128;
        cost -= 2 * self.contracts.loops.len() as i128;
        cost -= 2 * self.contracts.cases.len() as i128;
        let returning = match &self.contracts.returns {
            Some(r) => r.has_return,
            None => false,
        };
        if returning {
            cost -= 1;
        }
        cost as i32
    }
}

impl CasePartition {
    /// The same partition, as a new value.
    pub fn copied(&self) -> (r: CasePartition)
        ensures
            r@ == self@,
    {
        let mut values: Vec<i64> = Vec::new();
        let mut i: usize = 0;
        while i < self.case_values.len()
            invariant
                i <= self.case_values@.len(),
                values@ == self.case_values@.take(i as int),
            decreases self.case_values@.len() - i,
        {
            values.push(self.case_values[i]);
            assert(self.case_values@.take(i + 1) =~= self.case_values@.take(i as int).push(
                self.case_values@[i as int],
            ));
            i += 1;
        }
        assert(self.case_values@.take(self.case_values@.len() as int) =~= self.case_values@);
        CasePartition {
            switch_block: self.switch_block,
            case_values: values,
            merge: self.merge,
        }
    }
}

// ─── Checks on rewrites ─────────────────────────────────────────────────────

/// Whether a rewrite keeps the effects.
#[derive(Clone, Copy, Debug, PartialEq, Eq)]
pub enum CheckResult {
    Accept,
    Reject(&'static str),
}

impl CheckResult {
    /// Why the rewrite is rejected, if it is.
    pub open spec fn reason(self) -> Option<Seq<char>> {
        match self {
            CheckResult::Accept => None,
            CheckResult::Reject(r) => Some(r@),
        }
    }
}

/// An effect that no rewrite may drop, add or reorder.
pub open spec fn critical(k: EffectKind) -> bool {
    !(k is VolatileAccess)
}

pub fn is_critical(k: &EffectKind) -> (r: bool)
    ensures
        r == critical(*k),
{
    matches!(
        k,
        EffectKind::Call { .. }
            | EffectKind::Store
            | EffectKind::Return
            | EffectKind::Throwish
            | EffectKind::Barrier
    )
}

/// The critical effects among the first `n`, in order.
pub open spec fn criticals(e: Seq<EffectKind>, n: int) -> Seq<EffectKind>
    decreases n,
{
    if n <= 0 {
        Seq::empty()
    } else if critical(e[n - 1]) {
        criticals(e, n - 1).push(e[n - 1])
    } else {
        criticals(e, n - 1)
    }
}

fn critical_effects(e: &[EffectKind]) -> (r: Vec<EffectKind>)
    ensures
        r@ == criticals(e@, e@.len() as int),
{
    let mut r: Vec<EffectKind> = Vec::new();
    let mut i: usize = 0;
    while i < e.len()
        invariant
            i <= e@.len(),
            r@ == criticals(e@, i as int),
        decreases e@.len() - i,
    {
        if is_critical(&e[i]) {
            r.push(e[i]);
        }
        i += 1;
    }
    r
}

/// A rewrite is accepted when it keeps the critical effects, in order.
pub fn check_effect_fidelity(before: &[EffectKind], after: &[EffectKind]) -> (r: CheckResult)
    ensures
        r.reason() == if criticals(before@, before@.len() as int) == criticals(
            after@,
            after@.len() as int,
        ) {
            None
        } else {
            Some("effect_multiset_mismatch"@)
        },
{
    let b = critical_effects(before);
    let a = critical_effects(after);
    if b.len() != a.len() {
        return CheckResult::Reject("effect_multiset_mismatch");
    }
    let mut i: usize = 0;
    while i < b.len()
        invariant
            i <= b@.len(),
            a@.len() == b@.len(),
            forall|j: int| 0 <= j < i ==> b@[j] == a@[j],
            b@ == criticals(before@, before@.len() as int),
            a@ == criticals(after@, after@.len() as int),
        decreases b@.len() - i,
    {
        if b[i] != a[i] {
            assert(b@[i as int] != a@[i as int]);
            return CheckResult::Reject("effect_multiset_mismatch");
        }
        i += 1;
    }
    assert(b@ =~= a@);
    CheckResult::Accept
}

/// Swapping the arms of a branch is always a matter of presentation.
pub fn check_branch_inversion_shape(then_effects: &[EffectKind], else_effects: &[EffectKind]) -> (r: CheckResult)
    ensures
        r.reason() is None,
{
    let _arms = (then_effects, else_effects);
    CheckResult::Accept
}

/// An effect that must not happen twice.
pub open spec fn unrepeatable(k: EffectKind) -> bool {
    k is Call || k is Store || k is Throwish || k is Barrier
}

/// Some effect must not happen twice.
pub open spec fn tied_down(effects: Seq<EffectKind>) -> bool {
    exists|i: int| 0 <= i < effects.len() && unrepeatable(#[trigger] effects[i])
}

/// A block may be printed twice only if it calls, stores, throws and fences nothing.
pub fn check_pure_duplication_allowed(effects: &[EffectKind]) -> (r: CheckResult)
    ensures
        r.reason() == if tied_down(effects@) {
            Some("cannot_duplicate_effectful_block"@)
        } else {
            None
        },
{
    let mut i: usize = 0;
    while i < effects.len()
        invariant
            i <= effects@.len(),
            forall|j: int| 0 <= j < i ==> !unrepeatable(#[trigger] effects@[j]),
        decreases effects@.len() - i,
    {
        if matches!(
            effects[i],
            EffectKind::Call { .. } | EffectKind::Store | EffectKind::Throwish | EffectKind::Barrier
        ) {
            assert(unrepeatable(effects@[i as int]));
            return CheckResult::Reject("cannot_duplicate_effectful_block");
        }
        i += 1;
    }
    CheckResult::Accept
}

} // verus!
