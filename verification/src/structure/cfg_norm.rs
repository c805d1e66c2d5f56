//! Presentation form of the control-flow graph: blocks that only forward control
//! are looked through.

use vstd::prelude::*;
use std::collections::HashMap;
use crate::normalize::{block_has_return, frame_adjust, has_return, is_branch_ind_op, is_call_op, is_cbranch_op, is_frame_pointer_adjust, is_noise_stack_reload, is_param_home_store, is_phi_op, is_store_op, is_terminator_op, noise_reload, op_is_branch_ind, op_is_call, op_is_cbranch, op_is_phi, op_is_store, op_is_terminator, param_home_store};
use crate::sets::{ascending, insert_ascending};
use crate::ssa::{SsaBlock, SsaFunction, SsaOp};

verus! {

broadcast use vstd::std_specs::hash::group_hash_axioms;

/// The operation leaves nothing to print: a phi, a transfer of control, or
/// frame and home-slot noise.
pub open spec fn silent_op(op: SsaOp) -> bool {
    is_phi_op(op) || is_terminator_op(op) || frame_adjust(op) || param_home_store(op)
        || noise_reload(op)
}

pub fn op_is_silent(op: &SsaOp) -> (r: bool)
    ensures
        r == silent_op(*op),
{
    op_is_phi(op) || op_is_terminator(op) || is_frame_pointer_adjust(op) || is_param_home_store(op)
        || is_noise_stack_reload(op)
}

/// Every operation of the block is silent.
pub open spec fn forwarding(block: SsaBlock) -> bool {
    forall|i: int| 0 <= i < block.ops@.len() ==> silent_op(#[trigger] block.ops@[i])
}

/// True when a block has no surface side effects (only terminators / phis / noise).
pub fn is_forwarding_block(block: &SsaBlock) -> (r: bool)
    ensures
        r == forwarding(*block),
{
    let mut i: usize = 0;
    while i < block.ops.len()
        invariant
            i <= block.ops@.len(),
            forall|j: int| 0 <= j < i ==> silent_op(#[trigger] block.ops@[j]),
        decreases block.ops@.len() - i,
    {
        if !op_is_silent(&block.ops[i]) {
            return false;
        }
        i += 1;
    }
    true
}

/// An operation that a jump-only block does not hold.
pub open spec fn busy_op(op: SsaOp) -> bool {
    is_cbranch_op(op) || is_branch_ind_op(op) || is_call_op(op) || is_store_op(op)
}

/// The block holds a conditional or indirect branch, a call or a store.
pub open spec fn busy(block: SsaBlock) -> bool {
    exists|i: int| 0 <= i < block.ops@.len() && busy_op(#[trigger] block.ops@[i])
}

fn is_busy(block: &SsaBlock) -> (r: bool)
    ensures
        r == busy(*block),
{
    let mut i: usize = 0;
    while i < block.ops.len()
        invariant
            i <= block.ops@.len(),
            forall|j: int| 0 <= j < i ==> !busy_op(#[trigger] block.ops@[j]),
        decreases block.ops@.len() - i,
    {
        let op = &block.ops[i];
        if op_is_cbranch(op) || op_is_branch_ind(op) || op_is_call(op) || op_is_store(op) {
            return true;
        }
        i += 1;
    }
    false
}

/// One successor, no return, nothing busy and nothing to print.
pub open spec fn jump_only(block: SsaBlock) -> bool {
    block.successor_ids@.len() == 1 && !has_return(block) && !busy(block) && forwarding(block)
}

/// Unconditional jump-only: single successor, no CBranch/Return/Call/Store surface.
pub fn is_jump_only(block: &SsaBlock) -> (r: bool)
    ensures
        r == jump_only(*block),
{
    block.successor_ids.len() == 1 && !block_has_return(block) && !is_busy(block)
        && is_forwarding_block(block)
}

/// Where control ends up from `b` after at most `limit` jump-only blocks.
pub open spec fn resolve(ssa: SsaFunction, b: u32, limit: nat) -> u32
    decreases limit,
{
    if limit == 0 || b >= ssa.blocks@.len() || !jump_only(ssa.blocks@[b as int])
        || ssa.blocks@[b as int].successor_ids@[0] == b {
        b
    } else {
        resolve(ssa, ssa.blocks@[b as int].successor_ids@[0], (limit - 1) as nat)
    }
}

/// Follow jump-only chains to a non-forwarding presentation target (bounded).
pub fn resolve_jump_target(ssa: &SsaFunction, b: u32, limit: usize) -> (r: u32)
    ensures
        r == resolve(*ssa, b, limit as nat),
{
    let mut cur: u32 = b;
    let mut left: usize = limit;
    while left > 0
        invariant
            left <= limit,
            resolve(*ssa, cur, left as nat) == resolve(*ssa, b, limit as nat),
        decreases left,
    {
        if cur as usize >= ssa.blocks.len() {
            return cur;
        }
        let block = &ssa.blocks[cur as usize];
        if !is_jump_only(block) {
            return cur;
        }
        let next = block.successor_ids[0];
        if next == cur {
            return cur;
        }
        cur = next;
        left -= 1;
    }
    cur
}

/// A resolved target exists if the start exists and every successor does.
pub proof fn lemma_resolve_in_range(ssa: SsaFunction, b: u32, limit: nat)
    requires
        crate::graph::closed(ssa.succs()),
        b < ssa.blocks@.len(),
    ensures
        resolve(ssa, b, limit) < ssa.blocks@.len(),
    decreases limit,
{
    if limit == 0 || !jump_only(ssa.blocks@[b as int]) || ssa.blocks@[b as int].successor_ids@[0]
        == b {
    } else {
        assert(ssa.succs()[b as int][0] < ssa.succs().len());
        lemma_resolve_in_range(ssa, ssa.blocks@[b as int].successor_ids@[0], (limit - 1) as nat);
    }
}

/// Jump-only blocks that chain to one target resolve to the same block: looking
/// through a chain again, with room for it, changes nothing.
pub proof fn law_resolve_stable(ssa: SsaFunction, b: u32, limit: nat, more: nat)
    requires
        resolve(ssa, b, limit) >= ssa.blocks@.len() || !jump_only(
            ssa.blocks@[resolve(ssa, b, limit) as int],
        ),
    ensures
        resolve(ssa, resolve(ssa, b, limit), more) == resolve(ssa, b, limit),
{
}

/// How many jump-only blocks are looked through.
pub const JUMP_LIMIT: usize = 16;

/// The presentation successors of block `i`: `x` is one of them.
pub open spec fn presents(ssa: SsaFunction, i: int, x: u32) -> bool {
    exists|k: int|
        0 <= k < ssa.blocks@[i].successor_ids@.len() && resolve(
            ssa,
            #[trigger] ssa.blocks@[i].successor_ids@[k],
            JUMP_LIMIT as nat,
        ) == x
}

/// Map each block to its successors with jump-only edges collapsed, ascending
/// and without repetition.
pub fn presentation_successors(ssa: &SsaFunction) -> (out: Vec<Vec<u32>>)
    ensures
        out@.len() == ssa.blocks@.len(),
        forall|i: int| 0 <= i < out@.len() ==> ascending(#[trigger] out@[i]@),
        forall|i: int, x: u32|
            0 <= i < out@.len() ==> (#[trigger] out@[i]@.contains(x) <==> presents(*ssa, i, x)),
{
    let mut out: Vec<Vec<u32>> = Vec::new();
    let mut i: usize = 0;
    while i < ssa.blocks.len()
        invariant
            i <= ssa.blocks@.len(),
            out@.len() == i,
            forall|j: int| 0 <= j < i ==> ascending(#[trigger] out@[j]@),
            forall|j: int, x: u32|
                0 <= j < i ==> (#[trigger] out@[j]@.contains(x) <==> presents(*ssa, j, x)),
        decreases ssa.blocks@.len() - i,
    {
        let ids = &ssa.blocks[i].successor_ids;
        let mut row: Vec<u32> = Vec::new();
        let mut k: usize = 0;
        while k < ids.len()
            invariant
                i < ssa.blocks@.len(),
                *ids == ssa.blocks@[i as int].successor_ids,
                k <= ids@.len(),
                ascending(row@),
                forall|x: u32| #[trigger] row@.contains(x) <==> exists|j: int|
                    0 <= j < k && resolve(*ssa, #[trigger] ids@[j], JUMP_LIMIT as nat) == x,
            decreases ids@.len() - k,
        {
            let t = resolve_jump_target(ssa, ids[k], JUMP_LIMIT);
            let ghost row0 = row@;
            insert_ascending(&mut row, t);
            proof {
                assert(resolve(*ssa, ids@[k as int], JUMP_LIMIT as nat) == t);
                assert forall|x: u32| #[trigger] row@.contains(x) <==> exists|j: int|
                    0 <= j < k + 1 && resolve(*ssa, #[trigger] ids@[j], JUMP_LIMIT as nat) == x by {
                    if row0.contains(x) {
                        let j = choose|j: int|
                            0 <= j < k && resolve(*ssa, #[trigger] ids@[j], JUMP_LIMIT as nat) == x;
                        assert(0 <= j < k + 1);
                    }
                    if exists|j: int|
                        0 <= j < k + 1 && resolve(*ssa, #[trigger] ids@[j], JUMP_LIMIT as nat) == x {
                        let j = choose|j: int|
                            0 <= j < k + 1 && resolve(*ssa, #[trigger] ids@[j], JUMP_LIMIT as nat)
                                == x;
                        if j < k {
                            assert(row0.contains(x));
                        }
                    }
                }
            }
            k += 1;
        }
        proof {
            assert forall|x: u32| #[trigger] row@.contains(x) <==> presents(*ssa, i as int, x) by {}
        }
        out.push(row);
        i += 1;
    }
    out
}

/// Collapse map: each block to the block that presents it.
pub fn presentation_canon(ssa: &SsaFunction) -> (m: HashMap<u32, u32>)
    requires
        ssa.blocks@.len() <= u32::MAX,
    ensures
        m@ == Map::new(
            |i: u32| i < ssa.blocks@.len(),
            |i: u32| resolve(*ssa, i, JUMP_LIMIT as nat),
        ),
{
    let mut m: HashMap<u32, u32> = HashMap::new();
    let mut i: usize = 0;
    while i < ssa.blocks.len()
        invariant
            i <= ssa.blocks@.len(),
            ssa.blocks@.len() <= u32::MAX,
            m@ == Map::new(|k: u32| k < i, |k: u32| resolve(*ssa, k, JUMP_LIMIT as nat)),
        decreases ssa.blocks@.len() - i,
    {
        let t = resolve_jump_target(ssa, i as u32, JUMP_LIMIT);
        let ghost m0 = m@;
        m.insert(i as u32, t);
        assert(m@ =~= Map::new(|k: u32| k < i + 1, |k: u32| resolve(*ssa, k, JUMP_LIMIT as nat)));
        i += 1;
    }
    m
}

} // verus!
