//! Shape tests on SSA operations and blocks that the analyses and the printer share.

use vstd::prelude::*;
use pcode_ir::{PcodeOp, Varnode};
use crate::lines::lower_text;
use crate::pcode::{in_const, in_ram, in_register, is_const, is_ram, is_register};
use crate::ssa::lower::register_container_base;
use crate::ssa::lower::container_base;
use crate::ssa::{Location, SsaBlock, SsaFunction, SsaOp, SsaOpKind};
use crate::text::{chars_of, has, has_lit};

verus! {

// ─── Kinds of operation ─────────────────────────────────────────────────────

/// The carried P-code operation, if the operation is not a phi.
pub open spec fn pcode(op: SsaOp) -> Option<PcodeOp> {
    match op.kind {
        SsaOpKind::Pcode(p) => Some(p),
        SsaOpKind::Phi(_) => None,
    }
}

/// `op` is a return.
pub open spec fn is_return_op(op: SsaOp) -> bool {
    match op.kind {
        SsaOpKind::Pcode(p) => p is Return,
        SsaOpKind::Phi(_) => false,
    }
}

pub fn op_is_return(op: &SsaOp) -> (r: bool)
    ensures
        r == is_return_op(*op),
{
    matches!(
        &op.kind,
        SsaOpKind::Pcode(PcodeOp::Return { .. })
    )
}

/// `op` is a conditional branch.
pub open spec fn is_cbranch_op(op: SsaOp) -> bool {
    match op.kind {
        SsaOpKind::Pcode(p) => p is CBranch,
        SsaOpKind::Phi(_) => false,
    }
}

pub fn op_is_cbranch(op: &SsaOp) -> (r: bool)
    ensures
        r == is_cbranch_op(*op),
{
    matches!(
        &op.kind,
        SsaOpKind::Pcode(PcodeOp::CBranch { .. })
    )
}

/// `op` is an indirect branch.
pub open spec fn is_branch_ind_op(op: SsaOp) -> bool {
    match op.kind {
        SsaOpKind::Pcode(p) => p is BranchInd,
        SsaOpKind::Phi(_) => false,
    }
}

pub fn op_is_branch_ind(op: &SsaOp) -> (r: bool)
    ensures
        r == is_branch_ind_op(*op),
{
    matches!(
        &op.kind,
        SsaOpKind::Pcode(PcodeOp::BranchInd { .. })
    )
}

/// `op` is a store.
pub open spec fn is_store_op(op: SsaOp) -> bool {
    match op.kind {
        SsaOpKind::Pcode(p) => p is Store,
        SsaOpKind::Phi(_) => false,
    }
}

pub fn op_is_store(op: &SsaOp) -> (r: bool)
    ensures
        r == is_store_op(*op),
{
    matches!(
        &op.kind,
        SsaOpKind::Pcode(PcodeOp::Store { .. })
    )
}

/// `op` is a load.
pub open spec fn is_load_op(op: SsaOp) -> bool {
    match op.kind {
        SsaOpKind::Pcode(p) => p is Load,
        SsaOpKind::Phi(_) => false,
    }
}

pub fn op_is_load(op: &SsaOp) -> (r: bool)
    ensures
        r == is_load_op(*op),
{
    matches!(
        &op.kind,
        SsaOpKind::Pcode(PcodeOp::Load { .. })
    )
}

/// `op` is a direct or indirect call.
pub open spec fn is_call_op(op: SsaOp) -> bool {
    match op.kind {
        SsaOpKind::Pcode(p) => p is Call || p is CallInd,
        SsaOpKind::Phi(_) => false,
    }
}

pub fn op_is_call(op: &SsaOp) -> (r: bool)
    ensures
        r == is_call_op(*op),
{
    matches!(
        &op.kind,
        SsaOpKind::Pcode(PcodeOp::Call { .. })
            | SsaOpKind::Pcode(PcodeOp::CallInd { .. })
    )
}

/// `op` is a copy.
pub open spec fn is_copy_op(op: SsaOp) -> bool {
    match op.kind {
        SsaOpKind::Pcode(p) => p is Copy,
        SsaOpKind::Phi(_) => false,
    }
}

pub fn op_is_copy(op: &SsaOp) -> (r: bool)
    ensures
        r == is_copy_op(*op),
{
    matches!(
        &op.kind,
        SsaOpKind::Pcode(PcodeOp::Copy { .. })
    )
}

/// `op` is an exclusive or.
pub open spec fn is_xor_op(op: SsaOp) -> bool {
    match op.kind {
        SsaOpKind::Pcode(p) => p is IntXor,
        SsaOpKind::Phi(_) => false,
    }
}

pub fn op_is_xor(op: &SsaOp) -> (r: bool)
    ensures
        r == is_xor_op(*op),
{
    matches!(
        &op.kind,
        SsaOpKind::Pcode(PcodeOp::IntXor { .. })
    )
}

/// `op` is a transfer of control.
pub open spec fn is_terminator_op(op: SsaOp) -> bool {
    match op.kind {
        SsaOpKind::Pcode(p) => p is Branch || p is CBranch || p is BranchInd || p is Return,
        SsaOpKind::Phi(_) => false,
    }
}

pub fn op_is_terminator(op: &SsaOp) -> (r: bool)
    ensures
        r == is_terminator_op(*op),
{
    matches!(
        &op.kind,
        SsaOpKind::Pcode(PcodeOp::Branch { .. })
            | SsaOpKind::Pcode(PcodeOp::CBranch { .. })
            | SsaOpKind::Pcode(PcodeOp::BranchInd { .. })
            | SsaOpKind::Pcode(PcodeOp::Return { .. })
    )
}

/// `op` is a transfer of control or a call of any kind.
pub open spec fn is_protected_op(op: SsaOp) -> bool {
    match op.kind {
        SsaOpKind::Pcode(p) => p is CBranch || p is Branch || p is BranchInd || p is Return || p is Call || p is CallInd || p is CallOther,
        SsaOpKind::Phi(_) => false,
    }
}

pub fn op_is_protected(op: &SsaOp) -> (r: bool)
    ensures
        r == is_protected_op(*op),
{
    matches!(
        &op.kind,
        SsaOpKind::Pcode(PcodeOp::CBranch { .. })
            | SsaOpKind::Pcode(PcodeOp::Branch { .. })
            | SsaOpKind::Pcode(PcodeOp::BranchInd { .. })
            | SsaOpKind::Pcode(PcodeOp::Return { .. })
            | SsaOpKind::Pcode(PcodeOp::Call { .. })
            | SsaOpKind::Pcode(PcodeOp::CallInd { .. })
            | SsaOpKind::Pcode(PcodeOp::CallOther { .. })
    )
}

/// `op` is a copy, a width change or a unary operation.
pub open spec fn is_cheap_op(op: SsaOp) -> bool {
    match op.kind {
        SsaOpKind::Pcode(p) => p is Copy || p is IntZext || p is IntSext || p is Subpiece || p is IntNeg || p is IntNot || p is BoolNot,
        SsaOpKind::Phi(_) => false,
    }
}

pub fn op_is_cheap(op: &SsaOp) -> (r: bool)
    ensures
        r == is_cheap_op(*op),
{
    matches!(
        &op.kind,
        SsaOpKind::Pcode(PcodeOp::Copy { .. })
            | SsaOpKind::Pcode(PcodeOp::IntZext { .. })
            | SsaOpKind::Pcode(PcodeOp::IntSext { .. })
            | SsaOpKind::Pcode(PcodeOp::Subpiece { .. })
            | SsaOpKind::Pcode(PcodeOp::IntNeg { .. })
            | SsaOpKind::Pcode(PcodeOp::IntNot { .. })
            | SsaOpKind::Pcode(PcodeOp::BoolNot { .. })
    )
}

/// `op` is an arithmetic, bitwise or comparison operation with two operands.
pub open spec fn is_arith_op(op: SsaOp) -> bool {
    match op.kind {
        SsaOpKind::Pcode(p) => p is IntAdd || p is IntSub || p is IntMult || p is IntDiv || p is IntSDiv || p is IntAnd || p is IntOr || p is IntXor || p is IntLsl || p is IntLsr || p is IntEq || p is IntNotEq || p is IntLess || p is IntLessEq || p is IntSLess || p is IntSLessEq,
        SsaOpKind::Phi(_) => false,
    }
}

pub fn op_is_arith(op: &SsaOp) -> (r: bool)
    ensures
        r == is_arith_op(*op),
{
    matches!(
        &op.kind,
        SsaOpKind::Pcode(PcodeOp::IntAdd { .. })
            | SsaOpKind::Pcode(PcodeOp::IntSub { .. })
            | SsaOpKind::Pcode(PcodeOp::IntMult { .. })
            | SsaOpKind::Pcode(PcodeOp::IntDiv { .. })
            | SsaOpKind::Pcode(PcodeOp::IntSDiv { .. })
            | SsaOpKind::Pcode(PcodeOp::IntAnd { .. })
            | SsaOpKind::Pcode(PcodeOp::IntOr { .. })
            | SsaOpKind::Pcode(PcodeOp::IntXor { .. })
            | SsaOpKind::Pcode(PcodeOp::IntLsl { .. })
            | SsaOpKind::Pcode(PcodeOp::IntLsr { .. })
            | SsaOpKind::Pcode(PcodeOp::IntEq { .. })
            | SsaOpKind::Pcode(PcodeOp::IntNotEq { .. })
            | SsaOpKind::Pcode(PcodeOp::IntLess { .. })
            | SsaOpKind::Pcode(PcodeOp::IntLessEq { .. })
            | SsaOpKind::Pcode(PcodeOp::IntSLess { .. })
            | SsaOpKind::Pcode(PcodeOp::IntSLessEq { .. })
    )
}

/// `op` is an operation that acts beyond the value it defines.
pub open spec fn is_effect_op(op: SsaOp) -> bool {
    match op.kind {
        SsaOpKind::Pcode(p) => p is Store || p is Load || p is Branch || p is CBranch || p is BranchInd || p is Call || p is CallInd || p is Return || p is CallOther,
        SsaOpKind::Phi(_) => false,
    }
}

pub fn op_is_effect(op: &SsaOp) -> (r: bool)
    ensures
        r == is_effect_op(*op),
{
    matches!(
        &op.kind,
        SsaOpKind::Pcode(PcodeOp::Store { .. })
            | SsaOpKind::Pcode(PcodeOp::Load { .. })
            | SsaOpKind::Pcode(PcodeOp::Branch { .. })
            | SsaOpKind::Pcode(PcodeOp::CBranch { .. })
            | SsaOpKind::Pcode(PcodeOp::BranchInd { .. })
            | SsaOpKind::Pcode(PcodeOp::Call { .. })
            | SsaOpKind::Pcode(PcodeOp::CallInd { .. })
            | SsaOpKind::Pcode(PcodeOp::Return { .. })
            | SsaOpKind::Pcode(PcodeOp::CallOther { .. })
    )
}

/// The block holds a return.
pub open spec fn has_return(block: SsaBlock) -> bool {
    exists|i: int| 0 <= i < block.ops@.len() && is_return_op(#[trigger] block.ops@[i])
}

pub fn block_has_return(block: &SsaBlock) -> (r: bool)
    ensures
        r == has_return(*block),
{
    let mut i: usize = 0;
    while i < block.ops.len()
        invariant
            i <= block.ops@.len(),
            forall|j: int| 0 <= j < i ==> !is_return_op(#[trigger] block.ops@[j]),
        decreases block.ops@.len() - i,
    {
        if op_is_return(&block.ops[i]) {
            return true;
        }
        i += 1;
    }
    false
}

/// The block holds a conditional branch.
pub open spec fn has_cbranch(block: SsaBlock) -> bool {
    exists|i: int| 0 <= i < block.ops@.len() && is_cbranch_op(#[trigger] block.ops@[i])
}

pub fn block_has_cbranch(block: &SsaBlock) -> (r: bool)
    ensures
        r == has_cbranch(*block),
{
    let mut i: usize = 0;
    while i < block.ops.len()
        invariant
            i <= block.ops@.len(),
            forall|j: int| 0 <= j < i ==> !is_cbranch_op(#[trigger] block.ops@[j]),
        decreases block.ops@.len() - i,
    {
        if op_is_cbranch(&block.ops[i]) {
            return true;
        }
        i += 1;
    }
    false
}

/// The block holds an indirect branch.
pub open spec fn has_branch_ind(block: SsaBlock) -> bool {
    exists|i: int| 0 <= i < block.ops@.len() && is_branch_ind_op(#[trigger] block.ops@[i])
}

pub fn block_has_branch_ind(block: &SsaBlock) -> (r: bool)
    ensures
        r == has_branch_ind(*block),
{
    let mut i: usize = 0;
    while i < block.ops.len()
        invariant
            i <= block.ops@.len(),
            forall|j: int| 0 <= j < i ==> !is_branch_ind_op(#[trigger] block.ops@[j]),
        decreases block.ops@.len() - i,
    {
        if op_is_branch_ind(&block.ops[i]) {
            return true;
        }
        i += 1;
    }
    false
}

/// `op` is a strict order test.
pub open spec fn is_less_op(op: SsaOp) -> bool {
    match op.kind {
        SsaOpKind::Pcode(p) => p is IntSLess || p is IntLess,
        SsaOpKind::Phi(_) => false,
    }
}

pub fn op_is_less(op: &SsaOp) -> (r: bool)
    ensures
        r == is_less_op(*op),
{
    matches!(
        &op.kind,
        SsaOpKind::Pcode(PcodeOp::IntSLess { .. })
            | SsaOpKind::Pcode(PcodeOp::IntLess { .. })
    )
}

/// `op` is an addition, a subtraction or a multiplication.
pub open spec fn is_ring_op(op: SsaOp) -> bool {
    match op.kind {
        SsaOpKind::Pcode(p) => p is IntAdd || p is IntSub || p is IntMult,
        SsaOpKind::Phi(_) => false,
    }
}

pub fn op_is_ring(op: &SsaOp) -> (r: bool)
    ensures
        r == is_ring_op(*op),
{
    matches!(
        &op.kind,
        SsaOpKind::Pcode(PcodeOp::IntAdd { .. })
            | SsaOpKind::Pcode(PcodeOp::IntSub { .. })
            | SsaOpKind::Pcode(PcodeOp::IntMult { .. })
    )
}

/// `op` is a memory access.
pub open spec fn is_memory_op(op: SsaOp) -> bool {
    match op.kind {
        SsaOpKind::Pcode(p) => p is Load || p is Store,
        SsaOpKind::Phi(_) => false,
    }
}

pub fn op_is_memory(op: &SsaOp) -> (r: bool)
    ensures
        r == is_memory_op(*op),
{
    matches!(
        &op.kind,
        SsaOpKind::Pcode(PcodeOp::Load { .. })
            | SsaOpKind::Pcode(PcodeOp::Store { .. })
    )
}

/// The block holds an exclusive or.
pub open spec fn has_xor(block: SsaBlock) -> bool {
    exists|i: int| 0 <= i < block.ops@.len() && is_xor_op(#[trigger] block.ops@[i])
}

pub fn block_has_xor(block: &SsaBlock) -> (r: bool)
    ensures
        r == has_xor(*block),
{
    let mut i: usize = 0;
    while i < block.ops.len()
        invariant
            i <= block.ops@.len(),
            forall|j: int| 0 <= j < i ==> !is_xor_op(#[trigger] block.ops@[j]),
        decreases block.ops@.len() - i,
    {
        if op_is_xor(&block.ops[i]) {
            return true;
        }
        i += 1;
    }
    false
}

/// The block holds a strict order test.
pub open spec fn has_less(block: SsaBlock) -> bool {
    exists|i: int| 0 <= i < block.ops@.len() && is_less_op(#[trigger] block.ops@[i])
}

pub fn block_has_less(block: &SsaBlock) -> (r: bool)
    ensures
        r == has_less(*block),
{
    let mut i: usize = 0;
    while i < block.ops.len()
        invariant
            i <= block.ops@.len(),
            forall|j: int| 0 <= j < i ==> !is_less_op(#[trigger] block.ops@[j]),
        decreases block.ops@.len() - i,
    {
        if op_is_less(&block.ops[i]) {
            return true;
        }
        i += 1;
    }
    false
}

/// The block holds an addition, a subtraction or a multiplication.
pub open spec fn has_ring(block: SsaBlock) -> bool {
    exists|i: int| 0 <= i < block.ops@.len() && is_ring_op(#[trigger] block.ops@[i])
}

pub fn block_has_ring(block: &SsaBlock) -> (r: bool)
    ensures
        r == has_ring(*block),
{
    let mut i: usize = 0;
    while i < block.ops.len()
        invariant
            i <= block.ops@.len(),
            forall|j: int| 0 <= j < i ==> !is_ring_op(#[trigger] block.ops@[j]),
        decreases block.ops@.len() - i,
    {
        if op_is_ring(&block.ops[i]) {
            return true;
        }
        i += 1;
    }
    false
}

/// The block holds a memory access.
pub open spec fn has_memory(block: SsaBlock) -> bool {
    exists|i: int| 0 <= i < block.ops@.len() && is_memory_op(#[trigger] block.ops@[i])
}

pub fn block_has_memory(block: &SsaBlock) -> (r: bool)
    ensures
        r == has_memory(*block),
{
    let mut i: usize = 0;
    while i < block.ops.len()
        invariant
            i <= block.ops@.len(),
            forall|j: int| 0 <= j < i ==> !is_memory_op(#[trigger] block.ops@[j]),
        decreases block.ops@.len() - i,
    {
        if op_is_memory(&block.ops[i]) {
            return true;
        }
        i += 1;
    }
    false
}

/// The block holds a direct or indirect call.
pub open spec fn has_call(block: SsaBlock) -> bool {
    exists|i: int| 0 <= i < block.ops@.len() && is_call_op(#[trigger] block.ops@[i])
}

pub fn block_has_call(block: &SsaBlock) -> (r: bool)
    ensures
        r == has_call(*block),
{
    let mut i: usize = 0;
    while i < block.ops.len()
        invariant
            i <= block.ops@.len(),
            forall|j: int| 0 <= j < i ==> !is_call_op(#[trigger] block.ops@[j]),
        decreases block.ops@.len() - i,
    {
        if op_is_call(&block.ops[i]) {
            return true;
        }
        i += 1;
    }
    false
}

/// `op` is a phi.
pub open spec fn is_phi_op(op: SsaOp) -> bool {
    op.kind is Phi
}

pub fn op_is_phi(op: &SsaOp) -> (r: bool)
    ensures
        r == is_phi_op(*op),
{
    matches!(&op.kind, SsaOpKind::Phi(_))
}

// ─── Shapes ─────────────────────────────────────────────────────────────────

/// Win64 home displacements of the first four integer parameters.
pub open spec fn home_disp(disp: i64) -> bool {
    disp == 0x8 || disp == 0x10 || disp == 0x18 || disp == 0x20
}

/// Win64 home / formal stack displacements for the first four integer params.
pub fn is_win64_home_disp(disp: i64) -> (r: bool)
    ensures
        r == home_disp(disp),
{
    disp == 0x8 || disp == 0x10 || disp == 0x18 || disp == 0x20
}

/// Position of a parameter register: RCX, RDX, R8, R9.
pub open spec fn param_rank(base_offset: u64) -> Option<usize> {
    if base_offset == 0x08 {
        Some(0)
    } else if base_offset == 0x10 {
        Some(1)
    } else if base_offset == 0x80 {
        Some(2)
    } else if base_offset == 0x88 {
        Some(3)
    } else {
        None
    }
}

/// GPR parameter rank for x64 Microsoft fastcall (RCX, RDX, R8, R9).
pub fn gpr_param_rank(base_offset: u64) -> (r: Option<usize>)
    ensures
        r == param_rank(base_offset),
{
    match base_offset {
        0x08 => Some(0),
        0x10 => Some(1),
        0x80 => Some(2),
        0x88 => Some(3),
        _ => None,
    }
}

/// `l` is a stack or frame pointer register.
pub open spec fn frame_location(l: Location) -> bool {
    l == (Location::Register { base_offset: 0x20 }) || l == (Location::Register { base_offset: 0x28 })
}

fn is_frame_location(l: &Location) -> (r: bool)
    ensures
        r == frame_location(*l),
{
    match l {
        Location::Register { base_offset } => *base_offset == 0x20 || *base_offset == 0x28,
        _ => false,
    }
}

/// `v` reads the stack or frame pointer.
pub open spec fn frame_varnode(v: Varnode) -> bool {
    is_register(v) && (v.offset == 0x20 || v.offset == 0x28)
}

fn is_frame_varnode(v: &Varnode) -> (r: bool)
    ensures
        r == frame_varnode(*v),
{
    in_register(v) && (v.offset == 0x20 || v.offset == 0x28)
}

/// The operation defines a home slot from a parameter register.
pub open spec fn param_home_store(op: SsaOp) -> bool {
    &&& op.def is Some
    &&& op.def->0.location matches Location::StackSlot { disp, .. } && home_disp(disp)
    &&& op.uses@.len() > 0
    &&& op.uses@[0].location matches Location::Register { base_offset } && param_rank(
        base_offset,
    ) is Some
}

/// Whether this store only echoes a parameter into its home slot.
///
/// Only the four fixed home slots count: an ordinary local written from a
/// parameter register is no home.
pub fn is_param_home_store(op: &SsaOp) -> (r: bool)
    ensures
        r == param_home_store(*op),
{
    match &op.def {
        Some(def) => match def.location {
            Location::StackSlot { disp, .. } => {
                if !is_win64_home_disp(disp) || op.uses.len() == 0 {
                    return false;
                }
                match op.uses[0].location {
                    Location::Register { base_offset } => gpr_param_rank(base_offset).is_some(),
                    _ => false,
                }
            },
            _ => false,
        },
        None => false,
    }
}

/// The operation moves the stack or frame pointer by a frame-relative amount.
pub open spec fn frame_adjust(op: SsaOp) -> bool {
    &&& op.def is Some
    &&& frame_location(op.def->0.location)
    &&& match op.kind {
        SsaOpKind::Pcode(PcodeOp::IntAdd { left, right, .. }) => frame_varnode(left)
            || frame_varnode(right),
        SsaOpKind::Pcode(PcodeOp::IntSub { left, right, .. }) => frame_varnode(left)
            || frame_varnode(right),
        SsaOpKind::Pcode(PcodeOp::Copy { input, .. }) => frame_varnode(input),
        _ => false,
    }
}

/// Pure frame-pointer arithmetic that must not surface as source-level state:
/// only operations that define the stack or frame pointer from itself count.
pub fn is_frame_pointer_adjust(op: &SsaOp) -> (r: bool)
    ensures
        r == frame_adjust(*op),
{
    let def_sp = match &op.def {
        Some(d) => is_frame_location(&d.location),
        None => false,
    };
    if !def_sp {
        return false;
    }
    match &op.kind {
        SsaOpKind::Pcode(PcodeOp::IntAdd { left, right, .. }) => is_frame_varnode(left)
            || is_frame_varnode(right),
        SsaOpKind::Pcode(PcodeOp::IntSub { left, right, .. }) => is_frame_varnode(left)
            || is_frame_varnode(right),
        SsaOpKind::Pcode(PcodeOp::Copy { input, .. }) => is_frame_varnode(input),
        _ => false,
    }
}

/// Operations that are never folded away: transfers of control and calls.
pub fn is_protected_schema_op(op: &SsaOp) -> (r: bool)
    ensures
        r == is_protected_op(*op),
{
    op_is_protected(op)
}

/// A pure value definition that may be folded into its uses.
pub open spec fn stable_pure(op: SsaOp) -> bool {
    &&& op.def is Some
    &&& op.kind is Pcode
    &&& !is_effect_op(op)
    &&& !frame_adjust(op)
}

/// Pure value definitions that may be folded into any number of uses.
pub fn is_stable_contractible_pure(op: &SsaOp) -> (r: bool)
    ensures
        r == stable_pure(*op),
{
    !is_protected_schema_op(op) && !is_frame_pointer_adjust(op) && op.def.is_some() && !op_is_phi(op)
        && !op_is_effect(op)
}

/// Pure casts and copies, always safe to fold.
pub fn is_cheap_contractible(op: &SsaOp) -> (r: bool)
    ensures
        r == (is_cheap_op(*op) && stable_pure(*op)),
{
    op_is_cheap(op) && is_stable_contractible_pure(op)
}

/// Pure arithmetic that may be folded into a bounded number of uses.
pub fn is_arith_contractible(op: &SsaOp) -> (r: bool)
    ensures
        r == (is_arith_op(*op) && stable_pure(*op)),
{
    op_is_arith(op) && is_stable_contractible_pure(op)
}

/// A load whose first use is the return-address slot or the frame register itself.
pub open spec fn noise_reload(op: SsaOp) -> bool {
    &&& is_load_op(op)
    &&& op.uses@.len() > 0
    &&& match op.uses@[0].location {
        Location::StackSlot { disp, .. } => disp == 0,
        l => frame_location(l),
    }
}

/// Noise loads of the return-address / cookie slot (not source-level locals).
pub fn is_noise_stack_reload(op: &SsaOp) -> (r: bool)
    ensures
        r == noise_reload(*op),
{
    if !op_is_load(op) || op.uses.len() == 0 {
        return false;
    }
    match op.uses[0].location {
        Location::StackSlot { disp, .. } => disp == 0,
        _ => is_frame_location(&op.uses[0].location),
    }
}

/// The text mentions a byte or character type.
pub open spec fn byte_test(expr: Seq<char>) -> bool {
    let e = crate::lines::lower_all(expr);
    has(e, "char *"@) || has(e, "*(char"@) || has(e, "uint8"@) || has(e, "int8"@)
}

pub fn is_byte_test(expr: &Vec<char>) -> (r: bool)
    ensures
        r == byte_test(expr@),
{
    let e = lower_text(expr);
    has_lit(&e, "char *") || has_lit(&e, "*(char") || has_lit(&e, "uint8") || has_lit(&e, "int8")
}

/// Expression text that probes a byte or character, so that a zero beside it is
/// the null character.
pub fn looks_like_byte_zero_test(expr: &str) -> (r: bool)
    ensures
        r == byte_test(expr@),
{
    let e = chars_of(expr);
    is_byte_test(&e)
}

/// The null character as the printer writes it.
pub fn sentinel_zero_literal() -> (r: &'static str)
    ensures
        r@ == "'\\0'"@,
{
    "'\\0'"
}

// ─── Tail calls ─────────────────────────────────────────────────────────────

/// The operation adds one to RCX.
pub open spec fn increments_rcx(op: SsaOp) -> bool {
    match op.kind {
        SsaOpKind::Pcode(PcodeOp::IntAdd { out, left, right }) => {
            &&& is_register(out) && container_base(out.offset) == 0x08
            &&& is_register(left) && container_base(left.offset) == 0x08
            &&& is_const(right) && right.offset == 1
        },
        _ => false,
    }
}

fn op_increments_rcx(op: &SsaOp) -> (r: bool)
    ensures
        r == increments_rcx(*op),
{
    match &op.kind {
        SsaOpKind::Pcode(PcodeOp::IntAdd { out, left, right }) => {
            in_register(out) && register_container_base(out.offset) == 0x08 && in_register(left)
                && register_container_base(left.offset) == 0x08 && in_const(right) && right.offset == 1
        },
        _ => false,
    }
}

/// A conditional or indirect branch or a call.
pub open spec fn is_branchy_op(op: SsaOp) -> bool {
    is_cbranch_op(op) || is_branch_ind_op(op) || is_call_op(op)
}

fn op_is_branchy(op: &SsaOp) -> (r: bool)
    ensures
        r == is_branchy_op(*op),
{
    op_is_cbranch(op) || op_is_branch_ind(op) || op_is_call(op)
}

/// The block holds a conditional or indirect branch or a call.
pub open spec fn has_branchy(block: SsaBlock) -> bool {
    exists|i: int| 0 <= i < block.ops@.len() && is_branchy_op(#[trigger] block.ops@[i])
}

pub fn block_has_branchy(block: &SsaBlock) -> (r: bool)
    ensures
        r == has_branchy(*block),
{
    let mut i: usize = 0;
    while i < block.ops.len()
        invariant
            i <= block.ops@.len(),
            forall|j: int| 0 <= j < i ==> !is_branchy_op(#[trigger] block.ops@[j]),
        decreases block.ops@.len() - i,
    {
        if op_is_branchy(&block.ops[i]) {
            return true;
        }
        i += 1;
    }
    false
}

/// The block adds one to RCX.
pub open spec fn has_rcx_increment(block: SsaBlock) -> bool {
    exists|i: int| 0 <= i < block.ops@.len() && increments_rcx(#[trigger] block.ops@[i])
}

pub fn block_increments_rcx(block: &SsaBlock) -> (r: bool)
    ensures
        r == has_rcx_increment(*block),
{
    let mut i: usize = 0;
    while i < block.ops.len()
        invariant
            i <= block.ops@.len(),
            forall|j: int| 0 <= j < i ==> !increments_rcx(#[trigger] block.ops@[j]),
        decreases block.ops@.len() - i,
    {
        if op_increments_rcx(&block.ops[i]) {
            return true;
        }
        i += 1;
    }
    false
}

/// Some block starts at `va`, or some operation lies at `va`.
pub open spec fn function_holds(ssa: SsaFunction, va: u64) -> bool {
    ||| exists|b: int| 0 <= b < ssa.blocks@.len() && (#[trigger] ssa.blocks@[b]).entry_va == va
    ||| exists|b: int, i: int|
        0 <= b < ssa.blocks@.len() && 0 <= i < ssa.blocks@[b].ops@.len()
            && (#[trigger] ssa.blocks@[b].ops@[i]).va == va
}

/// The function is one block that increments RCX and ends in a jump to `dest`,
/// an address of at least `0x1000` outside the function.
pub open spec fn tail_calls(ssa: SsaFunction, dest: Varnode) -> bool {
    &&& is_const(dest) || is_ram(dest)
    &&& dest.offset >= 0x1000
    &&& ssa.blocks@.len() == 1
    &&& !has_branchy(ssa.blocks@[0])
    &&& has_rcx_increment(ssa.blocks@[0])
    &&& ssa.blocks@[0].ops@.len() > 0
    &&& ssa.blocks@[0].ops@.last().kind matches SsaOpKind::Pcode(PcodeOp::Branch { dest: d })
        && d.offset == dest.offset
    &&& !function_holds(ssa, dest.offset)
}

/// A single block that increments RCX and jumps to a foreign address is a tail
/// call of that address.
///
/// Only this form counts, so that ordinary control residuals are left alone.
pub fn external_tail_call_target(ssa: &SsaFunction, dest: Varnode) -> (r: Option<u64>)
    ensures
        r == if tail_calls(*ssa, dest) {
            Some(dest.offset)
        } else {
            None
        },
{
    if !in_const(&dest) && !in_ram(&dest) {
        return None;
    }
    let va = dest.offset;
    if va < 0x1000 || ssa.blocks.len() != 1 {
        return None;
    }
    let block = &ssa.blocks[0];
    if block_has_branchy(block) || !block_increments_rcx(block) || block.ops.len() == 0 {
        return None;
    }
    let last = &block.ops[block.ops.len() - 1];
    let jumps = match &last.kind {
        SsaOpKind::Pcode(PcodeOp::Branch { dest: d }) => d.offset == va,
        _ => false,
    };
    if !jumps || block.entry_va == va {
        assert(block.entry_va == va ==> ssa.blocks@[0].entry_va == va);
        return None;
    }
    let mut i: usize = 0;
    while i < block.ops.len()
        invariant
            i <= block.ops@.len(),
            *block == ssa.blocks@[0],
            va == dest.offset,
            ssa.blocks@.len() == 1,
            forall|j: int| 0 <= j < i ==> (#[trigger] block.ops@[j]).va != va,
        decreases block.ops@.len() - i,
    {
        if block.ops[i].va == va {
            assert(ssa.blocks@[0].ops@[i as int].va == va);
            return None;
        }
        i += 1;
    }
    Some(va)
}

} // verus!
