//! P-code operations and the helpers the analyses share.
//!
//! Operations, varnodes and address spaces are those of `pcode_ir`; they are
//! declared here with their public fields, so contracts speak of them directly.

use vstd::prelude::*;
use pcode_ir::{AddressSpaceId, PcodeOp, Varnode};

pub use crate::lift::{locate_text_section, LiftedInstr, DECODE_STACK_SIZE};

verus! {

/// `pcode_ir::AddressSpaceId`, with its four variants.
#[verifier::external_type_specification]
pub struct ExAddressSpaceId(AddressSpaceId);

/// `pcode_ir::Varnode`, with its public fields.
#[verifier::external_type_specification]
pub struct ExVarnode(Varnode);

/// `pcode_ir::PcodeOp`, with its variants and their public fields.
#[verifier::external_type_specification]
pub struct ExPcodeOp(PcodeOp);

// ─── Varnodes ───────────────────────────────────────────────────────────────

pub open spec fn is_const(v: Varnode) -> bool {
    v.space is Const
}

pub open spec fn is_register(v: Varnode) -> bool {
    v.space is Register
}

pub open spec fn is_unique(v: Varnode) -> bool {
    v.space is Unique
}

pub open spec fn is_ram(v: Varnode) -> bool {
    v.space is Ram
}

pub fn in_const(v: &Varnode) -> (r: bool)
    ensures
        r == is_const(*v),
{
    matches!(v.space, AddressSpaceId::Const)
}

pub fn in_register(v: &Varnode) -> (r: bool)
    ensures
        r == is_register(*v),
{
    matches!(v.space, AddressSpaceId::Register)
}

pub fn in_unique(v: &Varnode) -> (r: bool)
    ensures
        r == is_unique(*v),
{
    matches!(v.space, AddressSpaceId::Unique)
}

pub fn in_ram(v: &Varnode) -> (r: bool)
    ensures
        r == is_ram(*v),
{
    matches!(v.space, AddressSpaceId::Ram)
}

/// Both stand for the same address space.
pub fn same_space(a: &AddressSpaceId, b: &AddressSpaceId) -> (r: bool)
    ensures
        r == (*a == *b),
{
    match (a, b) {
        (AddressSpaceId::Register, AddressSpaceId::Register) => true,
        (AddressSpaceId::Ram, AddressSpaceId::Ram) => true,
        (AddressSpaceId::Unique, AddressSpaceId::Unique) => true,
        (AddressSpaceId::Const, AddressSpaceId::Const) => true,
        _ => false,
    }
}

/// Both name the same storage or constant.
pub fn same_varnode(a: &Varnode, b: &Varnode) -> (r: bool)
    ensures
        r == (*a == *b),
{
    same_space(&a.space, &b.space) && a.offset == b.offset && a.size == b.size
}

// ─── Operations ─────────────────────────────────────────────────────────────

/// The varnode an operation writes. A user-defined operation counts as writing none.
pub open spec fn op_output(op: PcodeOp) -> Option<Varnode> {
    match op {
        PcodeOp::Copy { out, .. }
        | PcodeOp::Load { out, .. }
        | PcodeOp::Subpiece { out, .. } => Some(out),
        PcodeOp::IntNeg { out, .. }
        | PcodeOp::IntNot { out, .. }
        | PcodeOp::IntZext { out, .. }
        | PcodeOp::IntSext { out, .. }
        | PcodeOp::BoolNot { out, .. }
        | PcodeOp::FloatNeg { out, .. }
        | PcodeOp::FloatAbs { out, .. }
        | PcodeOp::FloatSqrt { out, .. }
        | PcodeOp::FloatNan { out, .. }
        | PcodeOp::Int2Float { out, .. }
        | PcodeOp::Float2Float { out, .. }
        | PcodeOp::Trunc { out, .. }
        | PcodeOp::FloatCeil { out, .. }
        | PcodeOp::FloatFloor { out, .. }
        | PcodeOp::FloatRound { out, .. }
        | PcodeOp::Popcount { out, .. }
        | PcodeOp::Lzcount { out, .. } => Some(out),
        PcodeOp::IntAdd { out, .. }
        | PcodeOp::IntSub { out, .. }
        | PcodeOp::IntMult { out, .. }
        | PcodeOp::IntDiv { out, .. }
        | PcodeOp::IntSDiv { out, .. }
        | PcodeOp::IntRem { out, .. }
        | PcodeOp::IntSRem { out, .. }
        | PcodeOp::IntEq { out, .. }
        | PcodeOp::IntNotEq { out, .. }
        | PcodeOp::IntLess { out, .. }
        | PcodeOp::IntLessEq { out, .. }
        | PcodeOp::IntSLess { out, .. }
        | PcodeOp::IntSLessEq { out, .. }
        | PcodeOp::IntAnd { out, .. }
        | PcodeOp::IntOr { out, .. }
        | PcodeOp::IntXor { out, .. }
        | PcodeOp::IntLsl { out, .. }
        | PcodeOp::IntLsr { out, .. }
        | PcodeOp::IntAsr { out, .. }
        | PcodeOp::IntCarry { out, .. }
        | PcodeOp::IntSCarry { out, .. }
        | PcodeOp::IntSBorrow { out, .. }
        | PcodeOp::BoolAnd { out, .. }
        | PcodeOp::BoolOr { out, .. }
        | PcodeOp::BoolXor { out, .. }
        | PcodeOp::FloatAdd { out, .. }
        | PcodeOp::FloatSub { out, .. }
        | PcodeOp::FloatMult { out, .. }
        | PcodeOp::FloatDiv { out, .. }
        | PcodeOp::FloatEq { out, .. }
        | PcodeOp::FloatNotEq { out, .. }
        | PcodeOp::FloatLess { out, .. }
        | PcodeOp::FloatLessEq { out, .. } => Some(out),
        _ => None,
    }
}

/// The varnodes an operation reads, in operand order.
pub open spec fn op_reads(op: PcodeOp) -> Seq<Varnode> {
    match op {
        PcodeOp::Copy { input, .. } | PcodeOp::Subpiece { input, .. } => seq![input],
        PcodeOp::Load { ptr, .. } => seq![ptr],
        PcodeOp::Store { ptr, val, .. } => seq![ptr, val],
        PcodeOp::Branch { dest }
        | PcodeOp::BranchInd { dest }
        | PcodeOp::Call { dest }
        | PcodeOp::CallInd { dest }
        | PcodeOp::Return { dest } => seq![dest],
        PcodeOp::CBranch { dest, cond } => seq![dest, cond],
        PcodeOp::IntNeg { input, .. }
        | PcodeOp::IntNot { input, .. }
        | PcodeOp::IntZext { input, .. }
        | PcodeOp::IntSext { input, .. }
        | PcodeOp::BoolNot { input, .. }
        | PcodeOp::FloatNeg { input, .. }
        | PcodeOp::FloatAbs { input, .. }
        | PcodeOp::FloatSqrt { input, .. }
        | PcodeOp::FloatNan { input, .. }
        | PcodeOp::Int2Float { input, .. }
        | PcodeOp::Float2Float { input, .. }
        | PcodeOp::Trunc { input, .. }
        | PcodeOp::FloatCeil { input, .. }
        | PcodeOp::FloatFloor { input, .. }
        | PcodeOp::FloatRound { input, .. }
        | PcodeOp::Popcount { input, .. }
        | PcodeOp::Lzcount { input, .. } => seq![input],
        PcodeOp::IntAdd { left, right, .. }
        | PcodeOp::IntSub { left, right, .. }
        | PcodeOp::IntMult { left, right, .. }
        | PcodeOp::IntDiv { left, right, .. }
        | PcodeOp::IntSDiv { left, right, .. }
        | PcodeOp::IntRem { left, right, .. }
        | PcodeOp::IntSRem { left, right, .. }
        | PcodeOp::IntEq { left, right, .. }
        | PcodeOp::IntNotEq { left, right, .. }
        | PcodeOp::IntLess { left, right, .. }
        | PcodeOp::IntLessEq { left, right, .. }
        | PcodeOp::IntSLess { left, right, .. }
        | PcodeOp::IntSLessEq { left, right, .. }
        | PcodeOp::IntAnd { left, right, .. }
        | PcodeOp::IntOr { left, right, .. }
        | PcodeOp::IntXor { left, right, .. }
        | PcodeOp::IntLsl { left, right, .. }
        | PcodeOp::IntLsr { left, right, .. }
        | PcodeOp::IntAsr { left, right, .. }
        | PcodeOp::IntCarry { left, right, .. }
        | PcodeOp::IntSCarry { left, right, .. }
        | PcodeOp::IntSBorrow { left, right, .. }
        | PcodeOp::BoolAnd { left, right, .. }
        | PcodeOp::BoolOr { left, right, .. }
        | PcodeOp::BoolXor { left, right, .. }
        | PcodeOp::FloatAdd { left, right, .. }
        | PcodeOp::FloatSub { left, right, .. }
        | PcodeOp::FloatMult { left, right, .. }
        | PcodeOp::FloatDiv { left, right, .. }
        | PcodeOp::FloatEq { left, right, .. }
        | PcodeOp::FloatNotEq { left, right, .. }
        | PcodeOp::FloatLess { left, right, .. }
        | PcodeOp::FloatLessEq { left, right, .. } => seq![left, right],
        PcodeOp::CallOther { inputs, .. } => inputs@,
    }
}

/// `pcode_ir::get_output` returns the `out` field of an operation that has a
/// single one; branches, calls, returns, stores and user-defined operations
/// have none.
pub assume_specification[ pcode_ir::get_output ](op: &PcodeOp) -> (r: Option<Varnode>)
    ensures
        r == op_output(*op),
;

/// `pcode_ir::visit_reads` hands each varnode that the operation reads to a
/// callback, in operand order; here they are collected.
#[verifier::external_body]
pub(crate) fn reads_of(op: &PcodeOp) -> (r: Vec<Varnode>)
    ensures
        r@ == op_reads(*op),
{
    let mut reads = Vec::new();
    pcode_ir::visit_reads(op, &mut |v: &Varnode| reads.push(*v));
    reads
}

/// An operation as a value: a user-defined one by the sequence of its inputs.
pub ghost enum PcodeView {
    Plain(PcodeOp),
    CallOther { out: Option<Varnode>, func_id: u64, inputs: Seq<Varnode> },
}

pub open spec fn op_view(op: PcodeOp) -> PcodeView {
    match op {
        PcodeOp::CallOther { out, func_id, inputs } => PcodeView::CallOther {
            out,
            func_id,
            inputs: inputs@,
        },
        _ => PcodeView::Plain(op),
    }
}

/// The derived `Clone` of `pcode_ir::PcodeOp` keeps the variant and every field.
pub assume_specification[ <PcodeOp as Clone>::clone ](op: &PcodeOp) -> (r: PcodeOp)
    ensures
        op_view(r) == op_view(*op),
;

/// A direct or indirect call.
pub open spec fn is_call(op: PcodeOp) -> bool {
    op is Call || op is CallInd
}

} // verus!
