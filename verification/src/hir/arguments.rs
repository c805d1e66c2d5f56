//! Where the arguments and the target of a lifted call come from.

use vstd::prelude::*;
use pcode_ir::{AddressSpaceId, PcodeOp, Varnode};
use crate::hir::abi::{volatile_state, ArgumentView, CallView, LocationView, TargetView, Win64ArgumentClass};
use crate::hir::ValueId;
use crate::hir::lowering::{argument_register, arguments_of, call_at, call_destination, cut_off, key_at, left_alone, lemma_lifted_blocks, lemma_lifted_ops, lifted, lifted_at, lifted_blocks, lifted_ops, local_definition, only_calls_added, target_of, target_register, target_temporary, Lifted, LoweringView, SsaOperationKey};
use crate::hir::register::{Gpr, Register, SliceView};
use crate::normalize::function_holds;
use crate::pcode::PcodeView;
use crate::ssa::lower::container_base;
use crate::ssa::reach::used_from;
use crate::ssa::{KindView, Location, OpView, SsaFunction, SsaOp, SsaOpKind, SsaVar};
use crate::structure::statements::{argument_at, call_arguments, known_arguments, one_variable_each, required_count, variable_of};

verus! {

/// The offset of a general-purpose register in the register space.
pub open spec fn container(g: Gpr) -> u64 {
    match g {
        Gpr::Rax => 0x00,
        Gpr::Rcx => 0x08,
        Gpr::Rdx => 0x10,
        Gpr::Rbx => 0x18,
        Gpr::Rsp => 0x20,
        Gpr::Rbp => 0x28,
        Gpr::Rsi => 0x30,
        Gpr::Rdi => 0x38,
        Gpr::R8 => 0x80,
        Gpr::R9 => 0x88,
        Gpr::R10 => 0x90,
        Gpr::R11 => 0x98,
        Gpr::R12 => 0xa0,
        Gpr::R13 => 0xa8,
        Gpr::R14 => 0xb0,
        Gpr::R15 => 0xb8,
    }
}

/// The register of an argument position.
pub open spec fn passed_in(position: int) -> Gpr {
    if position == 0 {
        Gpr::Rcx
    } else if position == 1 {
        Gpr::Rdx
    } else if position == 2 {
        Gpr::R8
    } else {
        Gpr::R9
    }
}

/// The operation calls, directly or not.
pub open spec fn transfers(op: OpView) -> bool {
    op.kind matches KindView::Pcode(PcodeView::Plain(p)) && (p matches PcodeOp::Call { .. } || p matches PcodeOp::CallInd { .. })
}

/// Operation `j` sets `v`, the last setting of the register before operation `index`, with
/// no call from there on.
pub open spec fn set_at(ops: Seq<OpView>, index: int, v: SsaVar, c: u64, j: int) -> bool {
    &&& 0 <= j < index
    &&& ops[j].def == Some(v)
    &&& v.location == (Location::Register { base_offset: c })
    &&& forall|k: int| j <= k < index ==> !transfers(#[trigger] ops[k])
    &&& forall|k: int|
        j < k < index ==> !((#[trigger] ops[k]).def matches Some(w) && w.location == (Location::Register {
            base_offset: c,
        }))
}

/// `v` is what the register at `c` holds at operation `index`, as the block shows it.
pub open spec fn held(ops: Seq<OpView>, index: int, v: SsaVar, c: u64) -> bool {
    exists|j: int| #[trigger] set_at(ops, index, v, c, j)
}

/// The operation uses the register at `c`.
pub open spec fn uses_register(op: OpView, c: u64) -> bool {
    exists|k: int| 0 <= k < op.uses.len() && (#[trigger] op.uses[k]).location == (Location::Register { base_offset: c })
}

/// The operation passes what is in the register: a direct call passes the registers that it
/// uses, and a jump that is a call passes RCX.
pub open spec fn passes(op: OpView, g: Gpr) -> bool {
    op.kind matches KindView::Pcode(PcodeView::Plain(p)) && match p {
        PcodeOp::Call { .. } => uses_register(op, container(g)),
        PcodeOp::Branch { .. } => g == Gpr::Rcx,
        _ => false,
    }
}

/// The argument is what register `g` holds at the call, and says so.
pub open spec fn taken_from(values: Map<SsaVar, ValueId>, ops: Seq<OpView>, index: int, a: ArgumentView, g: Gpr) -> bool {
    &&& a.locations == seq![
        LocationView::Register(SliceView { register: Register::Gpr(g), bit_offset: 0, bit_width: 64 }),
    ]
    &&& a.class == Win64ArgumentClass::Integer
    &&& passes(ops[index], g)
    &&& exists|v: SsaVar| #[trigger]
        held(ops, index, v, container(g)) && values.dom().contains(v) && values[v] == a.value
}

/// The arguments of a call: in order of their positions, each is what the register that it
/// names holds, and no register that is passed and known is left out.
pub open spec fn fitting(values: Map<SsaVar, ValueId>, ops: Seq<OpView>, index: int, args: Seq<ArgumentView>) -> bool {
    &&& forall|k: int|
        0 <= k < args.len() ==> (#[trigger] args[k]).position < 4 && taken_from(
            values,
            ops,
            index,
            args[k],
            passed_in(args[k].position as int),
        )
    &&& forall|i: int, j: int|
        0 <= i < j < args.len() ==> (#[trigger] args[i]).position < (#[trigger] args[j]).position
    &&& forall|p: int, v: SsaVar|
        0 <= p < 4 && passes(ops[index], passed_in(p)) && #[trigger] held(ops, index, v, container(passed_in(p)))
            && values.dom().contains(v) ==> exists|k: int|
            0 <= k < args.len() && (#[trigger] args[k]).position == p
}

// ─── Proofs ─────────────────────────────────────────────────────────────────

proof fn lemma_local(ops: Seq<OpView>, c: u64, n: int)
    requires
        0 <= n <= ops.len(),
    ensures
        match local_definition(ops, c, n) {
            Some(v) => held(ops, n, v, c),
            None => forall|v: SsaVar| !#[trigger] held(ops, n, v, c),
        },
    decreases n,
{
    if n > 0 {
        lemma_local(ops, c, n - 1);
        let op = ops[n - 1];
        if transfers(op) {
            assert forall|v: SsaVar| !#[trigger] held(ops, n, v, c) by {
                if held(ops, n, v, c) {
                    let j = choose|j: int| #[trigger] set_at(ops, n, v, c, j);
                    assert(!transfers(ops[n - 1]));
                }
            }
        } else if op.def matches Some(v) && v.location == (Location::Register { base_offset: c }) {
            assert(set_at(ops, n, op.def->0, c, n - 1));
        } else {
            if let Some(v) = local_definition(ops, c, n - 1) {
                let j = choose|j: int| #[trigger] set_at(ops, n - 1, v, c, j);
                assert(set_at(ops, n, v, c, j));
            }
            assert forall|v: SsaVar| #[trigger] held(ops, n, v, c) implies held(ops, n - 1, v, c) by {
                let j = choose|j: int| #[trigger] set_at(ops, n, v, c, j);
                assert(set_at(ops, n - 1, v, c, j));
            }
        }
    } else {
        assert forall|v: SsaVar| !#[trigger] held(ops, n, v, c) by {
            if held(ops, n, v, c) {
                let j = choose|j: int| #[trigger] set_at(ops, n, v, c, j);
            }
        }
    }
}

proof fn lemma_held_one(ops: Seq<OpView>, n: int, v: SsaVar, w: SsaVar, c: u64)
    requires
        held(ops, n, v, c),
        held(ops, n, w, c),
    ensures
        v == w,
{
    let i = choose|i: int| #[trigger] set_at(ops, n, v, c, i);
    let j = choose|j: int| #[trigger] set_at(ops, n, w, c, j);
    if i < j {
        assert(ops[j].def == Some(w));
    } else if j < i {
        assert(ops[i].def == Some(v));
    }
}

proof fn lemma_uses(op: OpView, c: u64, i: int)
    requires
        0 <= i <= op.uses.len(),
    ensures
        match used_from(op.uses, c, i) {
            Some(v) => exists|k: int|
                i <= k < op.uses.len() && (#[trigger] op.uses[k]) == v && v.location == (Location::Register {
                    base_offset: c,
                }) && forall|l: int|
                    i <= l < k ==> (#[trigger] op.uses[l]).location != (Location::Register { base_offset: c }),
            None => forall|k: int|
                i <= k < op.uses.len() ==> (#[trigger] op.uses[k]).location != (Location::Register { base_offset: c }),
        },
    decreases op.uses.len() - i,
{
    if i < op.uses.len() {
        lemma_uses(op, c, i + 1);
        if used_from(op.uses, c, i) is Some && op.uses[i].location != (Location::Register { base_offset: c }) {
            let v = used_from(op.uses, c, i)->0;
            let k = choose|k: int|
                i + 1 <= k < op.uses.len() && (#[trigger] op.uses[k]) == v && v.location == (Location::Register {
                    base_offset: c,
                }) && forall|l: int|
                    i + 1 <= l < k ==> (#[trigger] op.uses[l]).location != (Location::Register { base_offset: c });
            assert(op.uses[k] == v);
        } else if used_from(op.uses, c, i) is Some {
            assert(op.uses[i] == used_from(op.uses, c, i)->0);
        }
    }
}

proof fn lemma_arguments(values: Map<SsaVar, ValueId>, ops: Seq<OpView>, index: int, n: int)
    requires
        0 <= n <= 4,
        0 <= index < ops.len(),
    ensures
        ({
            let args = arguments_of(values, ops, index, n);
            &&& forall|k: int|
                0 <= k < args.len() ==> (#[trigger] args[k]).position < n && taken_from(
                    values,
                    ops,
                    index,
                    args[k],
                    passed_in(args[k].position as int),
                )
            &&& forall|i: int, j: int|
                0 <= i < j < args.len() ==> (#[trigger] args[i]).position < (#[trigger] args[j]).position
            &&& forall|p: int, v: SsaVar|
                0 <= p < n && passes(ops[index], passed_in(p)) && #[trigger] held(
                    ops,
                    index,
                    v,
                    container(passed_in(p)),
                ) && values.dom().contains(v) ==> exists|k: int|
                    0 <= k < args.len() && (#[trigger] args[k]).position == p
        }),
    decreases n,
{
    if n > 0 {
        lemma_arguments(values, ops, index, n - 1);
        let less = arguments_of(values, ops, index, n - 1);
        let args = arguments_of(values, ops, index, n);
        let g = passed_in(n - 1);
        assert(container(g) == argument_register(n - 1));
        lemma_local(ops, container(g), index);
        lemma_uses(ops[index], container(g), 0);
        assert forall|p: int, v: SsaVar|
            0 <= p < n && passes(ops[index], passed_in(p)) && #[trigger] held(ops, index, v, container(passed_in(p)))
                && values.dom().contains(v) implies exists|k: int|
            0 <= k < args.len() && (#[trigger] args[k]).position == p by {
            if p < n - 1 {
                let k = choose|k: int| 0 <= k < less.len() && (#[trigger] less[k]).position == p;
                assert(args[k] == less[k]);
            } else {
                lemma_held_one(ops, index, v, local_definition(ops, container(g), index)->0, container(g));
                assert(args[args.len() - 1].position == p);
            }
        }
    }
}

/// The value of every argument of a call comes from the storage that the argument names,
/// as it was last set in the block before the call.
pub proof fn law_arguments_fit(values: Map<SsaVar, ValueId>, ops: Seq<OpView>, index: int)
    requires
        0 <= index < ops.len(),
    ensures
        fitting(values, ops, index, arguments_of(values, ops, index, 4)),
{
    lemma_arguments(values, ops, index, 4);
}

/// A direct call that uses all four argument registers, each set in the block behind any
/// earlier call, has exactly four arguments: RCX, RDX, R8 and R9, in this order.
pub proof fn law_four_arguments(values: Map<SsaVar, ValueId>, ops: Seq<OpView>, index: int, a: SsaVar, b: SsaVar, c: SsaVar, d: SsaVar)
    requires
        0 <= index < ops.len(),
        ops[index].kind matches KindView::Pcode(PcodeView::Plain(PcodeOp::Call { .. })),
        uses_register(ops[index], 0x08),
        uses_register(ops[index], 0x10),
        uses_register(ops[index], 0x80),
        uses_register(ops[index], 0x88),
        held(ops, index, a, 0x08),
        held(ops, index, b, 0x10),
        held(ops, index, c, 0x80),
        held(ops, index, d, 0x88),
        values.dom().contains(a),
        values.dom().contains(b),
        values.dom().contains(c),
        values.dom().contains(d),
    ensures
        ({
            let args = arguments_of(values, ops, index, 4);
            &&& args.len() == 4
            &&& args[0].value == values[a]
            &&& args[1].value == values[b]
            &&& args[2].value == values[c]
            &&& args[3].value == values[d]
            &&& forall|k: int| 0 <= k < 4 ==> (#[trigger] args[k]).position == k
        }),
{
    law_arguments_fit(values, ops, index);
    let args = arguments_of(values, ops, index, 4);
    assert(held(ops, index, a, container(passed_in(0))));
    assert(held(ops, index, b, container(passed_in(1))));
    assert(held(ops, index, c, container(passed_in(2))));
    assert(held(ops, index, d, container(passed_in(3))));
    let k0 = choose|k: int| 0 <= k < args.len() && (#[trigger] args[k]).position == 0;
    let k1 = choose|k: int| 0 <= k < args.len() && (#[trigger] args[k]).position == 1;
    let k2 = choose|k: int| 0 <= k < args.len() && (#[trigger] args[k]).position == 2;
    let k3 = choose|k: int| 0 <= k < args.len() && (#[trigger] args[k]).position == 3;
    assert(k0 < k1 < k2 < k3);
    assert(args.len() <= 4) by {
        if args.len() > 4 {
            assert(args[0].position < args[1].position);
            assert(args[1].position < args[2].position);
            assert(args[2].position < args[3].position);
            assert(args[3].position < args[4].position);
        }
    }
    assert(taken_from(values, ops, index, args[0], Gpr::Rcx));
    assert(taken_from(values, ops, index, args[1], Gpr::Rdx));
    assert(taken_from(values, ops, index, args[2], Gpr::R8));
    assert(taken_from(values, ops, index, args[3], Gpr::R9));
    let v0 = choose|v: SsaVar| #[trigger]
        held(ops, index, v, 0x08) && values.dom().contains(v) && values[v] == args[0].value;
    let v1 = choose|v: SsaVar| #[trigger]
        held(ops, index, v, 0x10) && values.dom().contains(v) && values[v] == args[1].value;
    let v2 = choose|v: SsaVar| #[trigger]
        held(ops, index, v, 0x80) && values.dom().contains(v) && values[v] == args[2].value;
    let v3 = choose|v: SsaVar| #[trigger]
        held(ops, index, v, 0x88) && values.dom().contains(v) && values[v] == args[3].value;
    lemma_held_one(ops, index, a, v0, 0x08);
    lemma_held_one(ops, index, b, v1, 0x10);
    lemma_held_one(ops, index, c, v2, 0x80);
    lemma_held_one(ops, index, d, v3, 0x88);
}

// ─── Targets ────────────────────────────────────────────────────────────────

/// Nothing before operation `index` sets the register or calls.
pub open spec fn untouched(ops: Seq<OpView>, index: int, c: u64) -> bool {
    forall|k: int|
        0 <= k < index ==> !transfers(#[trigger] ops[k]) && !(ops[k].def matches Some(w) && w.location
            == (Location::Register { base_offset: c }))
}

/// `v` holds the computed target `dest` of the call at operation `index`: as the block last
/// set its register, or as the call uses it where the block does not touch it before.
pub open spec fn aims(ops: Seq<OpView>, index: int, dest: Varnode, v: SsaVar) -> bool {
    match dest.space {
        AddressSpaceId::Register => {
            ||| held(ops, index, v, container_base(dest.offset))
            ||| untouched(ops, index, container_base(dest.offset)) && ops[index].uses.contains(v) && v.location
                == (Location::Register { base_offset: container_base(dest.offset) })
        },
        AddressSpaceId::Unique => ops[index].uses.contains(v) && v.location == (Location::Unique {
            instruction_va: ops[index].va,
            offset: dest.offset,
            size: dest.size,
        }),
        _ => false,
    }
}

/// The target is where the call goes: the address that it names, or the value of the variable
/// that holds it.
pub open spec fn aimed(values: Map<SsaVar, ValueId>, ops: Seq<OpView>, index: int, dest: Varnode, t: TargetView) -> bool {
    match t {
        TargetView::Direct { va } => (dest.space is Const || dest.space is Ram) && va == dest.offset,
        TargetView::Indirect { target, candidates } => candidates.len() == 0 && exists|v: SsaVar| #[trigger]
            aims(ops, index, dest, v) && values.dom().contains(v) && values[v] == target,
        TargetView::Unknown => !(dest.space is Const || dest.space is Ram) && ((forall|v: SsaVar|
            !#[trigger] aims(ops, index, dest, v)) || exists|v: SsaVar| #[trigger]
            aims(ops, index, dest, v) && !values.dom().contains(v)),
        TargetView::Import { .. } => false,
    }
}

proof fn lemma_cut_off(ops: Seq<OpView>, c: u64, n: int)
    requires
        0 <= n <= ops.len(),
    ensures
        cut_off(ops, c, n) == !untouched(ops, n, c),
    decreases n,
{
    if n > 0 {
        lemma_cut_off(ops, c, n - 1);
        let op = ops[n - 1];
        if untouched(ops, n, c) {
            assert(!transfers(ops[n - 1]));
            assert(untouched(ops, n - 1, c));
        } else if untouched(ops, n - 1, c) {
            assert(exists|k: int|
                0 <= k < n && (transfers(#[trigger] ops[k]) || (ops[k].def matches Some(w) && w.location
                    == (Location::Register { base_offset: c }))));
        }
    }
}

proof fn lemma_temporary(op: OpView, dest: Varnode, i: int)
    requires
        0 <= i <= op.uses.len(),
    ensures
        ({
            let place = Location::Unique { instruction_va: op.va, offset: dest.offset, size: dest.size };
            match target_temporary(op, dest, i) {
                Some(v) => op.uses.contains(v) && v.location == place,
                None => forall|k: int| i <= k < op.uses.len() ==> (#[trigger] op.uses[k]).location != place,
            }
        }),
    decreases op.uses.len() - i,
{
    if i < op.uses.len() {
        lemma_temporary(op, dest, i + 1);
        assert(op.uses.contains(op.uses[i]));
    }
}

/// The target of a call is where it goes.
pub proof fn law_target_is_aimed(values: Map<SsaVar, ValueId>, ops: Seq<OpView>, index: int, dest: Varnode)
    requires
        0 <= index < ops.len(),
    ensures
        aimed(values, ops, index, dest, target_of(values, ops, index, dest)),
{
    let c = container_base(dest.offset);
    let op = ops[index];
    lemma_cut_off(ops, c, index);
    lemma_local(ops, c, index);
    lemma_uses(op, c, 0);
    lemma_temporary(op, dest, 0);
    let found = match dest.space {
        AddressSpaceId::Register => target_register(ops, index, c),
        AddressSpaceId::Unique => target_temporary(op, dest, 0),
        _ => None,
    };
    if dest.space is Register || dest.space is Unique {
        if let Some(v) = found {
            assert(aims(ops, index, dest, v));
        } else {
            assert forall|v: SsaVar| !#[trigger] aims(ops, index, dest, v) by {
                if dest.space is Register && untouched(ops, index, c) && op.uses.contains(v) {
                    let k = choose|k: int| 0 <= k < op.uses.len() && op.uses[k] == v;
                    assert(op.uses[k].location != (Location::Register { base_offset: c }));
                    if held(ops, index, v, c) {
                        assert(local_definition(ops, c, index) is Some);
                        let j = choose|j: int| #[trigger] set_at(ops, index, v, c, j);
                        assert(ops[j].def == Some(v));
                    }
                }
                if dest.space is Register && held(ops, index, v, c) {
                    let j = choose|j: int| #[trigger] set_at(ops, index, v, c, j);
                    assert(ops[j].def == Some(v));
                }
                if dest.space is Unique && op.uses.contains(v) {
                    let k = choose|k: int| 0 <= k < op.uses.len() && op.uses[k] == v;
                    assert(op.uses[k] == v);
                }
            }
        }
    }
}

// ─── Lifted calls ───────────────────────────────────────────────────────────

/// The operation leaves the function for a callee: a call, a jump to a foreign address, or
/// the computed jump of a function that is one block.
pub open spec fn leaves_for(ssa: SsaFunction, op: SsaOp, dest: Varnode) -> bool {
    match op.kind {
        SsaOpKind::Pcode(PcodeOp::Call { dest: d }) => d == dest,
        SsaOpKind::Pcode(PcodeOp::CallInd { dest: d }) => d == dest,
        SsaOpKind::Pcode(PcodeOp::Branch { dest: d }) => d == dest && ssa.blocks@.len() == 1 && forall|b: int, i: int|
            0 <= b < ssa.blocks@.len() && 0 <= i < ssa.blocks@[b].ops@.len() ==> (#[trigger] ssa.blocks@[b].ops@[i]).va
                != dest.offset && ssa.blocks@[b].entry_va != dest.offset,
        SsaOpKind::Pcode(PcodeOp::BranchInd { dest: d }) => d == dest && ssa.blocks@.len() == 1,
        _ => false,
    }
}

/// The call stands for operation `i` of block `b`.
pub open spec fn stands_for(ssa: SsaFunction, low: LoweringView, call: CallView, b: int, i: int) -> bool {
    let op = ssa.blocks@[b].ops@[i];
    let ops = ssa.blocks@[b]@.ops;
    &&& 0 <= b < ssa.blocks@.len()
    &&& 0 <= i < ssa.blocks@[b].ops@.len()
    &&& fitting(low.values, ops, i, call.arguments)
    &&& exists|dest: Varnode| #[trigger]
        leaves_for(ssa, op, dest) && aimed(low.values, ops, i, dest, call.target)
    &&& call.result is None
    &&& call.clobbers == volatile_state()
}

/// Every call with a key of `t` that `low` has not stands for an operation at that key.
spec fn all_stand(ssa: SsaFunction, low: LoweringView, t: LoweringView) -> bool {
    &&& only_calls_added(low, t)
    &&& t.hir.calls.len() <= u32::MAX
    &&& forall|key: SsaOperationKey| #[trigger]
        t.calls.dom().contains(key) && !low.calls.dom().contains(key) ==> t.calls[key].0 < t.hir.calls.len()
            && exists|b: int, i: int|
            key == #[trigger] key_at(ssa, b, i) && stands_for(ssa, low, t.hir.calls[t.calls[key].0 as int], b, i)
}

proof fn lemma_call_stands(ssa: SsaFunction, low: LoweringView, t: LoweringView, b: int, i: int)
    requires
        only_calls_added(low, t),
        0 <= b < ssa.blocks@.len(),
        0 <= i < ssa.blocks@[b].ops@.len(),
        !left_alone(ssa, t, b, i),
    ensures
        stands_for(ssa, low, call_at(ssa, t, b, i), b, i),
{
    let op = ssa.blocks@[b].ops@[i];
    let ops = ssa.blocks@[b]@.ops;
    let dest = call_destination(ssa, op)->0;
    assert(ops.len() == ssa.blocks@[b].ops@.len());
    law_arguments_fit(t.values, ops, i);
    law_target_is_aimed(t.values, ops, i, dest);
    assert(leaves_for(ssa, op, dest)) by {
        if op.kind matches SsaOpKind::Pcode(PcodeOp::Branch { .. }) {
            assert(!function_holds(ssa, dest.offset));
        }
    }
}

proof fn lemma_step_stands(ssa: SsaFunction, low: LoweringView, st: Lifted, b: int, i: int)
    requires
        all_stand(ssa, low, st.low),
        0 <= b < ssa.blocks@.len(),
        0 <= i < ssa.blocks@[b].ops@.len(),
        lifted_at(ssa, st, b, i).low.hir.calls.len() <= u32::MAX,
    ensures
        all_stand(ssa, low, lifted_at(ssa, st, b, i).low),
{
    if !left_alone(ssa, st.low, b, i) {
        let t = lifted_at(ssa, st, b, i).low;
        lemma_call_stands(ssa, low, st.low, b, i);
        assert forall|key: SsaOperationKey| #[trigger]
            t.calls.dom().contains(key) && !low.calls.dom().contains(key) implies t.calls[key].0 < t.hir.calls.len()
            && exists|c: int, j: int|
            key == #[trigger] key_at(ssa, c, j) && stands_for(ssa, low, t.hir.calls[t.calls[key].0 as int], c, j) by {
            if key == key_at(ssa, b, i) {
                assert(t.hir.calls[t.calls[key].0 as int] == call_at(ssa, st.low, b, i));
            } else {
                assert(st.low.calls.dom().contains(key));
                let (c, j) = choose|c: int, j: int|
                    key == #[trigger] key_at(ssa, c, j) && stands_for(
                        ssa,
                        low,
                        st.low.hir.calls[st.low.calls[key].0 as int],
                        c,
                        j,
                    );
                assert(t.hir.calls[t.calls[key].0 as int] == st.low.hir.calls[st.low.calls[key].0 as int]);
                assert(key == key_at(ssa, c, j));
            }
        }
    }
}

proof fn lemma_ops_stand(ssa: SsaFunction, low: LoweringView, st: Lifted, b: int, n: int)
    requires
        all_stand(ssa, low, st.low),
        0 <= b < ssa.blocks@.len(),
        0 <= n <= ssa.blocks@[b].ops@.len(),
        lifted_ops(ssa, st, b, n).low.hir.calls.len() <= u32::MAX,
    ensures
        all_stand(ssa, low, lifted_ops(ssa, st, b, n).low),
    decreases n,
{
    if n > 0 {
        lemma_lifted_ops(ssa, st, b, n - 1);
        lemma_ops_stand(ssa, low, st, b, n - 1);
        lemma_step_stands(ssa, low, lifted_ops(ssa, st, b, n - 1), b, n - 1);
    }
}

proof fn lemma_blocks_stand(ssa: SsaFunction, low: LoweringView, n: int)
    requires
        0 <= n <= ssa.blocks@.len(),
        lifted_blocks(ssa, low, n).low.hir.calls.len() <= u32::MAX,
    ensures
        all_stand(ssa, low, lifted_blocks(ssa, low, n).low),
    decreases n,
{
    if n > 0 {
        let len = ssa.blocks@[n - 1].ops@.len() as int;
        lemma_lifted_ops(ssa, lifted_blocks(ssa, low, n - 1), n - 1, len);
        lemma_blocks_stand(ssa, low, n - 1);
        lemma_ops_stand(ssa, low, lifted_blocks(ssa, low, n - 1), n - 1, len);
    }
}

/// Every call that lifting adds stands for an operation of the function that leaves it for a
/// callee, with its arguments and its target; and every such call gets one.
pub proof fn law_lifted_calls(ssa: SsaFunction, low: LoweringView)
    requires
        lifted(ssa, low).low.hir.calls.len() <= u32::MAX,
    ensures
        ({
            let t = lifted(ssa, low).low;
            &&& forall|key: SsaOperationKey| #[trigger]
                t.calls.dom().contains(key) && !low.calls.dom().contains(key) ==> t.calls[key].0 < t.hir.calls.len()
                    && exists|b: int, i: int|
                    key == #[trigger] key_at(ssa, b, i) && stands_for(
                        ssa,
                        low,
                        t.hir.calls[t.calls[key].0 as int],
                        b,
                        i,
                    )
            &&& forall|b: int, i: int|
                0 <= b < ssa.blocks@.len() && 0 <= i < ssa.blocks@[b].ops@.len() && low.operations.dom().contains(
                    #[trigger] key_at(ssa, b, i),
                ) && low.operations[key_at(ssa, b, i)].0 < low.hir.operations.len() && (ssa.blocks@[b].ops@[i].kind matches SsaOpKind::Pcode(
                    p,
                ) && (p matches PcodeOp::Call { .. } || p matches PcodeOp::CallInd { .. })) ==> t.calls.dom().contains(
                    key_at(ssa, b, i),
                )
        }),
{
    let n = ssa.blocks@.len() as int;
    lemma_blocks_stand(ssa, low, n);
    lemma_lifted_blocks(ssa, low, n);
    let t = lifted(ssa, low).low;
    assert forall|b: int, i: int|
        0 <= b < ssa.blocks@.len() && 0 <= i < ssa.blocks@[b].ops@.len() && low.operations.dom().contains(
            #[trigger] key_at(ssa, b, i),
        ) && low.operations[key_at(ssa, b, i)].0 < low.hir.operations.len() && (ssa.blocks@[b].ops@[i].kind matches SsaOpKind::Pcode(
            p,
        ) && (p matches PcodeOp::Call { .. } || p matches PcodeOp::CallInd { .. })) implies t.calls.dom().contains(
        key_at(ssa, b, i),
    ) by {
        assert(left_alone(ssa, t, b, i));
    }
}

// ─── How many arguments ─────────────────────────────────────────────────────

/// A direct call takes as many arguments as the registers RCX, RDX, R8 and R9 that it uses,
/// if they leave no gap.
pub proof fn law_required_count(ssa: SsaFunction, b: u32, i: u32, n: int)
    requires
        b < ssa.blocks@.len(),
        i < ssa.blocks@[b as int].ops@.len(),
        0 <= n <= 4,
    ensures
        ({
            let op = ssa.blocks@[b as int].ops@[i as int];
            let takes = op.kind matches SsaOpKind::Pcode(PcodeOp::Call { .. }) && forall|p: int|
                0 <= p < 4 ==> (#[trigger] uses_register(op@, container(passed_in(p))) <==> p < n);
            required_count(ssa, SsaOperationKey { block_id: b, operation_index: i }) == Some(n) <==> takes
        }),
{
    let op = ssa.blocks@[b as int].ops@[i as int];
    lemma_uses(op@, 0x08, 0);
    lemma_uses(op@, 0x10, 0);
    lemma_uses(op@, 0x80, 0);
    lemma_uses(op@, 0x88, 0);
    assert(op@.uses == op.uses@);
    assert(uses_register(op@, container(passed_in(0))) == (used_from(op.uses@, 0x08, 0) is Some));
    assert(uses_register(op@, container(passed_in(1))) == (used_from(op.uses@, 0x10, 0) is Some));
    assert(uses_register(op@, container(passed_in(2))) == (used_from(op.uses@, 0x80, 0) is Some));
    assert(uses_register(op@, container(passed_in(3))) == (used_from(op.uses@, 0x88, 0) is Some));
    let r = required_count(ssa, SsaOperationKey { block_id: b, operation_index: i });
    if op.kind matches SsaOpKind::Pcode(PcodeOp::Call { .. }) && (forall|p: int|
        0 <= p < 4 ==> (#[trigger] uses_register(op@, container(passed_in(p))) <==> p < n)) {
        assert(r == Some(n));
    }
}

proof fn lemma_argument_at(args: Seq<ArgumentView>, values: Map<SsaVar, ValueId>, position: int, n: int)
    requires
        0 <= n <= args.len(),
    ensures
        argument_at(args, values, position, n) matches Some(v) ==> values.dom().contains(v) && exists|k: int|
            0 <= k < n && (#[trigger] args[k]).position == position && args[k].value == values[v],
    decreases n,
{
    if n > 0 {
        lemma_argument_at(args, values, position, n - 1);
        if let Some(v) = argument_at(args, values, position, n) {
            if args[n - 1].position == position && variable_of(values, args[n - 1].value) is Some {
                assert(args[n - 1].value == values[v]);
            } else {
                let k = choose|k: int|
                    0 <= k < n - 1 && (#[trigger] args[k]).position == position && args[k].value == values[v];
                assert(args[k].value == values[v]);
            }
        }
    }
}

proof fn lemma_known_arguments(args: Seq<ArgumentView>, values: Map<SsaVar, ValueId>, n: int)
    requires
        0 <= n,
    ensures
        known_arguments(args, values, n) matches Some(vars) ==> vars.len() == n && forall|p: int|
            0 <= p < n ==> values.dom().contains(#[trigger] vars[p]) && exists|k: int|
                0 <= k < args.len() && (#[trigger] args[k]).position == p && args[k].value == values[vars[p]],
    decreases n,
{
    if n > 0 {
        lemma_known_arguments(args, values, n - 1);
        lemma_argument_at(args, values, n - 1, args.len() as int);
        if let Some(vars) = known_arguments(args, values, n) {
            let done = known_arguments(args, values, n - 1)->0;
            assert forall|p: int| 0 <= p < n implies values.dom().contains(#[trigger] vars[p]) && exists|k: int|
                0 <= k < args.len() && (#[trigger] args[k]).position == p && args[k].value == values[vars[p]] by {
                if p < n - 1 {
                    assert(vars[p] == done[p]);
                }
            }
        }
    }
}

/// The arguments that are printed for a call are the variables that RCX, RDX, R8 and R9 hold
/// there, in this order, and as many as the call takes.
pub proof fn law_printed_arguments(ssa: SsaFunction, low: LoweringView, b: u32, i: u32)
    requires
        b < ssa.blocks@.len(),
        i < ssa.blocks@[b as int].ops@.len(),
        one_variable_each(low.values),
        ({
            let key = SsaOperationKey { block_id: b, operation_index: i };
            low.calls.dom().contains(key) && low.calls[key].0 < low.hir.calls.len() && stands_for(
                ssa,
                low,
                low.hir.calls[low.calls[key].0 as int],
                b as int,
                i as int,
            )
        }),
    ensures
        ({
            let key = SsaOperationKey { block_id: b, operation_index: i };
            let ops = ssa.blocks@[b as int]@.ops;
            call_arguments(ssa, Some(low), key) matches Some(vars) ==> required_count(ssa, key) == Some(vars.len() as int)
                && forall|p: int|
                0 <= p < vars.len() ==> held(ops, i as int, #[trigger] vars[p], container(passed_in(p)))
        }),
{
    let key = SsaOperationKey { block_id: b, operation_index: i };
    let ops = ssa.blocks@[b as int]@.ops;
    let args = low.hir.calls[low.calls[key].0 as int].arguments;
    if let Some(vars) = call_arguments(ssa, Some(low), key) {
        lemma_known_arguments(args, low.values, required_count(ssa, key)->0);
        assert forall|p: int| 0 <= p < vars.len() implies held(ops, i as int, #[trigger] vars[p], container(passed_in(p))) by {
            let k = choose|k: int|
                0 <= k < args.len() && (#[trigger] args[k]).position == p && args[k].value == low.values[vars[p]];
            assert(taken_from(low.values, ops, i as int, args[k], passed_in(p)));
            let v = choose|v: SsaVar| #[trigger]
                held(ops, i as int, v, container(passed_in(p))) && low.values.dom().contains(v) && low.values[v]
                    == args[k].value;
            assert(low.values.dom().contains(v) && low.values.dom().contains(vars[p]));
        }
    }
}

// ─── What a call leaves to the callee ───────────────────────────────────────

/// A call may change RAX, RCX, RDX, R8, R9, R10 and R11, the flags and the first six vector
/// registers, and of the other registers none.
pub proof fn law_volatile_registers(s: SliceView)
    requires
        s.bit_width > 0,
        s.bit_offset + s.bit_width <= 512,
    ensures
        ({
            let hit = exists|k: int|
                0 <= k < volatile_state().registers.len() && (#[trigger] volatile_state().registers[k]).register
                    == s.register && volatile_state().registers[k].bit_offset < s.bit_offset + s.bit_width
                    && s.bit_offset < volatile_state().registers[k].bit_offset + volatile_state().registers[k].bit_width;
            match s.register {
                Register::Gpr(g) => s.bit_offset + s.bit_width <= 64 ==> (hit <==> g == Gpr::Rax || g == Gpr::Rcx || g
                    == Gpr::Rdx || g == Gpr::R8 || g == Gpr::R9 || g == Gpr::R10 || g == Gpr::R11),
                Register::Vector(x) => hit <==> x < 6,
                Register::Rflags => s.bit_offset + s.bit_width <= 64 ==> hit,
                Register::Rip => !hit,
            }
        }),
{
    let r = volatile_state().registers;
    assert(r.len() == 14);
    assert(r[0].register == Register::Gpr(Gpr::Rax) && r[1].register == Register::Gpr(Gpr::Rcx) && r[2].register
        == Register::Gpr(Gpr::Rdx) && r[3].register == Register::Gpr(Gpr::R8) && r[4].register == Register::Gpr(Gpr::R9)
        && r[5].register == Register::Gpr(Gpr::R10) && r[6].register == Register::Gpr(Gpr::R11));
    assert(r[7].register == Register::Rflags);
    assert(r[8].register == Register::Vector(0) && r[9].register == Register::Vector(1) && r[10].register
        == Register::Vector(2) && r[11].register == Register::Vector(3) && r[12].register == Register::Vector(4)
        && r[13].register == Register::Vector(5));
}

} // verus!
