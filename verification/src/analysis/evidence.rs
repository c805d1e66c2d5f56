//! What stands behind each target that the points-to analysis reports.

use vstd::prelude::*;
use pcode_ir::{PcodeOp, Varnode};
use crate::analysis::points_to::{defined_at, definer, definer_of, follow_first, follow_register, live_in, pointer_of, row_of, EntryView, PointsToCtx, PointsToKind, Trace};
use crate::hir::lowering::target_temporary;
use crate::numbers::{hex, law_numbers_read_back, prefixed_hex};
use crate::pcode::{is_const, is_ram, is_register, PcodeView};
use crate::ssa::lower::container_base;
use crate::ssa::reach::used_from;
use crate::ssa::{FunctionView, KindView, Location, OpView, SsaVar};

verus! {

// ─── Where a pointer comes from ─────────────────────────────────────────────

/// The operation reads or writes memory.
pub open spec fn accesses(op: OpView) -> bool {
    op.kind matches KindView::Pcode(PcodeView::Plain(p)) && (p matches PcodeOp::Load { .. } || p matches PcodeOp::Store { .. })
}

/// Operation `i` of block `b` defines `v`.
pub open spec fn made_at(f: FunctionView, v: SsaVar, b: int, i: int) -> bool {
    0 <= b < f.blocks.len() && 0 <= i < f.blocks[b].ops.len() && f.blocks[b].ops[i].def == Some(v)
}

/// The operation `op` defines `v`.
pub open spec fn makes(f: FunctionView, op: OpView, v: SsaVar) -> bool {
    exists|b: int, i: int| #[trigger] made_at(f, v, b, i) && f.blocks[b].ops[i] == op
}

/// No operation defines `v`: it has its value from outside.
pub open spec fn unmade(f: FunctionView, v: SsaVar) -> bool {
    forall|b: int, i: int| !#[trigger] made_at(f, v, b, i)
}

/// The operation reads the operand `n` through its use `u`: a register through a use of
/// the register that holds it.
pub open spec fn reads_through(op: OpView, n: Varnode, u: SsaVar) -> bool {
    &&& op.uses.contains(u)
    &&& is_register(n) && (exists|k: int|
        0 <= k < op.uses.len() && (#[trigger] op.uses[k]).location == (Location::Register {
            base_offset: container_base(n.offset),
        })) ==> u.location == (Location::Register { base_offset: container_base(n.offset) })
}

/// `v` is `u`, or lies at a distance from it.
pub open spec fn offset_from(f: FunctionView, v: SsaVar, u: SsaVar) -> bool {
    exists|op: OpView| #[trigger]
        makes(f, op, v) && op.uses.contains(u) && (op.kind matches KindView::Pcode(PcodeView::Plain(p)) && match p {
            PcodeOp::Copy { input, .. } => !is_const(input) && reads_through(op, input, u),
            PcodeOp::IntAdd { left, right, .. } => (is_const(right) ==> reads_through(op, left, u)) && (!is_const(right)
                && is_const(left) ==> reads_through(op, right, u)),
            _ => false,
        })
}

/// `q` leads from a pointer back over what it lies at a distance from.
pub open spec fn chain(f: FunctionView, q: Seq<SsaVar>, v: SsaVar, u: SsaVar) -> bool {
    &&& q.len() > 0
    &&& q[0] == v
    &&& q.last() == u
    &&& forall|i: int| 0 <= i < q.len() - 1 ==> offset_from(f, #[trigger] q[i], q[i + 1])
}

/// `v` points into what `u` points into.
pub open spec fn points_with(f: FunctionView, v: SsaVar, u: SsaVar) -> bool {
    exists|q: Seq<SsaVar>| #[trigger] chain(f, q, v, u)
}

/// The variable that holds the pointer `ptr` of an access.
pub open spec fn carries(op: OpView, ptr: Varnode, v: SsaVar) -> bool {
    op.uses.contains(v) && v.location == if is_register(ptr) {
        Location::Register { base_offset: container_base(ptr.offset) }
    } else {
        Location::Unique { instruction_va: op.va, offset: ptr.offset, size: ptr.size }
    }
}

/// The pointer of the access comes down to `u`.
pub open spec fn comes_from(f: FunctionView, op: OpView, u: SsaVar) -> bool {
    exists|ptr: Varnode, v: SsaVar|
        pointer_of(op) == Some(ptr) && #[trigger] carries(op, ptr, v) && points_with(f, v, u)
}

/// `u` is set to the constant `a`.
pub open spec fn set_to(f: FunctionView, u: SsaVar, a: u64) -> bool {
    exists|op: OpView| #[trigger]
        makes(f, op, u) && (op.kind matches KindView::Pcode(PcodeView::Plain(PcodeOp::Copy { input, .. })) && is_const(input)
            && input.offset == a)
}

/// `u` is read from memory by the instruction at `va`.
pub open spec fn read_by(f: FunctionView, u: SsaVar, va: u64) -> bool {
    exists|op: OpView| #[trigger]
        makes(f, op, u) && op.va == va && (op.kind matches KindView::Pcode(PcodeView::Plain(PcodeOp::Load { .. })))
}

/// The operand is the stack pointer or the frame pointer.
pub open spec fn on_stack(n: Varnode) -> bool {
    is_register(n) && (0x20 <= n.offset < 0x28 || 0x28 <= n.offset < 0x30)
}

/// `u` is at the distance `d` from the stack pointer or the frame pointer.
pub open spec fn in_frame(f: FunctionView, u: SsaVar, d: i64) -> bool {
    exists|op: OpView| #[trigger]
        makes(f, op, u) && (op.kind matches KindView::Pcode(PcodeView::Plain(PcodeOp::IntAdd { left, right, .. })) && (on_stack(
            left,
        ) && is_const(right) && d == right.offset as i64 || on_stack(right) && is_const(left) && d == left.offset as i64))
}

/// The name of the parameter that comes in a register.
pub open spec fn parameter_name(c: u64, name: Seq<char>) -> bool {
    ||| c == 0x08 && name == "param_"@ + "rcx"@
    ||| c == 0x10 && name == "param_"@ + "rdx"@
    ||| c == 0x80 && name == "param_"@ + "r8"@
    ||| c == 0x88 && name == "param_"@ + "r9"@
}

/// `u` is a parameter: it has its value from outside, in a register that passes one.
pub open spec fn is_parameter(f: FunctionView, u: SsaVar, name: Seq<char>) -> bool {
    &&& unmade(f, u)
    &&& u.version == 1
    &&& u.location matches Location::Register { base_offset } && parameter_name(base_offset, name)
}

/// The pointer of the access is the constant `a`.
pub open spec fn points_at(op: OpView, a: u64) -> bool {
    pointer_of(op) matches Some(ptr) && (is_const(ptr) || is_ram(ptr)) && ptr.offset == a
}

/// The target has what its kind asks for. An import slot has an address that is one of the
/// slots, and a global one that is not; both bear the symbol at that address. A place in the
/// frame has a distance, and a parameter has a name.
pub open spec fn shaped(ctx: &PointsToCtx<'_>, e: EntryView) -> bool {
    match e.kind {
        PointsToKind::IATSlot => e.stack_disp is None && (e.va matches Some(a) && ctx.iat_slots@.contains(a)
            && e.symbol == ctx.symbols.symbol(a)),
        PointsToKind::Global => e.stack_disp is None && (e.va matches Some(a) && !ctx.iat_slots@.contains(a)
            && e.symbol == ctx.symbols.symbol(a)),
        PointsToKind::StackRef => e.va is None && e.symbol is None && e.stack_disp is Some,
        PointsToKind::ParamPtr => e.va is None && e.symbol is Some && e.stack_disp is None,
        PointsToKind::HeapUnknown => e.stack_disp is None,
    }
}

/// The access itself shows the target: its instruction has a fixed one, its pointer is a
/// constant, or it is an access to a slot of the frame.
pub open spec fn shows(ctx: &PointsToCtx<'_>, op: OpView, e: EntryView) -> bool {
    match e.kind {
        PointsToKind::Global | PointsToKind::IATSlot => e.va matches Some(a) && (ctx.insn_global@.dom().contains(op.va)
            && ctx.insn_global@[op.va] == a || points_at(op, a) && a != 0 && ctx.address_space.data(a)),
        PointsToKind::StackRef => op.uses.len() > 0 && (op.uses[0].location matches Location::StackSlot { disp, .. }
            && e.stack_disp == Some(disp)),
        PointsToKind::ParamPtr => false,
        PointsToKind::HeapUnknown => e.symbol is None && (e.va matches Some(a) ==> points_at(op, a) && a != 0
            && !ctx.address_space.data(a)),
    }
}

/// The variable `u` behind the pointer shows the target.
pub open spec fn stands_for(ctx: &PointsToCtx<'_>, f: FunctionView, u: SsaVar, e: EntryView) -> bool {
    match e.kind {
        PointsToKind::Global | PointsToKind::IATSlot => e.va matches Some(a) && a != 0 && ctx.address_space.data(a)
            && set_to(f, u, a),
        PointsToKind::StackRef => e.stack_disp matches Some(d) && in_frame(f, u, d),
        PointsToKind::ParamPtr => e.symbol matches Some(name) && is_parameter(f, u, name),
        PointsToKind::HeapUnknown => match e.va {
            Some(a) => {
                ||| e.symbol is None && set_to(f, u, a) && !(a != 0 && ctx.address_space.data(a))
                ||| exists|va: u64| #[trigger]
                    read_by(f, u, va) && ctx.insn_global@.dom().contains(va) && ctx.insn_global@[va] == a
                        && match ctx.symbols.symbol(a) {
                        Some(name) => e.symbol == Some("*"@ + name),
                        None => e.symbol is None,
                    }
            },
            None => e.symbol is None,
        },
    }
}

/// There is a reason for the target `e` of the access `op`.
pub open spec fn grounded(ctx: &PointsToCtx<'_>, f: FunctionView, op: OpView, e: EntryView) -> bool {
    &&& shaped(ctx, e)
    &&& shows(ctx, op, e) || exists|u: SsaVar| #[trigger] comes_from(f, op, u) && stands_for(ctx, f, u, e)
}

// ─── Proofs ─────────────────────────────────────────────────────────────────

proof fn lemma_defined_at(ops: Seq<OpView>, v: SsaVar, n: int)
    requires
        0 <= n <= ops.len(),
    ensures
        match defined_at(ops, v, n) {
            Some(i) => 0 <= i < n && ops[i].def == Some(v),
            None => forall|i: int| 0 <= i < n ==> (#[trigger] ops[i]).def != Some(v),
        },
    decreases n,
{
    if n > 0 {
        lemma_defined_at(ops, v, n - 1);
    }
}

proof fn lemma_definer(f: FunctionView, v: SsaVar, n: int)
    requires
        0 <= n <= f.blocks.len(),
    ensures
        match definer(f.blocks, v, n) {
            Some(op) => makes(f, op, v),
            None => forall|b: int, i: int| b < n ==> !#[trigger] made_at(f, v, b, i),
        },
    decreases n,
{
    if n > 0 {
        let ops = f.blocks[n - 1].ops;
        lemma_definer(f, v, n - 1);
        lemma_defined_at(ops, v, ops.len() as int);
        if let Some(i) = defined_at(ops, v, ops.len() as int) {
            assert(made_at(f, v, n - 1, i));
        } else if definer(f.blocks, v, n) is None {
            assert forall|b: int, i: int| b < n implies !#[trigger] made_at(f, v, b, i) by {
                if b == n - 1 && 0 <= i < ops.len() {
                    assert(ops[i].def != Some(v));
                }
            }
        }
    }
}

proof fn lemma_used(uses: Seq<SsaVar>, reg: u64, i: int)
    requires
        0 <= i <= uses.len(),
    ensures
        match used_from(uses, reg, i) {
            Some(u) => uses.contains(u) && u.location == (Location::Register { base_offset: reg }),
            None => forall|k: int|
                i <= k < uses.len() ==> (#[trigger] uses[k]).location != (Location::Register { base_offset: reg }),
        },
    decreases uses.len() - i,
{
    if i < uses.len() {
        lemma_used(uses, reg, i + 1);
        if used_from(uses, reg, i) == Some(uses[i]) {
            assert(uses.contains(uses[i]));
        }
    }
}

proof fn lemma_temporary(op: OpView, n: Varnode, i: int)
    requires
        0 <= i <= op.uses.len(),
    ensures
        target_temporary(op, n, i) matches Some(u) ==> op.uses.contains(u) && u.location == (Location::Unique {
            instruction_va: op.va,
            offset: n.offset,
            size: n.size,
        }),
    decreases op.uses.len() - i,
{
    if i < op.uses.len() {
        lemma_temporary(op, n, i + 1);
        assert(op.uses.contains(op.uses[i]));
    }
}

proof fn lemma_follows(op: OpView, n: Varnode)
    ensures
        follow_register(op, n) matches Trace::Follow(u) ==> reads_through(op, n, u),
        follow_first(op) matches Trace::Follow(u) ==> op.uses.contains(u),
{
    lemma_used(op.uses, container_base(n.offset), 0);
    if op.uses.len() > 0 {
        assert(op.uses.contains(op.uses[0]));
    }
}

proof fn lemma_longer(f: FunctionView, v: SsaVar, u: SsaVar, w: SsaVar)
    requires
        offset_from(f, v, u),
        points_with(f, u, w),
    ensures
        points_with(f, v, w),
{
    let q = choose|q: Seq<SsaVar>| #[trigger] chain(f, q, u, w);
    let r = seq![v] + q;
    assert forall|i: int| 0 <= i < r.len() - 1 implies offset_from(f, #[trigger] r[i], r[i + 1]) by {
        if i > 0 {
            assert(r[i] == q[i - 1] && r[i + 1] == q[i]);
        } else {
            assert(r[1] == q[0]);
        }
    }
    assert(r.last() == w);
    assert(chain(f, r, v, w));
}

/// The target `e` has a reason behind the pointer `v`.
spec fn reasoned(ctx: &PointsToCtx<'_>, f: FunctionView, v: SsaVar, e: EntryView) -> bool {
    shaped(ctx, e) && exists|u: SsaVar| #[trigger] points_with(f, v, u) && stands_for(ctx, f, u, e)
}

proof fn lemma_traced(ctx: &PointsToCtx<'_>, f: FunctionView, v: SsaVar, steps: nat)
    ensures
        reasoned(ctx, f, v, ctx.traced(f, v, steps)),
    decreases steps,
{
    assert(chain(f, seq![v], v, v));
    assert(points_with(f, v, v));
    lemma_definer(f, v, f.blocks.len() as int);
    let e = ctx.traced(f, v, steps);
    if live_in(f, v) is Some {
        assert(unmade(f, v)) by {
            assert forall|b: int, i: int| !#[trigger] made_at(f, v, b, i) by {
                if b >= f.blocks.len() {
                }
            }
        }
    }
    if steps > 0 && definer_of(f, v) is Some {
        let op = definer_of(f, v)->0;
        assert(makes(f, op, v));
        if let KindView::Pcode(PcodeView::Plain(p)) = op.kind {
            if let PcodeOp::Copy { input, .. } = p {
                lemma_follows(op, input);
                if is_const(input) {
                    assert(set_to(f, v, input.offset));
                }
            }
            if let PcodeOp::IntAdd { left, right, .. } = p {
                lemma_follows(op, left);
                lemma_follows(op, right);
                assert(container_base(left.offset) == 0x20 || container_base(left.offset) == 0x28 ==> 0x20 <= left.offset
                    < 0x30);
                assert(container_base(right.offset) == 0x20 || container_base(right.offset) == 0x28 ==> 0x20
                    <= right.offset < 0x30);
                if e.kind == PointsToKind::StackRef && !(ctx.trace_step(op) is Follow) {
                    assert(in_frame(f, v, e.stack_disp->0));
                }
            }
            if let PcodeOp::Load { .. } = p {
                assert(read_by(f, v, op.va));
            }
        }
        if let Trace::Follow(u) = ctx.trace_step(op) {
            assert(offset_from(f, v, u));
            lemma_traced(ctx, f, u, (steps - 1) as nat);
            let w = choose|w: SsaVar| #[trigger] points_with(f, u, w) && stands_for(ctx, f, w, e);
            lemma_longer(f, v, u, w);
        }
    }
}

proof fn lemma_target(ctx: &PointsToCtx<'_>, f: FunctionView, op: OpView)
    requires
        accesses(op),
    ensures
        ctx.target(f, op) matches Some(e) && grounded(ctx, f, op, e),
{
    let ptr = pointer_of(op)->0;
    let e = ctx.target(f, op)->0;
    lemma_used(op.uses, container_base(ptr.offset), 0);
    lemma_temporary(op, ptr, 0);
    let used = if is_register(ptr) {
        used_from(op.uses, container_base(ptr.offset), 0)
    } else {
        target_temporary(op, ptr, 0)
    };
    if !(is_const(ptr) || is_ram(ptr)) && used is Some {
        let v = used->0;
        assert(carries(op, ptr, v));
        lemma_traced(ctx, f, v, 16);
        let t = ctx.traced(f, v, 16);
        let u = choose|u: SsaVar| #[trigger] points_with(f, v, u) && stands_for(ctx, f, u, t);
        assert(comes_from(f, op, u));
    }
}

/// Operation `i` of block `b` is an access at `va`.
pub open spec fn access_at(f: FunctionView, va: u64, b: int, i: int) -> bool {
    0 <= b < f.blocks.len() && 0 <= i < f.blocks[b].ops.len() && accesses(f.blocks[b].ops[i]) && f.blocks[b].ops[i].va == va
}

/// The reported target of `va` is that of the access at operation `i` of block `b`, the last
/// one there.
pub open spec fn reported(ctx: &PointsToCtx<'_>, f: FunctionView, va: u64, b: int, i: int, e: EntryView) -> bool {
    &&& access_at(f, va, b, i)
    &&& grounded(ctx, f, f.blocks[b].ops[i], e)
    &&& ctx.target(f, f.blocks[b].ops[i]) == Some(e)
    &&& forall|c: int, j: int| #[trigger] access_at(f, va, c, j) ==> c < b || c == b && j <= i
}

proof fn lemma_targets_of(ctx: &PointsToCtx<'_>, f: FunctionView, b: int, n: int, m: Map<(u64, u32), EntryView>, va: u64)
    requires
        0 <= b < f.blocks.len(),
        0 <= n <= f.blocks[b].ops.len(),
    ensures
        ({
            let t = ctx.targets_of(f, f.blocks[b].ops, n, m);
            &&& forall|k: (u64, u32)| k.0 != va || k.1 != 0 ==> (#[trigger] t.dom().contains(k) ==> m.dom().contains(k) || (k.1
                == 0 && exists|i: int| #[trigger] access_at(f, k.0, b, i)))
            &&& {
                ||| (forall|i: int| i < n ==> !#[trigger] access_at(f, va, b, i)) && t.dom().contains((va, 0u32))
                    == m.dom().contains((va, 0u32)) && t[(va, 0u32)] == m[(va, 0u32)]
                ||| exists|i: int|
                    #![trigger access_at(f, va, b, i)]
                    i < n && access_at(f, va, b, i) && t.dom().contains((va, 0u32)) && ctx.target(
                        f,
                        f.blocks[b].ops[i],
                    ) == Some(t[(va, 0u32)]) && forall|j: int| i < j < n ==> !#[trigger] access_at(f, va, b, j)
            }
        }),
    decreases n,
{
    let ops = f.blocks[b].ops;
    if n > 0 {
        lemma_targets_of(ctx, f, b, n - 1, m, va);
        let op = ops[n - 1];
        assert(accesses(op) == (pointer_of(op) is Some));
        if accesses(op) {
            assert(access_at(f, op.va, b, n - 1));
        }
    }
}

/// The report lists exactly the loads and stores, each under its address and operand
/// zero, and gives each a target for which the function gives a reason.
pub proof fn law_targets_are_grounded(ctx: &PointsToCtx<'_>, f: FunctionView, va: u64, index: u32)
    ensures
        ({
            let m = ctx.all_targets(f, f.blocks.len() as int);
            &&& m.dom().contains((va, index)) <==> index == 0 && exists|b: int, i: int| #[trigger] access_at(f, va, b, i)
            &&& m.dom().contains((va, index)) ==> exists|b: int, i: int| #[trigger]
                reported(ctx, f, va, b, i, m[(va, index)])
        }),
{
    lemma_all_targets(ctx, f, f.blocks.len() as int, va, index);
    let m = ctx.all_targets(f, f.blocks.len() as int);
    if m.dom().contains((va, index)) {
        let (b, i) = choose|b: int, i: int|
            #![trigger access_at(f, va, b, i)]
            b < f.blocks.len() && access_at(f, va, b, i) && ctx.target(f, f.blocks[b].ops[i]) == Some(m[(va, index)])
                && forall|c: int, j: int|
                c < f.blocks.len() && #[trigger] access_at(f, va, c, j) ==> c < b || c == b && j <= i;
        lemma_target(ctx, f, f.blocks[b].ops[i]);
        assert(reported(ctx, f, va, b, i, m[(va, index)]));
    }
}

proof fn lemma_all_targets(ctx: &PointsToCtx<'_>, f: FunctionView, n: int, va: u64, index: u32)
    requires
        0 <= n <= f.blocks.len(),
    ensures
        ({
            let m = ctx.all_targets(f, n);
            &&& index != 0 ==> !m.dom().contains((va, index))
            &&& index == 0 && !m.dom().contains((va, index)) ==> forall|b: int, i: int|
                b < n ==> !#[trigger] access_at(f, va, b, i)
            &&& m.dom().contains((va, index)) ==> exists|b: int, i: int|
                #![trigger access_at(f, va, b, i)]
                b < n && access_at(f, va, b, i) && ctx.target(f, f.blocks[b].ops[i]) == Some(m[(va, index)]) && forall|
                    c: int,
                    j: int,
                |
                    c < n && #[trigger] access_at(f, va, c, j) ==> c < b || c == b && j <= i
        }),
    decreases n,
{
    if n > 0 {
        let b = n - 1;
        let ops = f.blocks[b].ops;
        let before = ctx.all_targets(f, b);
        let m = ctx.all_targets(f, n);
        lemma_all_targets(ctx, f, b, va, index);
        lemma_targets_of(ctx, f, b, ops.len() as int, before, va);
        if index != 0 {
        } else if exists|i: int| i < ops.len() && #[trigger] access_at(f, va, b, i) {
            let i = choose|i: int|
                #![trigger access_at(f, va, b, i)]
                i < ops.len() && access_at(f, va, b, i) && m.dom().contains((va, 0u32)) && ctx.target(f, ops[i]) == Some(
                    m[(va, 0u32)],
                ) && forall|j: int| i < j < ops.len() ==> !#[trigger] access_at(f, va, b, j);
            assert forall|c: int, j: int| c < n && #[trigger] access_at(f, va, c, j) implies c < b || c == b && j <= i by {
                if c == b && j > i {
                    assert(!access_at(f, va, b, j));
                }
            }
        } else {
            assert forall|c: int, j: int| c < n && access_at(f, va, c, j) implies c < b by {
                if c == b {
                    assert(j < ops.len());
                }
            }
        }
    }
}

/// Every import slot that is reported is one of the slots, and every global is not.
pub proof fn law_slots_and_globals(ctx: &PointsToCtx<'_>, f: FunctionView)
    ensures
        forall|k: (u64, u32)| #[trigger]
            ctx.all_targets(f, f.blocks.len() as int).dom().contains(k) ==> {
                let e = ctx.all_targets(f, f.blocks.len() as int)[k];
                &&& e.kind == PointsToKind::IATSlot ==> (e.va matches Some(a) && ctx.iat_slots@.contains(a))
                &&& e.kind == PointsToKind::Global ==> (e.va matches Some(a) && !ctx.iat_slots@.contains(a))
            },
{
    let m = ctx.all_targets(f, f.blocks.len() as int);
    assert forall|k: (u64, u32)| #[trigger] m.dom().contains(k) implies shaped(ctx, m[k]) by {
        law_targets_are_grounded(ctx, f, k.0, k.1);
        assert(k == (k.0, k.1));
    }
}

// ─── Evidence is found ──────────────────────────────────────────────────────

/// No variable is defined twice.
pub open spec fn made_once(f: FunctionView) -> bool {
    forall|v: SsaVar, b: int, i: int, c: int, j: int|
        #![trigger made_at(f, v, b, i), made_at(f, v, c, j)]
        made_at(f, v, b, i) && made_at(f, v, c, j) ==> b == c && i == j
}

proof fn lemma_sole_definer(f: FunctionView, op: OpView, v: SsaVar)
    requires
        made_once(f),
        makes(f, op, v),
    ensures
        definer_of(f, v) == Some(op),
{
    lemma_definer(f, v, f.blocks.len() as int);
    let (b, i) = choose|b: int, i: int| #[trigger] made_at(f, v, b, i) && f.blocks[b].ops[i] == op;
    let d = definer_of(f, v)->0;
    assert(definer_of(f, v) is Some) by {
        if definer_of(f, v) is None {
            assert(!made_at(f, v, b, i));
        }
    }
    let (c, j) = choose|c: int, j: int| #[trigger] made_at(f, v, c, j) && f.blocks[c].ops[j] == d;
    assert(made_at(f, v, b, i) && made_at(f, v, c, j));
}

/// `v` is made from `u` alone, as it is or at a constant distance, and not from the stack
/// pointer or the frame pointer.
pub open spec fn moved_from(f: FunctionView, v: SsaVar, u: SsaVar) -> bool {
    exists|op: OpView| #[trigger]
        makes(f, op, v) && op.uses == seq![u] && (op.kind matches KindView::Pcode(PcodeView::Plain(p)) && match p {
            PcodeOp::Copy { input, .. } => !is_const(input),
            PcodeOp::IntAdd { left, right, .. } => {
                ||| is_const(right) && !on_stack(left)
                ||| is_const(left) && !is_const(right) && !on_stack(right)
            },
            _ => false,
        })
}

/// `q` leads back from a pointer over what it is made from alone.
pub open spec fn sole_chain(f: FunctionView, q: Seq<SsaVar>) -> bool {
    forall|i: int| 0 <= i < q.len() - 1 ==> moved_from(f, #[trigger] q[i], q[i + 1])
}

proof fn lemma_moved(ctx: &PointsToCtx<'_>, f: FunctionView, v: SsaVar, u: SsaVar, steps: nat)
    requires
        made_once(f),
        moved_from(f, v, u),
        steps > 0,
    ensures
        ctx.traced(f, v, steps) == ctx.traced(f, u, (steps - 1) as nat),
{
    let op = choose|op: OpView| #[trigger]
        makes(f, op, v) && op.uses == seq![u] && (op.kind matches KindView::Pcode(PcodeView::Plain(p)) && match p {
            PcodeOp::Copy { input, .. } => !is_const(input),
            PcodeOp::IntAdd { left, right, .. } => {
                ||| is_const(right) && !on_stack(left)
                ||| is_const(left) && !is_const(right) && !on_stack(right)
            },
            _ => false,
        });
    lemma_sole_definer(f, op, v);
    if let KindView::Pcode(PcodeView::Plain(p)) = op.kind {
        if let PcodeOp::Copy { input, .. } = p {
            lemma_used(op.uses, container_base(input.offset), 0);
        }
        if let PcodeOp::IntAdd { left, right, .. } = p {
            lemma_used(op.uses, container_base(left.offset), 0);
            lemma_used(op.uses, container_base(right.offset), 0);
        }
    }
    assert(op.uses[0] == u);
    assert(ctx.trace_step(op) == Trace::Follow(u));
}

/// What stands behind a pointer is found, up to sixteen definitions back: a constant in the
/// data, a place at a distance from the stack pointer, or a parameter.
pub proof fn law_evidence_is_found(ctx: &PointsToCtx<'_>, f: FunctionView, q: Seq<SsaVar>, steps: nat)
    requires
        made_once(f),
        0 < q.len() <= steps,
        sole_chain(f, q),
    ensures
        forall|a: u64| #[trigger]
            set_to(f, q.last(), a) && a != 0 && ctx.address_space.data(a) ==> {
                let e = ctx.traced(f, q[0], steps);
                (e.kind == PointsToKind::Global || e.kind == PointsToKind::IATSlot) && e.va == Some(a)
            },
        forall|d: i64| #[trigger]
            in_frame(f, q.last(), d) ==> {
                let e = ctx.traced(f, q[0], steps);
                e.kind == PointsToKind::StackRef && e.stack_disp == Some(d)
            },
        forall|name: Seq<char>| #[trigger]
            is_parameter(f, q.last(), name) ==> {
                let e = ctx.traced(f, q[0], steps);
                e.kind == PointsToKind::ParamPtr && e.symbol == Some(name)
            },
    decreases q.len(),
{
    let v = q[0];
    if q.len() > 1 {
        let r = q.subrange(1, q.len() as int);
        assert(moved_from(f, q[0], q[1]));
        lemma_moved(ctx, f, v, q[1], steps);
        assert forall|i: int| 0 <= i < r.len() - 1 implies moved_from(f, #[trigger] r[i], r[i + 1]) by {
            assert(r[i] == q[i + 1] && r[i + 1] == q[i + 2]);
        }
        assert(r.last() == q.last());
        assert(r[0] == q[1]);
        law_evidence_is_found(ctx, f, r, (steps - 1) as nat);
    } else {
        assert(q.last() == v);
        assert forall|a: u64| #[trigger] set_to(f, v, a) && a != 0 && ctx.address_space.data(a) implies {
            let e = ctx.traced(f, v, steps);
            (e.kind == PointsToKind::Global || e.kind == PointsToKind::IATSlot) && e.va == Some(a)
        } by {
            let op = choose|op: OpView| #[trigger]
                makes(f, op, v) && (op.kind matches KindView::Pcode(PcodeView::Plain(PcodeOp::Copy { input, .. })) && is_const(
                    input,
                ) && input.offset == a);
            lemma_sole_definer(f, op, v);
        }
        assert forall|d: i64| #[trigger] in_frame(f, v, d) implies {
            let e = ctx.traced(f, v, steps);
            e.kind == PointsToKind::StackRef && e.stack_disp == Some(d)
        } by {
            let op = choose|op: OpView| #[trigger]
                makes(f, op, v) && (op.kind matches KindView::Pcode(
                    PcodeView::Plain(PcodeOp::IntAdd { left, right, .. }),
                ) && (on_stack(left) && is_const(right) && d == right.offset as i64 || on_stack(right) && is_const(left)
                    && d == left.offset as i64));
            lemma_sole_definer(f, op, v);
        }
        assert forall|name: Seq<char>| #[trigger] is_parameter(f, v, name) implies {
            let e = ctx.traced(f, v, steps);
            e.kind == PointsToKind::ParamPtr && e.symbol == Some(name)
        } by {
            lemma_definer(f, v, f.blocks.len() as int);
            if let Some(op) = definer_of(f, v) {
                let (b, i) = choose|b: int, i: int| #[trigger] made_at(f, v, b, i) && f.blocks[b].ops[i] == op;
                assert(!made_at(f, v, b, i));
            }
        }
    }
}

/// Of several reasons the nearest counts: first a slot of the frame that the access names,
/// then the fixed target of its instruction, then a constant pointer into the data.
pub proof fn law_nearest_evidence_counts(ctx: &PointsToCtx<'_>, f: FunctionView, op: OpView)
    requires
        accesses(op),
    ensures
        ctx.target(f, op) matches Some(e) && {
            let slot = op.uses.len() > 0 && (op.uses[0].location is StackSlot);
            let fixed = ctx.insn_global@.dom().contains(op.va);
            &&& slot ==> e.kind == PointsToKind::StackRef && (op.uses[0].location matches Location::StackSlot {
                disp,
                ..
            } && e.stack_disp == Some(disp))
            &&& !slot && fixed ==> (e.kind == PointsToKind::Global || e.kind == PointsToKind::IATSlot) && e.va == Some(
                ctx.insn_global@[op.va],
            )
            &&& !slot && !fixed ==> forall|a: u64| #[trigger]
                points_at(op, a) && a != 0 && ctx.address_space.data(a) ==> (e.kind == PointsToKind::Global || e.kind
                    == PointsToKind::IATSlot) && e.va == Some(a)
            &&& !slot && !fixed ==> forall|ptr: Varnode, v: SsaVar|
                pointer_of(op) == Some(ptr) && !is_const(ptr) && !is_ram(ptr) && op.uses == seq![v] && #[trigger] carries(
                    op,
                    ptr,
                    v,
                ) ==> e == ctx.traced(f, v, 16)
        },
{
    let ptr = pointer_of(op)->0;
    lemma_used(op.uses, container_base(ptr.offset), 0);
    reveal_with_fuel(target_temporary, 2);
}

// ─── Reports ────────────────────────────────────────────────────────────────

/// Two rows of a report are the same only if their targets are: their kinds, and their addresses,
/// symbols and distances.
pub proof fn law_rows_tell_targets_apart(k: (u64, u32), l: (u64, u32), e: EntryView, d: EntryView)
    requires
        row_of(k, e) == row_of(l, d),
    ensures
        k == l,
        e == d,
{
    reveal_strlit("Global");
    reveal_strlit("IATSlot");
    reveal_strlit("StackRef");
    reveal_strlit("HeapUnknown");
    reveal_strlit("ParamPtr");
    reveal_strlit("0x");
    let a = row_of(k, e);
    let b = row_of(l, d);
    assert(a.kind.len() == b.kind.len());
    assert(a.kind[0] == b.kind[0]);
    lemma_hex_apart(k.0, l.0);
    if let (Some(x), Some(y)) = (e.va, d.va) {
        lemma_hex_apart(x, y);
    }
}

proof fn lemma_hex_apart(x: u64, y: u64)
    ensures
        prefixed_hex(x as nat) == prefixed_hex(y as nat) ==> x == y,
{
    reveal_strlit("0x");
    law_numbers_read_back(x as nat, 0);
    law_numbers_read_back(y as nat, 0);
    assert(prefixed_hex(x as nat).skip(2) =~= hex(x as nat));
    assert(prefixed_hex(y as nat).skip(2) =~= hex(y as nat));
}

} // verus!
