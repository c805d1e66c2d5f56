//! Which definitions are written in place of their uses, and as what.

use vstd::prelude::*;
use crate::maps::TextMap;
use crate::normalize::{frame_adjust, is_arith_contractible, is_arith_op, is_cheap_contractible, is_cheap_op, is_effect_op, is_frame_pointer_adjust, is_load_op, is_protected_op, is_protected_schema_op, op_is_effect, op_is_load, op_is_phi, param_rank, gpr_param_rank, stable_pure};
use crate::ssa::{Location, SsaBlock, SsaFunction, SsaOp, SsaOpKind, SsaVar};
use crate::structure::expr::{op_text, render_op_expr};
use crate::structure::names::{NameCtx, Names};

verus! {

// ─── Counting uses ──────────────────────────────────────────────────────────

/// How often `v` stands among the first `n` of `uses`.
pub open spec fn occurrences(uses: Seq<SsaVar>, v: SsaVar, n: int) -> nat
    decreases n,
{
    if n <= 0 {
        0
    } else {
        occurrences(uses, v, n - 1) + if uses[n - 1] == v {
            1nat
        } else {
            0nat
        }
    }
}

/// How often `v` stands among the first `n` arguments of a phi.
pub open spec fn arg_occurrences(args: Seq<Option<SsaVar>>, v: SsaVar, n: int) -> nat
    decreases n,
{
    if n <= 0 {
        0
    } else {
        arg_occurrences(args, v, n - 1) + if args[n - 1] == Some(v) {
            1nat
        } else {
            0nat
        }
    }
}

/// How often the operation reads `v`.
pub open spec fn uses_in_op(op: SsaOp, v: SsaVar) -> nat {
    occurrences(op.uses@, v, op.uses@.len() as int) + match op.kind {
        SsaOpKind::Phi(phi) => arg_occurrences(phi.args@, v, phi.args@.len() as int),
        SsaOpKind::Pcode(_) => 0,
    }
}

/// How often the first `n` operations read `v`.
pub open spec fn uses_in_ops(ops: Seq<SsaOp>, v: SsaVar, n: int) -> nat
    decreases n,
{
    if n <= 0 {
        0
    } else {
        uses_in_ops(ops, v, n - 1) + uses_in_op(ops[n - 1], v)
    }
}

/// How often the first `n` blocks read `v`.
pub open spec fn uses_in_blocks(ssa: SsaFunction, v: SsaVar, n: int) -> nat
    decreases n,
{
    if n <= 0 {
        0
    } else {
        uses_in_blocks(ssa, v, n - 1) + uses_in_ops(
            ssa.blocks@[n - 1].ops@,
            v,
            ssa.blocks@[n - 1].ops@.len() as int,
        )
    }
}

/// How often the function reads `v`.
pub open spec fn use_count(ssa: SsaFunction, v: SsaVar) -> nat {
    uses_in_blocks(ssa, v, ssa.blocks@.len() as int)
}

/// `n`, as far as it is told apart from larger numbers.
pub open spec fn capped(n: nat) -> nat {
    if n < 40 {
        n
    } else {
        40
    }
}

fn add_capped(a: u8, b: u8) -> (r: u8)
    requires
        a <= 40,
        b <= 40,
    ensures
        forall|x: nat, y: nat| a == capped(x) && b == capped(y) ==> r == #[trigger] capped(x + y),
        r <= 40,
{
    if a + b >= 40 {
        40
    } else {
        a + b
    }
}

fn count_in_op(op: &SsaOp, v: &SsaVar) -> (r: u8)
    ensures
        r == capped(uses_in_op(*op, *v)),
        r <= 40,
{
    let mut total: u8 = 0;
    let mut i: usize = 0;
    while i < op.uses.len()
        invariant
            i <= op.uses@.len(),
            total == capped(occurrences(op.uses@, *v, i as int)),
            total <= 40,
        decreases op.uses@.len() - i,
    {
        if op.uses[i] == *v && total < 40 {
            total += 1;
        }
        i += 1;
    }
    let ghost direct = occurrences(op.uses@, *v, op.uses@.len() as int);
    if let SsaOpKind::Phi(phi) = &op.kind {
        let mut k: usize = 0;
        while k < phi.args.len()
            invariant
                k <= phi.args@.len(),
                total == capped(direct + arg_occurrences(phi.args@, *v, k as int)),
                total <= 40,
            decreases phi.args@.len() - k,
        {
            if let Some(a) = phi.args[k] {
                if a == *v && total < 40 {
                    total += 1;
                }
            }
            k += 1;
        }
    }
    total
}

fn count_in_block(block: &SsaBlock, v: &SsaVar) -> (r: u8)
    ensures
        r == capped(uses_in_ops(block.ops@, *v, block.ops@.len() as int)),
        r <= 40,
{
    let mut total: u8 = 0;
    let mut i: usize = 0;
    while i < block.ops.len()
        invariant
            i <= block.ops@.len(),
            total == capped(uses_in_ops(block.ops@, *v, i as int)),
            total <= 40,
        decreases block.ops@.len() - i,
    {
        let n = count_in_op(&block.ops[i], v);
        total = add_capped(total, n);
        i += 1;
    }
    total
}

/// How often the function reads `v`, up to 40.
pub fn count_uses(ssa: &SsaFunction, v: &SsaVar) -> (r: u8)
    ensures
        r == capped(use_count(*ssa, *v)),
{
    let mut total: u8 = 0;
    let mut b: usize = 0;
    while b < ssa.blocks.len()
        invariant
            b <= ssa.blocks@.len(),
            total == capped(uses_in_blocks(*ssa, *v, b as int)),
            total <= 40,
        decreases ssa.blocks@.len() - b,
    {
        let n = count_in_block(&ssa.blocks[b], v);
        total = add_capped(total, n);
        b += 1;
    }
    total
}

// ─── What can be written in place ───────────────────────────────────────────

/// A value computation: no phi, no access to memory, no transfer of control, no
/// frame adjustment.
pub open spec fn inlineable(op: SsaOp) -> bool {
    op.kind is Pcode && !is_effect_op(op) && !frame_adjust(op)
}

pub fn is_inlineable(op: &SsaOp) -> (r: bool)
    ensures
        r == inlineable(*op),
{
    !op_is_phi(op) && !op_is_effect(op) && !is_frame_pointer_adjust(op)
}

/// A load of a formal: of a stack slot above the frame, or through a parameter
/// register.
pub open spec fn foldable_load(op: SsaOp) -> bool {
    is_load_op(op) && op.uses@.len() > 0 && match op.uses@[0].location {
        Location::StackSlot { disp, .. } => disp > 0,
        Location::Register { base_offset } => param_rank(base_offset) is Some,
        _ => false,
    }
}

pub fn is_foldable_load(op: &SsaOp) -> (r: bool)
    ensures
        r == foldable_load(*op),
{
    if !op_is_load(op) || op.uses.len() == 0 {
        return false;
    }
    match op.uses[0].location {
        Location::StackSlot { disp, .. } => disp > 0,
        Location::Register { base_offset } => gpr_param_rank(base_offset).is_some(),
        _ => false,
    }
}

/// A definition with `n` uses is written in their place: a cast or copy with up to
/// 32, arithmetic with up to 24, a load with up to 4, anything else with up to 2.
pub open spec fn folds_away(op: SsaOp, n: nat) -> bool {
    !is_protected_op(op) && if is_cheap_op(op) && stable_pure(op) {
        1 <= n <= 32
    } else if is_arith_op(op) && stable_pure(op) {
        1 <= n <= 24
    } else if is_load_op(op) {
        1 <= n <= 4
    } else {
        inlineable(op) && n <= 2
    }
}

/// Which definitions a map of expressions takes: those that fold away, or all that
/// a returned value can be composed of.
#[derive(Clone, Copy, Debug, PartialEq, Eq, Structural)]
pub enum Taken {
    Folded,
    Composed,
}

/// The definition of `v` by `op` is taken.
pub open spec fn takes(ssa: SsaFunction, taken: Taken, op: SsaOp, v: SsaVar) -> bool {
    match taken {
        Taken::Folded => folds_away(op, use_count(ssa, v)),
        Taken::Composed => inlineable(op) || foldable_load(op),
    }
}

/// The map after one operation: its expression is added, unless its variable has one.
pub open spec fn with_op(ssa: SsaFunction, taken: Taken, op: SsaOp, m: Map<SsaVar, Seq<char>>, names: Names) -> Map<SsaVar, Seq<char>> {
    match op.def {
        Some(v) => if !m.dom().contains(v) && takes(ssa, taken, op, v) {
            m.insert(v, op_text(op, m, names))
        } else {
            m
        },
        None => m,
    }
}

/// The map after the first `n` operations of a block.
pub open spec fn with_ops(ssa: SsaFunction, taken: Taken, ops: Seq<SsaOp>, n: int, m: Map<SsaVar, Seq<char>>, names: Names) -> Map<SsaVar, Seq<char>>
    decreases n,
{
    if n <= 0 {
        m
    } else {
        with_op(ssa, taken, ops[n - 1], with_ops(ssa, taken, ops, n - 1, m, names), names)
    }
}

/// The map after the first `n` blocks.
pub open spec fn with_blocks(ssa: SsaFunction, taken: Taken, n: int, m: Map<SsaVar, Seq<char>>, names: Names) -> Map<SsaVar, Seq<char>>
    decreases n,
{
    if n <= 0 {
        m
    } else {
        let ops = ssa.blocks@[n - 1].ops@;
        with_ops(ssa, taken, ops, ops.len() as int, with_blocks(ssa, taken, n - 1, m, names), names)
    }
}

/// The map after `k` passes over the function.
pub open spec fn with_passes(ssa: SsaFunction, taken: Taken, k: nat, m: Map<SsaVar, Seq<char>>, names: Names) -> Map<SsaVar, Seq<char>>
    decreases k,
{
    if k == 0 {
        m
    } else {
        with_passes(
            ssa,
            taken,
            (k - 1) as nat,
            with_blocks(ssa, taken, ssa.blocks@.len() as int, m, names),
            names,
        )
    }
}

/// The expressions of the definitions that are taken.
pub open spec fn expressions_of(ssa: SsaFunction, taken: Taken, names: Names) -> Map<SsaVar, Seq<char>> {
    with_passes(ssa, taken, 12, Map::empty(), names)
}

fn is_folded_away(op: &SsaOp, n: u8) -> (r: bool)
    ensures
        forall|k: nat| n == #[trigger] capped(k) ==> r == folds_away(*op, k),
{
    if is_protected_schema_op(op) {
        return false;
    }
    if is_cheap_contractible(op) {
        1 <= n && n <= 32
    } else if is_arith_contractible(op) {
        1 <= n && n <= 24
    } else if op_is_load(op) {
        1 <= n && n <= 4
    } else {
        is_inlineable(op) && n <= 2
    }
}

fn is_taken(ssa: &SsaFunction, taken: Taken, op: &SsaOp, v: &SsaVar) -> (r: bool)
    ensures
        r == takes(*ssa, taken, *op, *v),
{
    match taken {
        Taken::Folded => is_folded_away(op, count_uses(ssa, v)),
        Taken::Composed => is_inlineable(op) || is_foldable_load(op),
    }
}

proof fn lemma_settled(ssa: SsaFunction, taken: Taken, k: nat, m: Map<SsaVar, Seq<char>>, names: Names)
    requires
        with_blocks(ssa, taken, ssa.blocks@.len() as int, m, names) == m,
    ensures
        with_passes(ssa, taken, k, m, names) == m,
    decreases k,
{
    if k > 0 {
        lemma_settled(ssa, taken, (k - 1) as nat, m, names);
    }
}

pub fn build_expressions(ssa: &SsaFunction, taken: Taken, names: &NameCtx<'_>) -> (r: TextMap)
    ensures
        r@ == expressions_of(*ssa, taken, names@),
{
    let mut out = TextMap::new();
    let mut left: u8 = 12;
    let mut grew = true;
    while left > 0 && grew
        invariant
            left <= 12,
            grew ==> with_passes(*ssa, taken, left as nat, out@, names@) == expressions_of(
                *ssa,
                taken,
                names@,
            ),
            !grew ==> out@ == expressions_of(*ssa, taken, names@),
        decreases left,
    {
        let ghost start = out@;
        grew = false;
        let mut b: usize = 0;
        while b < ssa.blocks.len()
            invariant
                b <= ssa.blocks@.len(),
                out@ == with_blocks(*ssa, taken, b as int, start, names@),
                !grew ==> out@ == start,
            decreases ssa.blocks@.len() - b,
        {
            let block = &ssa.blocks[b];
            let ghost before = out@;
            let mut i: usize = 0;
            while i < block.ops.len()
                invariant
                    i <= block.ops@.len(),
                    out@ == with_ops(*ssa, taken, block.ops@, i as int, before, names@),
                    !grew ==> out@ == start,
                decreases block.ops@.len() - i,
            {
                let op = &block.ops[i];
                if let Some(v) = op.def {
                    if !out.has(&v) && is_taken(ssa, taken, op, &v) {
                        let expr = render_op_expr(op, &out, names);
                        out.insert(v, expr);
                        grew = true;
                    }
                }
                i += 1;
            }
            b += 1;
        }
        left -= 1;
        proof {
            if !grew {
                lemma_settled(*ssa, taken, left as nat, start, names@);
            }
        }
    }
    out
}

/// No expression is written in place of a call or a transfer of control.
pub proof fn law_protected_stay(ssa: SsaFunction, op: SsaOp, v: SsaVar)
    requires
        is_protected_op(op),
    ensures
        !takes(ssa, Taken::Folded, op, v),
        !takes(ssa, Taken::Composed, op, v),
{
}

} // verus!
