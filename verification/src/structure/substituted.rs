//! What stands behind an expression that is written in place of a variable.

use vstd::prelude::*;
use pcode_ir::PcodeOp;
use crate::ssa::{SsaFunction, SsaOp, SsaOpKind, SsaVar};
use crate::structure::expr::op_text;
use crate::structure::folding::{arg_occurrences, expressions_of, occurrences, use_count, uses_in_blocks, uses_in_op, uses_in_ops, with_blocks, with_op, with_ops, with_passes, Taken};
use crate::structure::names::Names;

verus! {

/// The operation changes nothing but the variable that it defines, and merges nothing.
pub open spec fn replaceable(op: SsaOp) -> bool {
    op.kind matches SsaOpKind::Pcode(p) && match p {
        PcodeOp::Store { .. }
        | PcodeOp::Branch { .. }
        | PcodeOp::CBranch { .. }
        | PcodeOp::BranchInd { .. }
        | PcodeOp::Call { .. }
        | PcodeOp::CallInd { .. }
        | PcodeOp::Return { .. }
        | PcodeOp::CallOther { .. } => false,
        _ => true,
    }
}

/// Operation `i` of block `b` defines `v`, and `text` is its text, where other variables stand
/// as `m` has them.
pub open spec fn written_by(ssa: SsaFunction, names: Names, v: SsaVar, text: Seq<char>, b: int, i: int, m: Map<SsaVar, Seq<char>>) -> bool {
    &&& 0 <= b < ssa.blocks@.len()
    &&& 0 <= i < ssa.blocks@[b].ops@.len()
    &&& ssa.blocks@[b].ops@[i].def == Some(v)
    &&& replaceable(ssa.blocks@[b].ops@[i])
    &&& text == op_text(ssa.blocks@[b].ops@[i], m, names)
    &&& !m.dom().contains(v)
}

/// The expression of `v` is that of an operation that defines it, over expressions that are in
/// the map too.
pub open spec fn backed(ssa: SsaFunction, names: Names, all: Map<SsaVar, Seq<char>>, v: SsaVar) -> bool {
    exists|b: int, i: int, m: Map<SsaVar, Seq<char>>| #[trigger]
        written_by(ssa, names, v, all[v], b, i, m) && m.submap_of(all)
}

/// Every expression of the map is backed.
spec fn all_backed(ssa: SsaFunction, names: Names, all: Map<SsaVar, Seq<char>>) -> bool {
    forall|v: SsaVar| #[trigger] all.dom().contains(v) ==> backed(ssa, names, all, v)
}

proof fn lemma_with_op(ssa: SsaFunction, taken: Taken, b: int, i: int, m: Map<SsaVar, Seq<char>>, names: Names)
    requires
        0 <= b < ssa.blocks@.len(),
        0 <= i < ssa.blocks@[b].ops@.len(),
        all_backed(ssa, names, m),
    ensures
        all_backed(ssa, names, with_op(ssa, taken, ssa.blocks@[b].ops@[i], m, names)),
        m.submap_of(with_op(ssa, taken, ssa.blocks@[b].ops@[i], m, names)),
{
    let op = ssa.blocks@[b].ops@[i];
    let t = with_op(ssa, taken, op, m, names);
    assert(m.submap_of(t));
    assert forall|v: SsaVar| #[trigger] t.dom().contains(v) implies backed(ssa, names, t, v) by {
        if m.dom().contains(v) {
            assert(backed(ssa, names, m, v));
            let (c, j, k) = choose|c: int, j: int, k: Map<SsaVar, Seq<char>>| #[trigger]
                written_by(ssa, names, v, m[v], c, j, k) && k.submap_of(m);
            assert(t[v] == m[v]);
            assert(written_by(ssa, names, v, t[v], c, j, k));
            assert(k.submap_of(t));
        } else {
            assert(op.def == Some(v));
            assert(replaceable(op));
            assert(written_by(ssa, names, v, t[v], b, i, m));
        }
    }
}

proof fn lemma_with_ops(ssa: SsaFunction, taken: Taken, b: int, n: int, m: Map<SsaVar, Seq<char>>, names: Names)
    requires
        0 <= b < ssa.blocks@.len(),
        0 <= n <= ssa.blocks@[b].ops@.len(),
        all_backed(ssa, names, m),
    ensures
        all_backed(ssa, names, with_ops(ssa, taken, ssa.blocks@[b].ops@, n, m, names)),
    decreases n,
{
    if n > 0 {
        lemma_with_ops(ssa, taken, b, n - 1, m, names);
        lemma_with_op(ssa, taken, b, n - 1, with_ops(ssa, taken, ssa.blocks@[b].ops@, n - 1, m, names), names);
    }
}

proof fn lemma_with_blocks(ssa: SsaFunction, taken: Taken, n: int, m: Map<SsaVar, Seq<char>>, names: Names)
    requires
        0 <= n <= ssa.blocks@.len(),
        all_backed(ssa, names, m),
    ensures
        all_backed(ssa, names, with_blocks(ssa, taken, n, m, names)),
    decreases n,
{
    if n > 0 {
        lemma_with_blocks(ssa, taken, n - 1, m, names);
        lemma_with_ops(
            ssa,
            taken,
            n - 1,
            ssa.blocks@[n - 1].ops@.len() as int,
            with_blocks(ssa, taken, n - 1, m, names),
            names,
        );
    }
}

proof fn lemma_with_passes(ssa: SsaFunction, taken: Taken, k: nat, m: Map<SsaVar, Seq<char>>, names: Names)
    requires
        all_backed(ssa, names, m),
    ensures
        all_backed(ssa, names, with_passes(ssa, taken, k, m, names)),
    decreases k,
{
    if k > 0 {
        lemma_with_blocks(ssa, taken, ssa.blocks@.len() as int, m, names);
        lemma_with_passes(
            ssa,
            taken,
            (k - 1) as nat,
            with_blocks(ssa, taken, ssa.blocks@.len() as int, m, names),
            names,
        );
    }
}

/// An expression that is written in place of a variable is the text of an operation that
/// defines the variable, and that operation neither stores, calls nor transfers control.
pub proof fn law_expressions_are_backed(ssa: SsaFunction, taken: Taken, names: Names, v: SsaVar)
    requires
        expressions_of(ssa, taken, names).dom().contains(v),
    ensures
        backed(ssa, names, expressions_of(ssa, taken, names), v),
{
    assert(all_backed(ssa, names, Map::empty()));
    lemma_with_passes(ssa, taken, 12, Map::empty(), names);
}

// ─── Uses ───────────────────────────────────────────────────────────────────

/// The operation reads `v`, as a use or as an argument.
pub open spec fn reads_variable(op: SsaOp, v: SsaVar) -> bool {
    ||| op.uses@.contains(v)
    ||| (op.kind matches SsaOpKind::Phi(phi) && phi.args@.contains(Some(v)))
}

proof fn lemma_occurrences(uses: Seq<SsaVar>, v: SsaVar, n: int)
    requires
        0 <= n <= uses.len(),
    ensures
        occurrences(uses, v, n) == 0 <==> forall|i: int| 0 <= i < n ==> #[trigger] uses[i] != v,
    decreases n,
{
    if n > 0 {
        lemma_occurrences(uses, v, n - 1);
        if occurrences(uses, v, n) > 0 && uses[n - 1] != v {
            let i = choose|i: int| 0 <= i < n - 1 && #[trigger] uses[i] == v;
            assert(uses[i] == v);
        }
    }
}

proof fn lemma_arg_occurrences(args: Seq<Option<SsaVar>>, v: SsaVar, n: int)
    requires
        0 <= n <= args.len(),
    ensures
        arg_occurrences(args, v, n) == 0 <==> forall|i: int| 0 <= i < n ==> #[trigger] args[i] != Some(v),
    decreases n,
{
    if n > 0 {
        lemma_arg_occurrences(args, v, n - 1);
        if arg_occurrences(args, v, n) > 0 && args[n - 1] != Some(v) {
            let i = choose|i: int| 0 <= i < n - 1 && #[trigger] args[i] == Some(v);
            assert(args[i] == Some(v));
        }
    }
}

proof fn lemma_uses_in_op(op: SsaOp, v: SsaVar)
    ensures
        uses_in_op(op, v) == 0 <==> !reads_variable(op, v),
{
    lemma_occurrences(op.uses@, v, op.uses@.len() as int);
    if op.uses@.contains(v) {
        let i = choose|i: int| 0 <= i < op.uses@.len() && op.uses@[i] == v;
        assert(op.uses@[i] == v);
    }
    if let SsaOpKind::Phi(phi) = op.kind {
        lemma_arg_occurrences(phi.args@, v, phi.args@.len() as int);
        if phi.args@.contains(Some(v)) {
            let i = choose|i: int| 0 <= i < phi.args@.len() && phi.args@[i] == Some(v);
            assert(phi.args@[i] == Some(v));
        }
    }
}

proof fn lemma_uses_in_ops(ops: Seq<SsaOp>, v: SsaVar, n: int)
    requires
        0 <= n <= ops.len(),
    ensures
        uses_in_ops(ops, v, n) == 0 <==> forall|i: int| 0 <= i < n ==> !reads_variable(#[trigger] ops[i], v),
    decreases n,
{
    if n > 0 {
        lemma_uses_in_ops(ops, v, n - 1);
        lemma_uses_in_op(ops[n - 1], v);
        if uses_in_ops(ops, v, n) > 0 && !reads_variable(ops[n - 1], v) {
            let i = choose|i: int| 0 <= i < n - 1 && reads_variable(#[trigger] ops[i], v);
            assert(reads_variable(ops[i], v));
        }
    }
}

proof fn lemma_uses_in_blocks(ssa: SsaFunction, v: SsaVar, n: int)
    requires
        0 <= n <= ssa.blocks@.len(),
    ensures
        uses_in_blocks(ssa, v, n) == 0 <==> forall|b: int, i: int|
            0 <= b < n && 0 <= i < ssa.blocks@[b].ops@.len() ==> !reads_variable(#[trigger] ssa.blocks@[b].ops@[i], v),
    decreases n,
{
    if n > 0 {
        let ops = ssa.blocks@[n - 1].ops@;
        lemma_uses_in_blocks(ssa, v, n - 1);
        lemma_uses_in_ops(ops, v, ops.len() as int);
        if uses_in_blocks(ssa, v, n) > 0 {
            if uses_in_blocks(ssa, v, n - 1) > 0 {
                let (b, i) = choose|b: int, i: int|
                    0 <= b < n - 1 && 0 <= i < ssa.blocks@[b].ops@.len() && reads_variable(
                        #[trigger] ssa.blocks@[b].ops@[i],
                        v,
                    );
                assert(reads_variable(ssa.blocks@[b].ops@[i], v));
            } else {
                let i = choose|i: int| 0 <= i < ops.len() && reads_variable(#[trigger] ops[i], v);
                assert(reads_variable(ssa.blocks@[n - 1].ops@[i], v));
            }
        } else {
            assert forall|b: int, i: int| 0 <= b < n && 0 <= i < ssa.blocks@[b].ops@.len() implies !reads_variable(
                #[trigger] ssa.blocks@[b].ops@[i],
                v,
            ) by {
                if b == n - 1 {
                    assert(!reads_variable(ops[i], v));
                }
            }
        }
    }
}

/// A variable counts as unused exactly if no operation reads it, be it as a use or as an
/// argument of a merge.
pub proof fn law_unused_is_unread(ssa: SsaFunction, v: SsaVar)
    ensures
        use_count(ssa, v) == 0 <==> forall|b: int, i: int|
            0 <= b < ssa.blocks@.len() && 0 <= i < ssa.blocks@[b].ops@.len() ==> !reads_variable(
                #[trigger] ssa.blocks@[b].ops@[i],
                v,
            ),
{
    lemma_uses_in_blocks(ssa, v, ssa.blocks@.len() as int);
}

} // verus!
