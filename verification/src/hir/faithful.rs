//! Lowering keeps what the SSA operations read and define.

use vstd::prelude::*;
use crate::hir::function::{HirOperationKind, OperationView};
use crate::hir::lowering::{all_ensured, lowerable, lowered_blocks, lowered_op, lowered_ops, lowering_of, ops_weight, present, read_by, weight, with_exits, LoweringView, SsaOperationKey};
use crate::hir::{OperationId, ProvenanceView, ValueId};
use crate::ssa::reach::reaching;
use crate::ssa::{FunctionView, KindView, OpView, SsaVar};

verus! {

/// The value is that of an argument.
pub open spec fn is_argument(values: Map<SsaVar, ValueId>, args: Seq<Option<SsaVar>>, x: ValueId) -> bool {
    exists|k: int| 0 <= k < args.len() && (#[trigger] args[k]) is Some && values[args[k]->0] == x
}

/// The semantic operation has the value of every variable that the SSA operation reads, in
/// order, and the value of the one that it defines.
pub open spec fn mirrors(values: Map<SsaVar, ValueId>, op: OpView, o: OperationView) -> bool {
    match op.kind {
        KindView::Pcode(_) => {
            &&& o.kind == HirOperationKind::Pcode
            &&& o.inputs.len() == op.uses.len()
            &&& forall|k: int|
                0 <= k < op.uses.len() ==> values.dom().contains(#[trigger] op.uses[k]) && o.inputs[k] == values[op.uses[k]]
            &&& match op.def {
                Some(d) => values.dom().contains(d) && o.output == Some(values[d]),
                None => o.output is None,
            }
        },
        KindView::Phi(phi) => {
            &&& o.kind == HirOperationKind::Phi
            &&& forall|k: int|
                0 <= k < phi.args.len() ==> ((#[trigger] phi.args[k]) matches Some(v) ==> values.dom().contains(v)
                    && o.inputs.contains(values[v]))
            &&& forall|j: int| 0 <= j < o.inputs.len() ==> is_argument(values, phi.args, #[trigger] o.inputs[j])
            &&& values.dom().contains(phi.out)
            &&& o.output == Some(values[phi.out])
        },
    }
}

/// `t` has the values of `s`.
spec fn grown(s: Map<SsaVar, ValueId>, t: Map<SsaVar, ValueId>) -> bool {
    forall|v: SsaVar| #[trigger] s.dom().contains(v) ==> t.dom().contains(v) && t[v] == s[v]
}

proof fn lemma_mirrors_grow(s: Map<SsaVar, ValueId>, t: Map<SsaVar, ValueId>, op: OpView, o: OperationView)
    requires
        grown(s, t),
        mirrors(s, op, o),
    ensures
        mirrors(t, op, o),
{
    if let KindView::Phi(phi) = op.kind {
        assert forall|k: int| 0 <= k < phi.args.len() implies ((#[trigger] phi.args[k]) matches Some(v) ==> t.dom().contains(v)
            && o.inputs.contains(t[v])) by {
            if let Some(v) = phi.args[k] {
                assert(s.dom().contains(v));
            }
        }
        assert forall|j: int| 0 <= j < o.inputs.len() implies is_argument(t, phi.args, #[trigger] o.inputs[j]) by {
            assert(is_argument(s, phi.args, o.inputs[j]));
            let k = choose|k: int|
                0 <= k < phi.args.len() && (#[trigger] phi.args[k]) is Some && s[phi.args[k]->0] == o.inputs[j];
            assert(s.dom().contains(phi.args[k]->0));
            assert(o.inputs[j] == t[phi.args[k]->0]);
        }
        assert(s.dom().contains(phi.out));
    } else {
        assert forall|k: int| 0 <= k < op.uses.len() implies t.dom().contains(#[trigger] op.uses[k]) && o.inputs[k]
            == t[op.uses[k]] by {
            assert(s.dom().contains(op.uses[k]));
        }
        if let Some(d) = op.def {
            assert(s.dom().contains(d));
        }
    }
}

proof fn lemma_all_ensured(s: LoweringView, vars: Seq<SsaVar>, n: int, provenance: ProvenanceView)
    requires
        0 <= n <= vars.len(),
    ensures
        ({
            let t = all_ensured(s, vars, n, provenance);
            &&& grown(s.values, t.values)
            &&& forall|k: int| 0 <= k < n ==> t.values.dom().contains(#[trigger] vars[k])
            &&& t.hir.operations == s.hir.operations
            &&& t.operations == s.operations
        }),
    decreases n,
{
    if n > 0 {
        lemma_all_ensured(s, vars, n - 1, provenance);
    }
}

proof fn lemma_present(args: Seq<Option<SsaVar>>, n: int)
    requires
        0 <= n <= args.len(),
    ensures
        forall|k: int| 0 <= k < n ==> ((#[trigger] args[k]) matches Some(v) ==> present(args, n).contains(v)),
        forall|j: int|
            0 <= j < present(args, n).len() ==> exists|k: int|
                0 <= k < n && #[trigger] args[k] == Some(#[trigger] present(args, n)[j]),
    decreases n,
{
    if n > 0 {
        lemma_present(args, n - 1);
        let less = present(args, n - 1);
        let s = present(args, n);
        assert forall|k: int| 0 <= k < n implies ((#[trigger] args[k]) matches Some(v) ==> s.contains(v)) by {
            if let Some(v) = args[k] {
                if k < n - 1 {
                    assert(less.contains(v));
                    let j = choose|j: int| 0 <= j < less.len() && less[j] == v;
                    assert(s[j] == v);
                } else {
                    assert(s[s.len() - 1] == v);
                }
            }
        }
        assert forall|j: int| 0 <= j < s.len() implies exists|k: int|
            0 <= k < n && #[trigger] args[k] == Some(#[trigger] s[j]) by {
            if j < less.len() {
                assert(s[j] == less[j]);
                let k = choose|k: int| 0 <= k < n - 1 && #[trigger] args[k] == Some(less[j]);
                assert(args[k] == Some(s[j]));
            } else {
                assert(args[n - 1] == Some(s[j]));
            }
        }
    }
}

proof fn lemma_lowered_op(s: LoweringView, block_id: u32, index: u32, op: OpView)
    ensures
        ({
            let t = lowered_op(s, block_id, index, op);
            let n = s.hir.operations.len() as int;
            &&& grown(s.values, t.values)
            &&& t.hir.operations.len() == n + 1
            &&& forall|i: int| 0 <= i < n ==> #[trigger] t.hir.operations[i] == s.hir.operations[i]
            &&& mirrors(t.values, op, t.hir.operations[n])
            &&& t.operations == s.operations.insert(
                SsaOperationKey { block_id, operation_index: index },
                OperationId(n as u32),
            )
        }),
{
    let provenance = crate::hir::lowering::origin_of(op, index);
    let entry = ProvenanceView { kind: crate::hir::ProvenanceKind::Entry, ..provenance };
    let reads = read_by(op);
    let s1 = all_ensured(s, reads, reads.len() as int, entry);
    lemma_all_ensured(s, reads, reads.len() as int, entry);
    let t = lowered_op(s, block_id, index, op);
    let o = t.hir.operations[s.hir.operations.len() as int];
    assert(grown(s1.values, t.values));
    if let KindView::Phi(phi) = op.kind {
        lemma_present(phi.args, phi.args.len() as int);
        assert forall|k: int| 0 <= k < phi.args.len() implies ((#[trigger] phi.args[k]) matches Some(v) ==> t.values.dom().contains(
            v,
        ) && o.inputs.contains(t.values[v])) by {
            if let Some(v) = phi.args[k] {
                assert(reads.contains(v));
                let j = choose|j: int| 0 <= j < reads.len() && reads[j] == v;
                assert(s1.values.dom().contains(reads[j]));
                assert(o.inputs[j] == t.values[v]);
            }
        }
        assert forall|j: int| 0 <= j < o.inputs.len() implies is_argument(t.values, phi.args, #[trigger] o.inputs[j]) by {
            let k = choose|k: int| 0 <= k < phi.args.len() && #[trigger] phi.args[k] == Some(reads[j]);
            assert(s1.values.dom().contains(reads[j]));
            assert(o.inputs[j] == t.values[phi.args[k]->0]);
        }
    } else {
        assert forall|k: int| 0 <= k < op.uses.len() implies t.values.dom().contains(#[trigger] op.uses[k]) && o.inputs[k]
            == t.values[op.uses[k]] by {
            assert(s1.values.dom().contains(reads[k]));
        }
    }
}

/// Operation `i` of block `b` is in the lowering, as it is.
pub open spec fn kept_at(f: FunctionView, s: LoweringView, b: int, i: int) -> bool {
    let key = SsaOperationKey { block_id: f.blocks[b].id, operation_index: i as u32 };
    &&& s.operations.dom().contains(key)
    &&& s.operations[key].0 < s.hir.operations.len()
    &&& mirrors(s.values, f.blocks[b].ops[i], s.hir.operations[s.operations[key].0 as int])
}

/// The blocks have ids of their own, and no block has more operations than ids.
pub open spec fn own_ids(f: FunctionView) -> bool {
    &&& forall|a: int, b: int|
        0 <= a < b < f.blocks.len() ==> (#[trigger] f.blocks[a]).id != (#[trigger] f.blocks[b]).id
    &&& forall|b: int| 0 <= b < f.blocks.len() ==> (#[trigger] f.blocks[b]).ops.len() <= u32::MAX
}

proof fn lemma_lowered_ops(f: FunctionView, s: LoweringView, b: int, n: int)
    requires
        own_ids(f),
        0 <= b < f.blocks.len(),
        0 <= n <= f.blocks[b].ops.len(),
        s.hir.operations.len() + n <= u32::MAX,
        forall|c: int, i: int|
            0 <= c < b && 0 <= i < f.blocks[c].ops.len() ==> #[trigger] kept_at(f, s, c, i),
    ensures
        ({
            let t = lowered_ops(s, f.blocks[b].id, f.blocks[b].ops, n);
            &&& t.hir.operations.len() == s.hir.operations.len() + n
            &&& forall|c: int, i: int|
                0 <= c < b && 0 <= i < f.blocks[c].ops.len() || c == b && 0 <= i < n ==> #[trigger] kept_at(f, t, c, i)
        }),
    decreases n,
{
    if n > 0 {
        lemma_lowered_ops(f, s, b, n - 1);
        let less = lowered_ops(s, f.blocks[b].id, f.blocks[b].ops, n - 1);
        let t = lowered_ops(s, f.blocks[b].id, f.blocks[b].ops, n);
        let index = (n - 1) as u32;
        lemma_lowered_op(less, f.blocks[b].id, index, f.blocks[b].ops[n - 1]);
        assert forall|c: int, i: int|
            0 <= c < b && 0 <= i < f.blocks[c].ops.len() || c == b && 0 <= i < n implies #[trigger] kept_at(f, t, c, i) by {
            let key = SsaOperationKey { block_id: f.blocks[c].id, operation_index: i as u32 };
            if c == b && i == n - 1 {
                assert(key.operation_index == index);
            } else {
                assert(kept_at(f, less, c, i));
                if c < b {
                    assert(f.blocks[c].id != f.blocks[b].id);
                }
                lemma_mirrors_grow(
                    less.values,
                    t.values,
                    f.blocks[c].ops[i],
                    less.hir.operations[less.operations[key].0 as int],
                );
            }
        }
    }
}

proof fn lemma_ops_weight(ops: Seq<OpView>, n: int)
    requires
        0 <= n,
    ensures
        ops_weight(ops, n) >= 2 * n,
    decreases n,
{
    if n > 0 {
        lemma_ops_weight(ops, n - 1);
    }
}

proof fn lemma_lowered_blocks(f: FunctionView, n: int)
    requires
        own_ids(f),
        0 <= n <= f.blocks.len(),
        weight(f, n) <= u32::MAX,
    ensures
        lowered_blocks(f, n).hir.operations.len() <= weight(f, n),
        forall|c: int, i: int|
            0 <= c < n && 0 <= i < f.blocks[c].ops.len() ==> #[trigger] kept_at(f, lowered_blocks(f, n), c, i),
    decreases n,
{
    if n > 0 {
        let ops = f.blocks[n - 1].ops;
        lemma_ops_weight(ops, ops.len() as int);
        lemma_lowered_blocks(f, n - 1);
        lemma_lowered_ops(f, lowered_blocks(f, n - 1), n - 1, ops.len() as int);
    }
}

proof fn lemma_with_exits(f: FunctionView, s: LoweringView, n: int)
    requires
        0 <= n <= f.blocks.len(),
    ensures
        ({
            let t = with_exits(f, s, n);
            &&& t.values == s.values
            &&& t.operations == s.operations
            &&& t.hir.operations == s.hir.operations
            &&& forall|id: u32| #[trigger]
                t.hir.exits.dom().contains(id) ==> s.hir.exits.dom().contains(id) || (reaching(f, id, 0) matches Some(v)
                    && s.values.dom().contains(v) && t.hir.exits[id] == s.values[v])
            &&& forall|b: int|
                0 <= b < n ==> (reaching(f, (#[trigger] f.blocks[b]).id, 0) matches Some(v) ==> (s.values.dom().contains(v)
                    ==> t.hir.exits.dom().contains(f.blocks[b].id)))
        }),
    decreases n,
{
    if n > 0 {
        lemma_with_exits(f, s, n - 1);
    }
}

/// Every operation of the function is in the lowering under its position: it has the values of
/// what the operation reads, in order, and of what it defines. The exit value of a block is
/// what RAX holds where it returns.
pub proof fn law_lowering_mirrors(f: FunctionView)
    requires
        lowerable(f),
        own_ids(f),
    ensures
        forall|b: int, i: int|
            0 <= b < f.blocks.len() && 0 <= i < f.blocks[b].ops.len() ==> #[trigger] kept_at(f, lowering_of(f), b, i),
        forall|id: u32| #[trigger]
            lowering_of(f).hir.exits.dom().contains(id) ==> (reaching(f, id, 0x00) matches Some(v) && lowering_of(
                f,
            ).values.dom().contains(v) && lowering_of(f).hir.exits[id] == lowering_of(f).values[v]),
        forall|b: int|
            0 <= b < f.blocks.len() ==> (reaching(f, (#[trigger] f.blocks[b]).id, 0x00) matches Some(v) ==> (lowering_of(
                f,
            ).values.dom().contains(v) ==> lowering_of(f).hir.exits.dom().contains(f.blocks[b].id))),
{
    let n = f.blocks.len() as int;
    let s = lowered_blocks(f, n);
    lemma_lowered_blocks(f, n);
    lemma_with_exits(f, s, n);
    lemma_no_exits(f, n);
    assert forall|b: int, i: int| 0 <= b < f.blocks.len() && 0 <= i < f.blocks[b].ops.len() implies #[trigger] kept_at(
        f,
        lowering_of(f),
        b,
        i,
    ) by {
        assert(kept_at(f, s, b, i));
    }
}

proof fn lemma_no_exits_in_ops(s: LoweringView, block_id: u32, ops: Seq<OpView>, n: int)
    ensures
        lowered_ops(s, block_id, ops, n).hir.exits == s.hir.exits,
    decreases n,
{
    if n > 0 {
        lemma_no_exits_in_ops(s, block_id, ops, n - 1);
        let less = lowered_ops(s, block_id, ops, n - 1);
        let reads = read_by(ops[n - 1]);
        let provenance = crate::hir::lowering::origin_of(ops[n - 1], (n - 1) as u32);
        let entry = ProvenanceView { kind: crate::hir::ProvenanceKind::Entry, ..provenance };
        lemma_exits_ensured(less, reads, reads.len() as int, entry);
    }
}

proof fn lemma_exits_ensured(s: LoweringView, vars: Seq<SsaVar>, n: int, provenance: ProvenanceView)
    ensures
        all_ensured(s, vars, n, provenance).hir.exits == s.hir.exits,
    decreases n,
{
    if n > 0 {
        lemma_exits_ensured(s, vars, n - 1, provenance);
    }
}

proof fn lemma_no_exits(f: FunctionView, n: int)
    ensures
        lowered_blocks(f, n).hir.exits == Map::<u32, ValueId>::empty(),
    decreases n,
{
    if n > 0 {
        lemma_no_exits(f, n - 1);
        lemma_no_exits_in_ops(
            lowered_blocks(f, n - 1),
            f.blocks[n - 1].id,
            f.blocks[n - 1].ops,
            f.blocks[n - 1].ops.len() as int,
        );
    }
}

} // verus!
