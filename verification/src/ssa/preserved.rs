//! What simplification preserves: every action of the function, its order, and the
//! value of everything that is still read.

use vstd::prelude::*;
use pcode_ir::PcodeOp;
use crate::maps::{lemma_root_free, lemma_unite_settled, root, settled, unite};
use crate::pcode::op_view;
use crate::ssa::simplify::{agreed, all_ops, anchored, circular, copies_of, defines, feeds, first_defined, flat, kept, kept_ops, law_effects_kept, law_reads_kept, lemma_copies_settled, lemma_def_index, lemma_first_defined, lemma_flat_inside, live_chain, phi_pass, phi_passes, phis_of, pruned, pruned_block, reads, repointed, resolved, roots, Phis, Resolved};
use crate::ssa::{KindView, Location, OpView, SsaFunction, SsaOp, SsaOpKind, SsaVar};

verus! {

// ─── Values ─────────────────────────────────────────────────────────────────

/// Every defined argument of a phi has the value `x`, and there is one.
pub open spec fn merges_to(args: Seq<Option<SsaVar>>, val: spec_fn(SsaVar) -> int, x: int) -> bool {
    &&& exists|k: int| 0 <= k < args.len() && (#[trigger] args[k]) is Some
    &&& forall|k: int| 0 <= k < args.len() && (#[trigger] args[k]) is Some ==> val(args[k]->0) == x
}

/// `val` gives the operation its meaning as far as it moves values: a copy gives its
/// result the value that it copies, and a phi the one value that its arguments have.
pub open spec fn moves_value(op: SsaOp, val: spec_fn(SsaVar) -> int) -> bool {
    match op.kind {
        SsaOpKind::Pcode(PcodeOp::Copy { input, .. }) => op.def is Some ==> if input.space is Const {
            val(op.def->0) == input.offset
        } else {
            op.uses@.len() > 0 ==> val(op.def->0) == val(op.uses@[0])
        },
        SsaOpKind::Phi(phi) => forall|x: int| #[trigger] merges_to(phi.args@, val, x) ==> val(phi.out) == x,
        _ => true,
    }
}

/// `val` gives every operation its meaning.
pub open spec fn is_run(ssa: SsaFunction, val: spec_fn(SsaVar) -> int) -> bool {
    forall|b: int, i: int|
        0 <= b < ssa.blocks@.len() && 0 <= i < ssa.blocks@[b].ops@.len() ==> moves_value(
            #[trigger] ssa.blocks@[b].ops@[i],
            val,
        )
}

/// Representatives have the value of what they stand for.
spec fn faithful(rep: Map<SsaVar, SsaVar>, val: spec_fn(SsaVar) -> int) -> bool {
    forall|v: SsaVar| val(#[trigger] root(rep, v)) == val(v)
}

proof fn lemma_unite_faithful(rep: Map<SsaVar, SsaVar>, a: SsaVar, b: SsaVar, val: spec_fn(SsaVar) -> int)
    requires
        faithful(rep, val),
        val(a) == val(b),
    ensures
        faithful(unite(rep, a, b), val),
{
    assert forall|v: SsaVar| val(#[trigger] root(unite(rep, a, b), v)) == val(v) by {
        assert(val(root(rep, v)) == val(v));
    }
}

proof fn lemma_copies_faithful(ops: Seq<SsaOp>, n: int, val: spec_fn(SsaVar) -> int)
    requires
        0 <= n <= ops.len(),
        forall|i: int| 0 <= i < ops.len() ==> moves_value(#[trigger] ops[i], val),
    ensures
        faithful(copies_of(ops, n).rep, val),
    decreases n,
{
    if n > 0 {
        lemma_copies_faithful(ops, n - 1, val);
        let c = copies_of(ops, n - 1);
        let op = ops[n - 1];
        assert(moves_value(op, val));
        if let SsaOpKind::Pcode(PcodeOp::Copy { input, .. }) = op.kind {
            if op.def is Some && op.uses@.len() > 0 && !(input.space is Const) {
                let a = root(c.rep, op.def->0);
                let b = root(c.rep, op.uses@[0]);
                assert(val(a) == val(op.def->0));
                assert(val(b) == val(op.uses@[0]));
                lemma_unite_faithful(c.rep, a, b, val);
            }
        }
    }
}

proof fn lemma_pass_faithful(ops: Seq<SsaOp>, n: int, p: Phis, val: spec_fn(SsaVar) -> int)
    requires
        0 <= n <= ops.len(),
        forall|i: int| 0 <= i < ops.len() ==> moves_value(#[trigger] ops[i], val),
        faithful(p.rep, val),
    ensures
        faithful(phi_pass(ops, n, p).rep, val),
    decreases n,
{
    if n > 0 {
        lemma_pass_faithful(ops, n - 1, p, val);
        let q = phi_pass(ops, n - 1, p);
        let op = ops[n - 1];
        assert(moves_value(op, val));
        if let SsaOpKind::Phi(phi) = op.kind {
            if let Some(Resolved::Var(t)) = agreed(q.rep, q.value, phi.args@) {
                lemma_first_defined(phi.args@, 0);
                let f = first_defined(phi.args@, 0);
                assert(phi.args@[f] is Some);
                assert forall|k: int| 0 <= k < phi.args@.len() && (#[trigger] phi.args@[k]) is Some implies val(
                    phi.args@[k]->0,
                ) == val(t) by {
                    assert(resolved(q.rep, q.value, phi.args@[k]->0) == Resolved::Var(t));
                    assert(val(root(q.rep, phi.args@[k]->0)) == val(phi.args@[k]->0));
                }
                assert(merges_to(phi.args@, val, val(t)));
                assert(val(root(q.rep, phi.out)) == val(phi.out));
                assert(val(root(q.rep, t)) == val(t));
                lemma_unite_faithful(q.rep, root(q.rep, phi.out), root(q.rep, t), val);
            }
        }
    }
}

proof fn lemma_passes_faithful(ops: Seq<SsaOp>, k: nat, p: Phis, val: spec_fn(SsaVar) -> int)
    requires
        forall|i: int| 0 <= i < ops.len() ==> moves_value(#[trigger] ops[i], val),
        faithful(p.rep, val),
    ensures
        faithful(phi_passes(ops, k, p).rep, val),
    decreases k,
{
    if k > 0 {
        lemma_pass_faithful(ops, ops.len() as int, p, val);
        let q = phi_pass(ops, ops.len() as int, p);
        if q.collapsed != p.collapsed {
            lemma_passes_faithful(ops, (k - 1) as nat, q, val);
        }
    }
}

// ─── Operations ─────────────────────────────────────────────────────────────

/// The operation acts on memory or on the flow of control.
pub open spec fn acts(op: SsaOp) -> bool {
    match op.kind {
        SsaOpKind::Pcode(p) => match p {
            PcodeOp::Store { .. } => true,
            PcodeOp::Load { .. } => true,
            PcodeOp::Branch { .. } => true,
            PcodeOp::CBranch { .. } => true,
            PcodeOp::BranchInd { .. } => true,
            PcodeOp::Call { .. } => true,
            PcodeOp::CallInd { .. } => true,
            PcodeOp::Return { .. } => true,
            PcodeOp::CallOther { .. } => true,
            _ => false,
        },
        SsaOpKind::Phi(_) => false,
    }
}

/// `new` is `op`, reading variables of the same values.
pub open spec fn same_but_for_names(new: OpView, op: SsaOp, val: spec_fn(SsaVar) -> int) -> bool {
    &&& new.va == op.va
    &&& new.def == op.def
    &&& new.uses.len() == op.uses@.len()
    &&& forall|k: int| 0 <= k < op.uses@.len() ==> val(#[trigger] new.uses[k]) == val(op.uses@[k])
    &&& match op.kind {
        SsaOpKind::Pcode(p) => new.kind == KindView::Pcode(op_view(p)),
        SsaOpKind::Phi(phi) => {
            &&& new.kind is Phi
            &&& new.kind->Phi_0.out == phi.out
            &&& new.kind->Phi_0.args.len() == phi.args@.len()
            &&& forall|k: int|
                0 <= k < phi.args@.len() ==> match #[trigger] phi.args@[k] {
                    Some(v) => new.kind->Phi_0.args[k] is Some && val(new.kind->Phi_0.args[k]->0) == val(v),
                    None => new.kind->Phi_0.args[k] is None,
                }
        },
    }
}

/// The operation defines a value that it does not read.
pub open spec fn makes_value(op: SsaOp, val: spec_fn(SsaVar) -> int) -> bool {
    &&& op.def is Some
    &&& forall|k: int| 0 <= k < op.uses@.len() ==> val(#[trigger] op.uses@[k]) != val(op.def->0)
    &&& match op.kind {
        SsaOpKind::Phi(phi) => forall|k: int|
            0 <= k < phi.args@.len() && (#[trigger] phi.args@[k]) is Some ==> val(phi.args@[k]->0) != val(op.def->0),
        SsaOpKind::Pcode(_) => true,
    }
}

/// Some operation of the function returns.
pub open spec fn gives_back(ssa: SsaFunction) -> bool {
    exists|b: int, i: int|
        0 <= b < ssa.blocks@.len() && 0 <= i < ssa.blocks@[b].ops@.len() && (
        #[trigger] ssa.blocks@[b].ops@[i]).kind matches SsaOpKind::Pcode(PcodeOp::Return { .. })
}

/// The operation has to stay: it acts, or it makes a value of RAX in a function that
/// returns.
pub open spec fn has_to_stay(ssa: SsaFunction, op: SsaOp, val: spec_fn(SsaVar) -> int) -> bool {
    acts(op) || (gives_back(ssa) && op.def is Some && op.def->0.location == (Location::Register { base_offset: 0 })
        && makes_value(op, val))
}

/// The operations `new` are those of `old` at the places `pick`, in their order, and
/// none is missing that has to stay.
pub open spec fn picked_from(ssa: SsaFunction, new: Seq<OpView>, old: Seq<SsaOp>, pick: Seq<int>, val: spec_fn(SsaVar) -> int) -> bool {
    &&& pick.len() == new.len()
    &&& forall|j: int| 0 <= j < pick.len() ==> 0 <= #[trigger] pick[j] < old.len()
    &&& forall|j: int, k: int| 0 <= j < k < pick.len() ==> #[trigger] pick[j] < #[trigger] pick[k]
    &&& forall|j: int| 0 <= j < pick.len() ==> same_but_for_names(#[trigger] new[j], old[pick[j]], val)
    &&& forall|i: int|
        0 <= i < old.len() && has_to_stay(ssa, #[trigger] old[i], val) ==> pick.contains(i)
}

proof fn lemma_kept_shape(ops: Seq<SsaOp>, rep: Map<SsaVar, SsaVar>, a: int, b: int, val: spec_fn(SsaVar) -> int) -> (pick: Seq<int>)
    requires
        0 <= a <= b <= ops.len(),
        faithful(rep, val),
    ensures
        pick.len() == kept_ops(ops, rep, a, b).len(),
        forall|j: int| 0 <= j < pick.len() ==> a <= #[trigger] pick[j] < b,
        forall|j: int, k: int| 0 <= j < k < pick.len() ==> #[trigger] pick[j] < #[trigger] pick[k],
        forall|j: int|
            0 <= j < pick.len() ==> same_but_for_names(#[trigger] kept_ops(ops, rep, a, b)[j], ops[pick[j]], val),
        forall|i: int| a <= i < b && #[trigger] kept(ops, rep, i) ==> pick.contains(i),
    decreases b - a,
{
    if b <= a {
        Seq::empty()
    } else {
        let less = lemma_kept_shape(ops, rep, a, b - 1, val);
        let before = kept_ops(ops, rep, a, b - 1);
        let now = kept_ops(ops, rep, a, b);
        if kept(ops, rep, b - 1) {
            let pick = less.push(b - 1);
            let op = ops[b - 1];
            let new = repointed(rep, op);
            assert forall|k: int| 0 <= k < op.uses@.len() implies val(#[trigger] new.uses[k]) == val(op.uses@[k]) by {
                assert(new.uses[k] == root(rep, op.uses@[k]));
            }
            if let SsaOpKind::Phi(phi) = op.kind {
                assert forall|k: int| 0 <= k < phi.args@.len() implies (match #[trigger] phi.args@[k] {
                    Some(v) => new.kind->Phi_0.args[k] is Some && val(new.kind->Phi_0.args[k]->0) == val(v),
                    None => new.kind->Phi_0.args[k] is None,
                }) by {
                    if let Some(v) = phi.args@[k] {
                        assert(new.kind->Phi_0.args[k] == Some(root(rep, v)));
                    }
                }
            }
            assert(same_but_for_names(new, op, val));
            assert forall|j: int| 0 <= j < pick.len() implies same_but_for_names(#[trigger] now[j], ops[pick[j]], val) by {
                if j < less.len() {
                    assert(now[j] == before[j]);
                }
            }
            assert forall|i: int| a <= i < b && #[trigger] kept(ops, rep, i) implies pick.contains(i) by {
                if i < b - 1 {
                    let j = choose|j: int| 0 <= j < less.len() && less[j] == i;
                    assert(pick[j] == i);
                } else {
                    assert(pick[less.len() as int] == i);
                }
            }
            pick
        } else {
            less
        }
    }
}

/// What makes a value that it does not read is not circular.
proof fn lemma_not_circular(rep: Map<SsaVar, SsaVar>, op: SsaOp, val: spec_fn(SsaVar) -> int)
    requires
        faithful(rep, val),
        makes_value(op, val),
    ensures
        !circular(rep, op),
{
    let d = root(rep, op.def->0);
    assert(val(d) == val(op.def->0));
    if reads(rep, op, d) {
        if roots(rep, op.uses@).contains(d) {
            let k = choose|k: int| 0 <= k < roots(rep, op.uses@).len() && roots(rep, op.uses@)[k] == d;
            assert(val(root(rep, op.uses@[k])) == val(op.uses@[k]));
        } else if let SsaOpKind::Phi(phi) = op.kind {
            let args = crate::ssa::simplify::arg_roots(rep, phi.args@);
            let k = choose|k: int| 0 <= k < args.len() && args[k] == Some(d);
            assert(phi.args@[k] is Some);
            assert(val(root(rep, phi.args@[k]->0)) == val(phi.args@[k]->0));
        }
    }
}

/// The operations of a block stand in a row among those of the function.
proof fn lemma_in_row(ssa: SsaFunction, b: int, i: int)
    requires
        0 <= b < ssa.blocks@.len(),
        0 <= i < ssa.blocks@[b].ops@.len(),
    ensures
        flat(ssa, b).len() + i < flat(ssa, b + 1).len() <= all_ops(ssa).len(),
        all_ops(ssa)[flat(ssa, b).len() + i] == ssa.blocks@[b].ops@[i],
{
    lemma_flat_inside(ssa, b + 1, ssa.blocks@.len() as int);
    assert(flat(ssa, b + 1)[flat(ssa, b).len() + i] == ssa.blocks@[b].ops@[i]);
}

proof fn lemma_faithful(ssa: SsaFunction, val: spec_fn(SsaVar) -> int)
    requires
        is_run(ssa, val),
    ensures
        faithful(phis_of(all_ops(ssa)).rep, val),
{
    let ops = all_ops(ssa);
    assert forall|j: int| 0 <= j < ops.len() implies moves_value(#[trigger] ops[j], val) by {
        let at = lemma_place(ssa, ssa.blocks@.len() as int, j);
        assert(moves_value(ssa.blocks@[at.0].ops@[at.1], val));
    }
    let c = copies_of(ops, ops.len() as int);
    lemma_copies_faithful(ops, ops.len() as int, val);
    lemma_passes_faithful(ops, ops.len() + 1, Phis { rep: c.rep, value: c.value, collapsed: 0 }, val);
}

/// Whatever the values are, the operations of a simplified block are those of the block in
/// their order, each with its address, its P-code and its definition, reading the same
/// values. Stores, loads, branches of every kind, calls of every kind, returns and
/// user-defined operations are all there, and so is what makes a value of RAX in a
/// function that returns.
pub proof fn law_simplified_block(ssa: SsaFunction, val: spec_fn(SsaVar) -> int, b: int)
    requires
        is_run(ssa, val),
        0 <= b < ssa.blocks@.len(),
    ensures
        exists|pick: Seq<int>| #[trigger]
            picked_from(ssa, pruned(ssa).blocks[b].ops, ssa.blocks@[b].ops@, pick, val),
{
    let ops = all_ops(ssa);
    let old = ssa.blocks@[b].ops@;
    let rep = phis_of(ops).rep;
    lemma_faithful(ssa, val);
    let a = flat(ssa, b).len() as int;
    let z = flat(ssa, b + 1).len() as int;
    lemma_flat_inside(ssa, b + 1, ssa.blocks@.len() as int);
    let far = lemma_kept_shape(ops, rep, a, z, val);
    let pick = Seq::new(far.len(), |j: int| far[j] - a);
    assert(pruned(ssa).blocks[b] == pruned_block(ssa, rep, b));
    let new = pruned(ssa).blocks[b].ops;
    assert(new == kept_ops(ops, rep, a, z));
    assert forall|j: int| 0 <= j < pick.len() implies 0 <= #[trigger] pick[j] < old.len() by {
        assert(a <= far[j] < z);
    }
    assert forall|j: int| 0 <= j < pick.len() implies same_but_for_names(#[trigger] new[j], old[pick[j]], val) by {
        assert(a <= far[j] < z);
        lemma_in_row(ssa, b, pick[j]);
    }
    assert forall|j: int, k: int| 0 <= j < k < pick.len() implies #[trigger] pick[j] < #[trigger] pick[k] by {
        assert(far[j] < far[k]);
    }
    assert forall|i: int| 0 <= i < old.len() && has_to_stay(ssa, #[trigger] old[i], val) implies pick.contains(i) by {
        lemma_in_row(ssa, b, i);
        let at = a + i;
        assert(ops[at] == old[i]);
        if acts(old[i]) {
            law_effects_kept(ops, rep, at);
        } else {
            lemma_not_circular(rep, old[i], val);
            let (c, k) = choose|c: int, k: int|
                0 <= c < ssa.blocks@.len() && 0 <= k < ssa.blocks@[c].ops@.len() && (
                #[trigger] ssa.blocks@[c].ops@[k]).kind matches SsaOpKind::Pcode(PcodeOp::Return { .. });
            lemma_in_row(ssa, c, k);
            assert(crate::normalize::is_return_op(ops[flat(ssa, c).len() + k]));
            assert(anchored(ops, rep, at));
            assert(live_chain(ops, rep, seq![at], at));
        }
        assert(kept(ops, rep, at));
        let j = choose|j: int| 0 <= j < far.len() && far[j] == at;
        assert(pick[j] == i);
    }
    assert(picked_from(ssa, new, old, pick, val));
}

/// No two operations define the same variable.
pub open spec fn defined_once(ssa: SsaFunction) -> bool {
    forall|b: int, i: int, c: int, j: int|
        #![trigger ssa.blocks@[b].ops@[i], ssa.blocks@[c].ops@[j]]
        0 <= b < ssa.blocks@.len() && 0 <= i < ssa.blocks@[b].ops@.len() && 0 <= c < ssa.blocks@.len() && 0 <= j
            < ssa.blocks@[c].ops@.len() && ssa.blocks@[b].ops@[i].def is Some && ssa.blocks@[b].ops@[i].def
            == ssa.blocks@[c].ops@[j].def ==> b == c && i == j
}

/// The operation reads `v`, as an operand or as an argument of a phi.
pub open spec fn needs(op: OpView, v: SsaVar) -> bool {
    op.uses.contains(v) || (op.kind is Phi && op.kind->Phi_0.args.contains(Some(v)))
}

/// Position of the operation that a kept one comes from.
proof fn lemma_kept_source(ops: Seq<SsaOp>, rep: Map<SsaVar, SsaVar>, a: int, b: int, j: int) -> (i: int)
    requires
        0 <= a <= b <= ops.len(),
        0 <= j < kept_ops(ops, rep, a, b).len(),
    ensures
        a <= i < b,
        kept(ops, rep, i),
        kept_ops(ops, rep, a, b)[j] == repointed(rep, ops[i]),
    decreases b - a,
{
    if b <= a {
        0
    } else if kept(ops, rep, b - 1) && j == kept_ops(ops, rep, a, b - 1).len() {
        b - 1
    } else {
        lemma_kept_source(ops, rep, a, b - 1, j)
    }
}

proof fn lemma_kept_place(ops: Seq<SsaOp>, rep: Map<SsaVar, SsaVar>, a: int, b: int, i: int) -> (j: int)
    requires
        0 <= a <= i < b <= ops.len(),
        kept(ops, rep, i),
    ensures
        0 <= j < kept_ops(ops, rep, a, b).len(),
        kept_ops(ops, rep, a, b)[j] == repointed(rep, ops[i]),
    decreases b - a,
{
    if i == b - 1 {
        kept_ops(ops, rep, a, b).len() - 1
    } else {
        lemma_kept_place(ops, rep, a, b - 1, i)
    }
}

/// What a simplified function reads it still defines: where an operation that is left
/// reads a variable, the operation that makes its value is left too.
pub proof fn law_simplified_defines(ssa: SsaFunction, val: spec_fn(SsaVar) -> int, b: int, j: int, v: SsaVar, c: int, i: int)
    requires
        is_run(ssa, val),
        defined_once(ssa),
        0 <= b < ssa.blocks@.len(),
        0 <= j < pruned(ssa).blocks[b].ops.len(),
        needs(pruned(ssa).blocks[b].ops[j], v),
        0 <= c < ssa.blocks@.len(),
        0 <= i < ssa.blocks@[c].ops@.len(),
        ssa.blocks@[c].ops@[i].def == Some(v),
        makes_value(ssa.blocks@[c].ops@[i], val),
    ensures
        exists|k: int|
            0 <= k < pruned(ssa).blocks[c].ops.len() && (#[trigger] pruned(ssa).blocks[c].ops[k]).def == Some(v)
                && pruned(ssa).blocks[c].ops[k].va == ssa.blocks@[c].ops@[i].va,
{
    let ops = all_ops(ssa);
    let rep = phis_of(ops).rep;
    lemma_faithful(ssa, val);
    lemma_flat_inside(ssa, b + 1, ssa.blocks@.len() as int);
    lemma_flat_inside(ssa, c + 1, ssa.blocks@.len() as int);
    let a = flat(ssa, b).len() as int;
    let z = flat(ssa, b + 1).len() as int;
    let from = lemma_kept_source(ops, rep, a, z, j);
    lemma_in_row(ssa, c, i);
    let at = flat(ssa, c).len() + i;
    assert(ops[at] == ssa.blocks@[c].ops@[i]);
    lemma_def_index(ops, ops.len() as int, v);
    lemma_last_def(ops, ops.len() as int, v, at);
    let d = defines(ops, v)->0;
    let place = lemma_place(ssa, ssa.blocks@.len() as int, d);
    let whence = ssa.blocks@[place.0].ops@[place.1];
    assert(ssa.blocks@[c].ops@[i].def == whence.def);
    assert(ops[d] == ops[at]);
    lemma_same_place(ssa, d, at);
    assert(reads(rep, ops[from], v));
    assert(feeds(ops, rep, at, from));
    lemma_not_circular(rep, ops[at], val);
    law_reads_kept(ops, rep, at, from);
    let k = lemma_kept_place(ops, rep, flat(ssa, c).len() as int, flat(ssa, c + 1).len() as int, at);
    assert(pruned(ssa).blocks[c].ops[k] == repointed(rep, ops[at]));
}

/// A variable that is defined has a last definition.
proof fn lemma_last_def(ops: Seq<SsaOp>, n: int, v: SsaVar, i: int)
    requires
        0 <= i < n <= ops.len(),
        ops[i].def == Some(v),
    ensures
        crate::ssa::simplify::def_index(ops, n, v) is Some,
    decreases n,
{
    if i < n - 1 && ops[n - 1].def != Some(v) {
        lemma_last_def(ops, n - 1, v, i);
    }
}

/// Two places of the row with one definition are one place.
proof fn lemma_same_place(ssa: SsaFunction, x: int, y: int)
    requires
        defined_once(ssa),
        0 <= x < all_ops(ssa).len(),
        0 <= y < all_ops(ssa).len(),
        all_ops(ssa)[x].def is Some,
        all_ops(ssa)[x].def == all_ops(ssa)[y].def,
    ensures
        x == y,
{
    let n = ssa.blocks@.len() as int;
    let p = lemma_place(ssa, n, x);
    let q = lemma_place(ssa, n, y);
    let a = ssa.blocks@[p.0].ops@[p.1];
    let b = ssa.blocks@[q.0].ops@[q.1];
    assert(a.def == b.def);
}

/// Every operation of the row stands in a block.
proof fn lemma_place(ssa: SsaFunction, n: int, j: int) -> (at: (int, int))
    requires
        0 <= n <= ssa.blocks@.len(),
        0 <= j < flat(ssa, n).len(),
    ensures
        0 <= at.0 < n,
        0 <= at.1 < ssa.blocks@[at.0].ops@.len(),
        flat(ssa, n)[j] == ssa.blocks@[at.0].ops@[at.1],
        j == flat(ssa, at.0).len() + at.1,
    decreases n,
{
    if n <= 0 {
        (0, 0)
    } else if j < flat(ssa, n - 1).len() {
        lemma_place(ssa, n - 1, j)
    } else {
        (n - 1, j - flat(ssa, n - 1).len())
    }
}

// ─── What is reported ───────────────────────────────────────────────────────

/// The operation sets a variable to a constant.
pub open spec fn sets_constant(op: SsaOp, value: u64, size: u32) -> bool {
    op.def is Some && (op.kind matches SsaOpKind::Pcode(PcodeOp::Copy { input, .. }) && input.space is Const
        && input.offset == value && input.size == size)
}

/// The operation copies a variable.
pub open spec fn copies_variable(op: SsaOp) -> bool {
    op.def is Some && op.uses@.len() > 0 && (op.kind matches SsaOpKind::Pcode(PcodeOp::Copy { input, .. })
        && !(input.space is Const))
}

/// The constants that are reported are those that the first `n` operations set.
pub proof fn law_constants_reported(ops: Seq<SsaOp>, n: int)
    requires
        0 <= n <= ops.len(),
    ensures
        forall|k: int|
            0 <= k < copies_of(ops, n).constants.len() ==> exists|i: int|
                0 <= i < n && sets_constant(
                    #[trigger] ops[i],
                    (#[trigger] copies_of(ops, n).constants[k]).value,
                    copies_of(ops, n).constants[k].size,
                ) && ops[i].va == copies_of(ops, n).constants[k].va,
        forall|i: int, value: u64, size: u32|
            0 <= i < n && #[trigger] sets_constant(ops[i], value, size) ==> copies_of(ops, n).constants.contains(
                crate::ssa::simplify::SsaConstant { va: ops[i].va, value, size },
            ),
    decreases n,
{
    if n > 0 {
        law_constants_reported(ops, n - 1);
        let c = copies_of(ops, n - 1).constants;
        let d = copies_of(ops, n).constants;
        let op = ops[n - 1];
        assert forall|k: int| 0 <= k < d.len() implies exists|i: int|
            0 <= i < n && sets_constant(#[trigger] ops[i], (#[trigger] d[k]).value, d[k].size) && ops[i].va == d[k].va by {
            if k < c.len() {
                assert(d[k] == c[k]);
                let i = choose|i: int|
                    0 <= i < n - 1 && sets_constant(#[trigger] ops[i], c[k].value, c[k].size) && ops[i].va == c[k].va;
                assert(0 <= i < n);
            } else {
                assert(sets_constant(ops[n - 1], d[k].value, d[k].size));
            }
        }
        assert forall|i: int, value: u64, size: u32| 0 <= i < n && #[trigger] sets_constant(ops[i], value, size) implies d.contains(
            crate::ssa::simplify::SsaConstant { va: ops[i].va, value, size },
        ) by {
            let e = crate::ssa::simplify::SsaConstant { va: ops[i].va, value, size };
            if i < n - 1 {
                assert(sets_constant(ops[i], value, size));
                assert(c.contains(e));
                let k = choose|k: int| 0 <= k < c.len() && c[k] == e;
                assert(d[k] == e);
            } else {
                assert(d[d.len() - 1] == e);
            }
        }
    }
}

proof fn lemma_copies_joined(ops: Seq<SsaOp>, n: int, i: int)
    requires
        0 <= i < n <= ops.len(),
        copies_variable(ops[i]),
    ensures
        root(copies_of(ops, n).rep, ops[i].def->0) == root(copies_of(ops, n).rep, ops[i].uses@[0]),
    decreases n,
{
    let c = copies_of(ops, n - 1);
    let op = ops[n - 1];
    lemma_copies_settled(ops, n - 1);
    if op.def is Some && op.uses@.len() > 0 {
        lemma_root_free(c.rep, op.def->0);
        lemma_root_free(c.rep, op.uses@[0]);
        let a = root(c.rep, op.def->0);
        let b = root(c.rep, op.uses@[0]);
        if a != b {
            lemma_unite_settled(c.rep, a, b);
        }
    }
    if i < n - 1 {
        lemma_copies_joined(ops, n - 1, i);
    }
}

proof fn lemma_pass_joined(ops: Seq<SsaOp>, n: int, p: Phis, x: SsaVar, y: SsaVar)
    requires
        0 <= n <= ops.len(),
        settled(p.rep),
        root(p.rep, x) == root(p.rep, y),
    ensures
        settled(phi_pass(ops, n, p).rep),
        root(phi_pass(ops, n, p).rep, x) == root(phi_pass(ops, n, p).rep, y),
    decreases n,
{
    if n > 0 {
        lemma_pass_joined(ops, n - 1, p, x, y);
        let q = phi_pass(ops, n - 1, p);
        if let SsaOpKind::Phi(phi) = ops[n - 1].kind {
            if let Some(Resolved::Var(t)) = agreed(q.rep, q.value, phi.args@) {
                lemma_root_free(q.rep, phi.out);
                lemma_root_free(q.rep, t);
                let a = root(q.rep, phi.out);
                let b = root(q.rep, t);
                if a != b {
                    lemma_unite_settled(q.rep, a, b);
                }
            }
        }
    }
}

proof fn lemma_passes_joined(ops: Seq<SsaOp>, k: nat, p: Phis, x: SsaVar, y: SsaVar)
    requires
        settled(p.rep),
        root(p.rep, x) == root(p.rep, y),
    ensures
        root(phi_passes(ops, k, p).rep, x) == root(phi_passes(ops, k, p).rep, y),
    decreases k,
{
    if k > 0 {
        lemma_pass_joined(ops, ops.len() as int, p, x, y);
        let q = phi_pass(ops, ops.len() as int, p);
        if q.collapsed != p.collapsed {
            lemma_passes_joined(ops, (k - 1) as nat, q, x, y);
        }
    }
}

/// A copy and what it copies have one name in the simplified function.
pub proof fn law_copies_have_one_name(ssa: SsaFunction, b: int, i: int)
    requires
        0 <= b < ssa.blocks@.len(),
        0 <= i < ssa.blocks@[b].ops@.len(),
        copies_variable(ssa.blocks@[b].ops@[i]),
    ensures
        ({
            let op = ssa.blocks@[b].ops@[i];
            let rep = phis_of(all_ops(ssa)).rep;
            root(rep, op.def->0) == root(rep, op.uses@[0])
        }),
{
    lemma_in_row(ssa, b, i);
    let ops = all_ops(ssa);
    let n = ops.len() as int;
    lemma_copies_joined(ops, n, flat(ssa, b).len() + i);
    lemma_copies_settled(ops, n);
    let c = copies_of(ops, n);
    let op = ssa.blocks@[b].ops@[i];
    lemma_passes_joined(
        ops,
        ops.len() + 1,
        Phis { rep: c.rep, value: c.value, collapsed: 0 },
        op.def->0,
        op.uses@[0],
    );
}

} // verus!
