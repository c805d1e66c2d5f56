//! From SSA to the semantic form, and the calls that can be recovered from it.

use vstd::prelude::*;
use pcode_ir::{AddressSpaceId, PcodeOp, Varnode};
use crate::hir::abi::{argument_views, standard_argument, volatile_state, ArgumentView, CallTarget, CallView, LocationView, MemoryView, TargetView, Win64Argument, Win64ArgumentClass, Win64CallSite};
use crate::hir::function::{HirFunction, HirOperationKind, HirView, OperationView, ValueView};
use crate::hir::{single_span, CallSiteId, OperationId, OriginSpan, Provenance, ProvenanceKind, ProvenanceView, ValueId};
use crate::maps::{entries_map, lookup, VarMap};
use crate::normalize::{external_tail_call_target, tail_calls};
use crate::pcode::{in_register, is_register, PcodeView};
use crate::ssa::lower::{container_base, register_container_base};
use crate::ssa::reach::{in_container, reaching, reaching_register_at_return, used_from};
use crate::ssa::{copy_vars, FunctionView, KindView, Location, OpView, SsaBlock, SsaFunction, SsaOp, SsaOpKind, SsaVar};

verus! {

// ─── Positions ──────────────────────────────────────────────────────────────

/// Position of one SSA operation.
#[derive(Clone, Copy, Debug, PartialEq, Eq, Hash, PartialOrd, Ord, Structural)]
pub struct SsaOperationKey {
    pub block_id: u32,
    pub operation_index: u32,
}

/// A map keyed by positions.
#[derive(Clone, Debug)]
pub struct KeyMap<V> {
    pub entries: Vec<(SsaOperationKey, V)>,
}

impl<V> View for KeyMap<V> {
    type V = Map<SsaOperationKey, V>;

    open spec fn view(&self) -> Map<SsaOperationKey, V> {
        entries_map(self.entries@)
    }
}

impl<V> KeyMap<V> {
    pub fn new() -> (r: KeyMap<V>)
        ensures
            r@ == Map::<SsaOperationKey, V>::empty(),
    {
        KeyMap { entries: Vec::new() }
    }

    pub fn insert(&mut self, k: SsaOperationKey, v: V)
        ensures
            final(self)@ == old(self)@.insert(k, v),
    {
        self.entries.push((k, v));
        assert(self.entries@.drop_last() =~= old(self).entries@);
    }

    pub fn get(&self, k: &SsaOperationKey) -> (r: Option<&V>)
        ensures
            match r {
                Some(v) => self@.dom().contains(*k) && self@[*k] == *v,
                None => !self@.dom().contains(*k),
            },
    {
        let mut n: usize = self.entries.len();
        assert(self.entries@.take(n as int) =~= self.entries@);
        while n > 0
            invariant
                n <= self.entries@.len(),
                lookup(entries_map(self.entries@.take(n as int)), *k) == lookup(self@, *k),
            decreases n,
        {
            assert(self.entries@.take(n as int).drop_last() =~= self.entries@.take(n - 1));
            if self.entries[n - 1].0 == *k {
                return Some(&self.entries[n - 1].1);
            }
            n -= 1;
        }
        None
    }
}

// ─── The lowering and its values ────────────────────────────────────────────

/// A semantic function with the SSA variables and operations that it came from.
#[derive(Clone, Debug)]
pub struct SsaLowering {
    pub hir: HirFunction,
    pub values: VarMap<ValueId>,
    pub operations: KeyMap<OperationId>,
    pub call_sites: KeyMap<CallSiteId>,
}

/// A lowering, for contracts.
#[verifier::ext_equal]
pub ghost struct LoweringView {
    pub hir: HirView,
    pub values: Map<SsaVar, ValueId>,
    pub operations: Map<SsaOperationKey, OperationId>,
    pub calls: Map<SsaOperationKey, CallSiteId>,
}

impl View for SsaLowering {
    type V = LoweringView;

    open spec fn view(&self) -> LoweringView {
        LoweringView {
            hir: self.hir@,
            values: self.values@,
            operations: self.operations@,
            calls: self.call_sites@,
        }
    }
}

impl LoweringView {
    /// A lowering of nothing.
    pub open spec fn empty() -> LoweringView {
        LoweringView {
            hir: HirView::empty(),
            values: Map::empty(),
            operations: Map::empty(),
            calls: Map::empty(),
        }
    }

    /// Every variable has a value of its own, and everything refers to what exists.
    pub open spec fn wf(self) -> bool {
        &&& forall|v: SsaVar|
            #[trigger] self.values.dom().contains(v) ==> self.values[v].0 < self.hir.values.len()
        &&& forall|a: SsaVar, b: SsaVar|
            #[trigger] self.values.dom().contains(a) && #[trigger] self.values.dom().contains(b)
                && self.values[a] == self.values[b] ==> a == b
        &&& forall|i: int|
            0 <= i < self.hir.values.len() ==> (#[trigger] self.hir.values[i]).id == ValueId(i as u32)
                && self.hir.values[i].bit_width != Some(0u16)
        &&& forall|i: int|
            0 <= i < self.hir.operations.len() ==> operation_refers(
                self.hir,
                i,
                #[trigger] self.hir.operations[i],
            )
        &&& self.hir.objects.len() == 0
        &&& forall|b: u32|
            #[trigger] self.hir.exits.dom().contains(b) ==> self.hir.exits[b].0
                < self.hir.values.len()
    }
}

/// Operation `i` has its id, and refers to values that exist.
pub open spec fn operation_refers(h: HirView, i: int, o: OperationView) -> bool {
    &&& o.id == OperationId(i as u32)
    &&& forall|k: int| 0 <= k < o.inputs.len() ==> (#[trigger] o.inputs[k]).0 < h.values.len()
    &&& o.output matches Some(v) ==> v.0 < h.values.len()
}

// ─── Lowering as a value ────────────────────────────────────────────────────

/// Width of a variable: only a temporary keeps one.
pub open spec fn bit_width_of(v: SsaVar) -> Option<u16> {
    match v.location {
        Location::Unique { size, .. } => if 0 < size && size * 8 <= u16::MAX {
            Some((size * 8) as u16)
        } else {
            None
        },
        _ => None,
    }
}

/// `var` has a value. A definition brings its own provenance.
pub open spec fn ensured(s: LoweringView, var: SsaVar, provenance: ProvenanceView, definition: bool) -> LoweringView {
    if s.values.dom().contains(var) {
        if definition {
            let i = s.values[var].0 as int;
            LoweringView {
                hir: HirView {
                    values: s.hir.values.update(i, ValueView { provenance, ..s.hir.values[i] }),
                    ..s.hir
                },
                ..s
            }
        } else {
            s
        }
    } else {
        let id = ValueId(s.hir.values.len() as u32);
        LoweringView {
            hir: HirView {
                values: s.hir.values.push(
                    ValueView { id, bit_width: bit_width_of(var), provenance },
                ),
                ..s.hir
            },
            values: s.values.insert(var, id),
            ..s
        }
    }
}

/// The first `n` of `vars` have values.
pub open spec fn all_ensured(s: LoweringView, vars: Seq<SsaVar>, n: int, provenance: ProvenanceView) -> LoweringView
    decreases n,
{
    if n <= 0 {
        s
    } else {
        ensured(all_ensured(s, vars, n - 1, provenance), vars[n - 1], provenance, false)
    }
}

/// The present ones among the first `n` arguments of a phi.
pub open spec fn present(args: Seq<Option<SsaVar>>, n: int) -> Seq<SsaVar>
    decreases n,
{
    if n <= 0 {
        Seq::empty()
    } else {
        match args[n - 1] {
            Some(v) => present(args, n - 1).push(v),
            None => present(args, n - 1),
        }
    }
}

/// What an operation reads.
pub open spec fn read_by(op: OpView) -> Seq<SsaVar> {
    match op.kind {
        KindView::Pcode(_) => op.uses,
        KindView::Phi(phi) => present(phi.args, phi.args.len() as int),
    }
}

/// What an operation defines.
pub open spec fn defined_by(op: OpView) -> Option<SsaVar> {
    match op.kind {
        KindView::Pcode(_) => op.def,
        KindView::Phi(phi) => Some(phi.out),
    }
}

/// Where an operation comes from.
pub open spec fn origin_of(op: OpView, index: u32) -> ProvenanceView {
    match op.kind {
        KindView::Pcode(_) => ProvenanceView {
            primary: Some(single_span(op.va, index)),
            contributors: Seq::empty(),
            kind: ProvenanceKind::Lifted,
        },
        KindView::Phi(_) => ProvenanceView {
            primary: None,
            contributors: Seq::empty(),
            kind: ProvenanceKind::Phi,
        },
    }
}

/// One operation is lowered: its inputs and its output have values, and it stands
/// behind the others.
pub open spec fn lowered_op(s: LoweringView, block_id: u32, index: u32, op: OpView) -> LoweringView {
    let provenance = origin_of(op, index);
    let entry = ProvenanceView { kind: ProvenanceKind::Entry, ..provenance };
    let reads = read_by(op);
    let s1 = all_ensured(s, reads, reads.len() as int, entry);
    let s2 = match defined_by(op) {
        Some(v) => ensured(s1, v, provenance, true),
        None => s1,
    };
    let id = OperationId(s2.hir.operations.len() as u32);
    LoweringView {
        hir: HirView {
            operations: s2.hir.operations.push(
                OperationView {
                    id,
                    kind: if op.kind is Phi {
                        HirOperationKind::Phi
                    } else {
                        HirOperationKind::Pcode
                    },
                    inputs: Seq::new(reads.len(), |i: int| s1.values[reads[i]]),
                    output: match defined_by(op) {
                        Some(v) => Some(s2.values[v]),
                        None => None,
                    },
                    provenance,
                },
            ),
            ..s2.hir
        },
        operations: s2.operations.insert(
            SsaOperationKey { block_id, operation_index: index },
            id,
        ),
        ..s2
    }
}

/// The first `n` operations of a block.
pub open spec fn lowered_ops(s: LoweringView, block_id: u32, ops: Seq<OpView>, n: int) -> LoweringView
    decreases n,
{
    if n <= 0 {
        s
    } else {
        lowered_op(lowered_ops(s, block_id, ops, n - 1), block_id, (n - 1) as u32, ops[n - 1])
    }
}

/// The first `n` blocks.
pub open spec fn lowered_blocks(f: FunctionView, n: int) -> LoweringView
    decreases n,
{
    if n <= 0 {
        LoweringView::empty()
    } else {
        lowered_ops(
            lowered_blocks(f, n - 1),
            f.blocks[n - 1].id,
            f.blocks[n - 1].ops,
            f.blocks[n - 1].ops.len() as int,
        )
    }
}

/// The exits of the first `n` blocks: each that returns a known value of RAX.
pub open spec fn with_exits(f: FunctionView, s: LoweringView, n: int) -> LoweringView
    decreases n,
{
    if n <= 0 {
        s
    } else {
        let done = with_exits(f, s, n - 1);
        let id = f.blocks[n - 1].id;
        match reaching(f, id, 0) {
            Some(v) => if done.values.dom().contains(v) {
                LoweringView {
                    hir: HirView { exits: done.hir.exits.insert(id, done.values[v]), ..done.hir },
                    ..done
                }
            } else {
                done
            },
            None => done,
        }
    }
}

/// The lowering of a function.
pub open spec fn lowering_of(f: FunctionView) -> LoweringView {
    with_exits(f, lowered_blocks(f, f.blocks.len() as int), f.blocks.len() as int)
}

/// Operations and operands of the first `n` operations.
pub open spec fn ops_weight(ops: Seq<OpView>, n: int) -> nat
    decreases n,
{
    if n <= 0 {
        0
    } else {
        ops_weight(ops, n - 1) + read_by(ops[n - 1]).len() + 2
    }
}

/// Operations and operands of the first `n` blocks.
pub open spec fn weight(f: FunctionView, n: int) -> nat
    decreases n,
{
    if n <= 0 {
        0
    } else {
        weight(f, n - 1) + ops_weight(f.blocks[n - 1].ops, f.blocks[n - 1].ops.len() as int)
    }
}

/// Every operation and every operand fits an id.
pub open spec fn lowerable(f: FunctionView) -> bool {
    weight(f, f.blocks.len() as int) <= u32::MAX
}

// ─── What lowering keeps ────────────────────────────────────────────────────

/// A value has been added at most, and nothing that was there has moved.
spec fn extends(s: LoweringView, t: LoweringView) -> bool {
    &&& t.wf()
    &&& t.hir.operations == s.hir.operations
    &&& t.hir.objects == s.hir.objects
    &&& t.hir.calls == s.hir.calls
    &&& t.hir.exits == s.hir.exits
    &&& t.hir.versions == s.hir.versions
    &&& t.operations == s.operations
    &&& t.calls == s.calls
    &&& s.hir.values.len() <= t.hir.values.len()
    &&& forall|v: SsaVar|
        #[trigger] s.values.dom().contains(v) ==> t.values.dom().contains(v) && t.values[v]
            == s.values[v]
}

proof fn lemma_ensured(s: LoweringView, var: SsaVar, provenance: ProvenanceView, definition: bool)
    requires
        s.wf(),
        s.hir.values.len() <= u32::MAX,
    ensures
        extends(s, ensured(s, var, provenance, definition)),
        ensured(s, var, provenance, definition).values.dom().contains(var),
        ensured(s, var, provenance, definition).hir.values.len() <= s.hir.values.len() + 1,
{
    let t = ensured(s, var, provenance, definition);
    assert(t.values.dom().contains(var));
    assert forall|v: SsaVar| #[trigger] t.values.dom().contains(v) implies t.values[v].0
        < t.hir.values.len() by {
        if v != var || s.values.dom().contains(var) {
            assert(s.values.dom().contains(v));
        }
    }
    assert forall|a: SsaVar, b: SsaVar| #[trigger]
        t.values.dom().contains(a) && #[trigger] t.values.dom().contains(b) && t.values[a]
            == t.values[b] implies a == b by {
        if !s.values.dom().contains(var) {
            if a != var {
                assert(s.values.dom().contains(a));
            }
            if b != var {
                assert(s.values.dom().contains(b));
            }
        } else {
            assert(s.values.dom().contains(a) && s.values.dom().contains(b));
        }
    }
    assert forall|i: int| 0 <= i < t.hir.values.len() implies (#[trigger] t.hir.values[i]).id
        == ValueId(i as u32) && t.hir.values[i].bit_width != Some(0u16) by {
        if i < s.hir.values.len() {
            assert(s.hir.values[i].id == ValueId(i as u32));
        }
    }
    assert forall|i: int| 0 <= i < t.hir.operations.len() implies operation_refers(
        t.hir,
        i,
        #[trigger] t.hir.operations[i],
    ) by {
        assert(operation_refers(s.hir, i, s.hir.operations[i]));
    }
}

proof fn lemma_extends_trans(a: LoweringView, b: LoweringView, c: LoweringView)
    requires
        extends(a, b),
        extends(b, c),
    ensures
        extends(a, c),
{
    assert forall|v: SsaVar| #[trigger] a.values.dom().contains(v) implies c.values.dom().contains(v)
        && c.values[v] == a.values[v] by {
        assert(b.values.dom().contains(v));
    }
}

proof fn lemma_values_fault(h: HirView, i: int)
    requires
        forall|k: int|
            0 <= k < h.values.len() ==> (#[trigger] h.values[k]).id == ValueId(k as u32)
                && h.values[k].bit_width != Some(0u16),
    ensures
        h.values_fault(i) is None,
    decreases h.values.len() - i,
{
    if 0 <= i < h.values.len() {
        assert(h.values[i].id == ValueId(i as u32));
        lemma_values_fault(h, i + 1);
    }
}

proof fn lemma_refs_fault(h: HirView, refs: Seq<ValueId>, i: int)
    requires
        forall|k: int| 0 <= k < refs.len() ==> (#[trigger] refs[k]).0 < h.values.len(),
    ensures
        h.refs_fault(refs, i) is None,
    decreases refs.len() - i,
{
    if 0 <= i < refs.len() {
        lemma_refs_fault(h, refs, i + 1);
    }
}

proof fn lemma_operations_fault(h: HirView, i: int)
    requires
        forall|k: int|
            0 <= k < h.operations.len() ==> operation_refers(h, k, #[trigger] h.operations[k]),
    ensures
        h.operations_fault(i) is None,
    decreases h.operations.len() - i,
{
    if 0 <= i < h.operations.len() {
        let o = h.operations[i];
        assert(operation_refers(h, i, o));
        lemma_refs_fault(h, o.inputs, 0);
        lemma_operations_fault(h, i + 1);
    }
}

proof fn lemma_calls_fault(h: HirView, i: int)
    requires
        forall|k: int|
            0 <= k < h.calls.len() ==> h.call_fault(CallSiteId(k as u32), #[trigger] h.calls[k]) is None,
    ensures
        h.calls_fault(i) is None,
    decreases h.calls.len() - i,
{
    if 0 <= i < h.calls.len() {
        assert(h.call_fault(CallSiteId(i as u32), h.calls[i]) is None);
        lemma_calls_fault(h, i + 1);
    }
}

/// Every call of the function refers to what exists.
pub open spec fn calls_refer(h: HirView) -> bool {
    forall|k: int|
        0 <= k < h.calls.len() ==> h.call_fault(CallSiteId(k as u32), #[trigger] h.calls[k]) is None
}

/// A well-formed lowering whose calls refer to what exists has no fault.
pub proof fn law_wf_validates(s: LoweringView)
    requires
        s.wf(),
        calls_refer(s.hir),
    ensures
        s.hir.fault() is None,
{
    lemma_values_fault(s.hir, 0);
    lemma_operations_fault(s.hir, 0);
    lemma_calls_fault(s.hir, 0);
    assert forall|b: u32| !(#[trigger] s.hir.exit_dangles(b)) by {
        if s.hir.exits.dom().contains(b) {
        }
    }
}

// ─── Lowering ───────────────────────────────────────────────────────────────

fn width_of(var: &SsaVar) -> (r: Option<u16>)
    ensures
        r == bit_width_of(*var),
{
    match var.location {
        Location::Unique { size, .. } => if 0 < size && size <= 8191 {
            Some((size * 8) as u16)
        } else {
            None
        },
        _ => None,
    }
}

fn ensure_ssa_value(low: &mut SsaLowering, var: SsaVar, provenance: &Provenance, is_definition: bool) -> (id: ValueId)
    requires
        old(low)@.wf(),
        old(low)@.hir.values.len() <= u32::MAX,
    ensures
        final(low)@ == ensured(old(low)@, var, provenance@, is_definition),
        id == final(low)@.values[var],
        extends(old(low)@, final(low)@),
        final(low)@.values.dom().contains(var),
        final(low)@.hir.values.len() <= old(low)@.hir.values.len() + 1,
{
    proof {
        lemma_ensured(low@, var, provenance@, is_definition);
    }
    let known: Option<ValueId> = match low.values.get(&var) {
        Some(id) => Some(*id),
        None => None,
    };
    match known {
        Some(id) => {
            if is_definition {
                low.hir.set_provenance(id, provenance.copied());
            }
            id
        },
        None => {
            let id = low.hir.add_value(width_of(&var), provenance.copied());
            low.values.insert(var, id);
            id
        },
    }
}

fn present_args(args: &Vec<Option<SsaVar>>) -> (r: Vec<SsaVar>)
    ensures
        r@ == present(args@, args@.len() as int),
{
    let mut r: Vec<SsaVar> = Vec::new();
    let mut i: usize = 0;
    while i < args.len()
        invariant
            i <= args@.len(),
            r@ == present(args@, i as int),
        decreases args@.len() - i,
    {
        if let Some(v) = args[i] {
            r.push(v);
        }
        i += 1;
    }
    r
}

fn lower_op(low: &mut SsaLowering, block_id: u32, index: u32, op: &SsaOp)
    requires
        old(low)@.wf(),
        old(low)@.hir.values.len() + read_by(op@).len() + 1 <= u32::MAX,
        old(low)@.hir.operations.len() < u32::MAX,
    ensures
        final(low)@ == lowered_op(old(low)@, block_id, index, op@),
        final(low)@.wf(),
        final(low)@.hir.values.len() <= old(low)@.hir.values.len() + read_by(op@).len() + 1,
        final(low)@.hir.operations.len() == old(low)@.hir.operations.len() + 1,
        final(low)@.hir.calls == old(low)@.hir.calls,
        final(low)@.calls == old(low)@.calls,
{
    let ghost s = low@;
    let (kind, reads, output_var, provenance) = match &op.kind {
        SsaOpKind::Pcode(_) => (
            HirOperationKind::Pcode,
            copy_vars(&op.uses),
            op.def,
            Provenance::lifted(OriginSpan::single(op.va, index)),
        ),
        SsaOpKind::Phi(phi) => (
            HirOperationKind::Phi,
            present_args(&phi.args),
            Some(phi.out),
            Provenance::synthetic(ProvenanceKind::Phi),
        ),
    };
    assert(reads@ == read_by(op@) && output_var == defined_by(op@));
    assert(provenance@ == origin_of(op@, index));
    let entry = provenance.recast(ProvenanceKind::Entry);
    let mut inputs: Vec<ValueId> = Vec::new();
    let mut i: usize = 0;
    while i < reads.len()
        invariant
            i <= reads@.len(),
            s.wf(),
            s.hir.values.len() + reads@.len() + 1 <= u32::MAX,
            low@ == all_ensured(s, reads@, i as int, entry@),
            extends(s, low@),
            low@.hir.values.len() <= s.hir.values.len() + i,
            inputs@.len() == i,
            forall|k: int|
                0 <= k < i ==> low@.values.dom().contains(#[trigger] reads@[k]) && inputs@[k]
                    == low@.values[reads@[k]],
        decreases reads@.len() - i,
    {
        let ghost before = low@;
        let id = ensure_ssa_value(low, reads[i], &entry, false);
        inputs.push(id);
        proof {
            lemma_extends_trans(s, before, low@);
        }
        i += 1;
    }
    let ghost s1 = low@;
    assert(inputs@ =~= Seq::new(reads@.len(), |k: int| s1.values[reads@[k]]));
    let mut output: Option<ValueId> = None;
    if let Some(v) = output_var {
        output = Some(ensure_ssa_value(low, v, &provenance, true));
        proof {
            lemma_extends_trans(s, s1, low@);
        }
    }
    let ghost s2 = low@;
    assert(extends(s1, s2));
    let id = low.hir.add_operation(kind, inputs, output, provenance);
    low.operations.insert(SsaOperationKey { block_id, operation_index: index }, id);
    proof {
        let t = low@;
        assert(t =~= lowered_op(s, block_id, index, op@));
        assert forall|k: int| 0 <= k < t.hir.operations.len() implies operation_refers(
            t.hir,
            k,
            #[trigger] t.hir.operations[k],
        ) by {
            if k < s2.hir.operations.len() {
                assert(operation_refers(s2.hir, k, s2.hir.operations[k]));
            } else {
                let o = t.hir.operations[k];
                assert forall|j: int| 0 <= j < o.inputs.len() implies (#[trigger] o.inputs[j]).0
                    < t.hir.values.len() by {
                    assert(s1.values.dom().contains(reads@[j]));
                }
            }
        }
    }
}

proof fn lemma_weight(f: FunctionView, n: int, k: int)
    requires
        0 <= k < n <= f.blocks.len(),
    ensures
        weight(f, k) + ops_weight(f.blocks[k].ops, f.blocks[k].ops.len() as int) <= weight(f, n),
    decreases n,
{
    if k < n - 1 {
        lemma_weight(f, n - 1, k);
    }
}

proof fn lemma_ops_weight(ops: Seq<OpView>, n: int, k: int)
    requires
        0 <= k < n <= ops.len(),
    ensures
        ops_weight(ops, k) + read_by(ops[k]).len() + 2 <= ops_weight(ops, n),
        k < ops_weight(ops, n),
    decreases n,
{
    if k < n - 1 {
        lemma_ops_weight(ops, n - 1, k);
    } else if k > 0 {
        lemma_ops_weight(ops, n - 1, k - 1);
    }
}

/// Build the semantic form of an SSA function.
///
/// Every SSA variable gets one value. P-code operations keep their instruction
/// address; phis have no source. Only temporaries have a known width. Each return
/// block records the value of RAX that reaches it, where that is certain.
pub fn lower_from_ssa(ssa: &SsaFunction) -> (r: SsaLowering)
    requires
        lowerable(ssa@),
    ensures
        r@ == lowering_of(ssa@),
        r@.wf(),
        r@.hir.fault() is None,
        r@.hir.fits(),
{
    let ghost f = ssa@;
    let mut low = SsaLowering {
        hir: HirFunction::default(),
        values: VarMap::new(),
        operations: KeyMap::new(),
        call_sites: KeyMap::new(),
    };
    assert(low@ =~= LoweringView::empty());
    let mut b: usize = 0;
    while b < ssa.blocks.len()
        invariant
            b <= ssa.blocks@.len(),
            f == ssa@,
            lowerable(f),
            low@ == lowered_blocks(f, b as int),
            low@.wf(),
            low@.hir.values.len() <= weight(f, b as int),
            low@.hir.operations.len() <= weight(f, b as int),
            low@.hir.calls.len() == 0,
            low@.calls == Map::<SsaOperationKey, CallSiteId>::empty(),
        decreases ssa.blocks@.len() - b,
    {
        let block = &ssa.blocks[b];
        let ghost s = low@;
        let ghost ops = block@.ops;
        proof {
            assert(f.blocks[b as int] == block@);
            lemma_weight(f, f.blocks.len() as int, b as int);
        }
        let mut i: usize = 0;
        while i < block.ops.len()
            invariant
                i <= block.ops@.len(),
                ops == block@.ops,
                low@ == lowered_ops(s, block.id, ops, i as int),
                low@.wf(),
                weight(f, b as int) + ops_weight(ops, ops.len() as int) <= u32::MAX,
                low@.hir.values.len() <= weight(f, b as int) + ops_weight(ops, i as int),
                low@.hir.operations.len() <= weight(f, b as int) + ops_weight(ops, i as int),
                low@.hir.calls.len() == 0,
                low@.calls == Map::<SsaOperationKey, CallSiteId>::empty(),
            decreases block.ops@.len() - i,
        {
            proof {
                assert(ops[i as int] == block.ops@[i as int]@);
                lemma_ops_weight(ops, ops.len() as int, i as int);
            }
            lower_op(&mut low, block.id, i as u32, &block.ops[i]);
            i += 1;
        }
        b += 1;
    }
    let ghost s = low@;
    let mut n: usize = 0;
    while n < ssa.blocks.len()
        invariant
            n <= ssa.blocks@.len(),
            f == ssa@,
            low@ == with_exits(f, s, n as int),
            low@.wf(),
            low@.hir.values.len() <= u32::MAX,
            low@.hir.operations.len() <= u32::MAX,
            low@.hir.calls.len() == 0,
            low@.calls == Map::<SsaOperationKey, CallSiteId>::empty(),
        decreases ssa.blocks@.len() - n,
    {
        let id = ssa.blocks[n].id;
        assert(f.blocks[n as int] == ssa.blocks@[n as int]@);
        let ghost before = low@;
        if let Some(v) = reaching_register_at_return(ssa, id, 0) {
            let known: Option<ValueId> = match low.values.get(&v) {
                Some(x) => Some(*x),
                None => None,
            };
            if let Some(value) = known {
                low.hir.set_exit(id, value);
                proof {
                    assert forall|i: int| 0 <= i < low@.hir.operations.len() implies operation_refers(
                        low@.hir,
                        i,
                        #[trigger] low@.hir.operations[i],
                    ) by {
                        assert(operation_refers(before.hir, i, before.hir.operations[i]));
                    }
                }
            }
        }
        n += 1;
    }
    proof {
        law_wf_validates(low@);
    }
    low
}

impl HirFunction {
    /// Build the semantic form of an SSA function.
    pub fn lower_from_ssa(ssa: &SsaFunction) -> (r: SsaLowering)
        requires
            lowerable(ssa@),
        ensures
            r@ == lowering_of(ssa@),
            r@.wf(),
            r@.hir.fault() is None,
            r@.hir.fits(),
    {
        lower_from_ssa(ssa)
    }
}

// ─── Calls as values ────────────────────────────────────────────────────────

/// The destination of an operation that stands for a call: a call, a jump that is a
/// tail call, or the computed jump of a function with one block.
pub open spec fn call_destination(ssa: SsaFunction, op: SsaOp) -> Option<Varnode> {
    match op.kind {
        SsaOpKind::Pcode(PcodeOp::Call { dest }) => Some(dest),
        SsaOpKind::Pcode(PcodeOp::CallInd { dest }) => Some(dest),
        SsaOpKind::Pcode(PcodeOp::Branch { dest }) => if tail_calls(ssa, dest) {
            Some(dest)
        } else {
            None
        },
        SsaOpKind::Pcode(PcodeOp::BranchInd { dest }) => if is_register(dest) && ssa.blocks@.len() == 1 {
            Some(dest)
        } else {
            None
        },
        _ => None,
    }
}

/// The operation is a call.
pub open spec fn calls(op: OpView) -> bool {
    match op.kind {
        KindView::Pcode(PcodeView::Plain(p)) => p is Call || p is CallInd,
        _ => false,
    }
}

/// The last definition of the register among the first `n` operations, back to the
/// last call.
pub open spec fn local_definition(ops: Seq<OpView>, reg: u64, n: int) -> Option<SsaVar>
    decreases n,
{
    if n <= 0 || calls(ops[n - 1]) {
        None
    } else {
        match ops[n - 1].def {
            Some(v) => if in_container(v, reg) {
                Some(v)
            } else {
                local_definition(ops, reg, n - 1)
            },
            None => local_definition(ops, reg, n - 1),
        }
    }
}

/// One of the first `n` operations is a call, or defines the register.
pub open spec fn cut_off(ops: Seq<OpView>, reg: u64, n: int) -> bool
    decreases n,
{
    n > 0 && (calls(ops[n - 1]) || (ops[n - 1].def matches Some(v) && in_container(v, reg)) || cut_off(
        ops,
        reg,
        n - 1,
    ))
}

/// The variable that a computed target holds: a definition in the block, or the
/// call's own use where neither a definition nor a call comes before it.
pub open spec fn target_register(ops: Seq<OpView>, index: int, reg: u64) -> Option<SsaVar> {
    if cut_off(ops, reg, index) {
        local_definition(ops, reg, index)
    } else {
        used_from(ops[index].uses, reg, 0)
    }
}

/// The first use from `i` on of the temporary `dest` of the instruction.
pub open spec fn target_temporary(op: OpView, dest: Varnode, i: int) -> Option<SsaVar>
    decreases op.uses.len() - i,
{
    if i < 0 || i >= op.uses.len() {
        None
    } else if op.uses[i].location == (Location::Unique {
        instruction_va: op.va,
        offset: dest.offset,
        size: dest.size,
    }) {
        Some(op.uses[i])
    } else {
        target_temporary(op, dest, i + 1)
    }
}

/// A computed target, if its variable has a value.
pub open spec fn computed_target(values: Map<SsaVar, ValueId>, v: Option<SsaVar>) -> TargetView {
    match v {
        Some(x) => if values.dom().contains(x) {
            TargetView::Indirect { target: values[x], candidates: Seq::empty() }
        } else {
            TargetView::Unknown
        },
        None => TargetView::Unknown,
    }
}

/// The target of a call.
pub open spec fn target_of(values: Map<SsaVar, ValueId>, ops: Seq<OpView>, index: int, dest: Varnode) -> TargetView {
    match dest.space {
        AddressSpaceId::Const | AddressSpaceId::Ram => TargetView::Direct { va: dest.offset },
        AddressSpaceId::Register => computed_target(
            values,
            target_register(ops, index, container_base(dest.offset)),
        ),
        AddressSpaceId::Unique => computed_target(values, target_temporary(ops[index], dest, 0)),
    }
}

/// Register container of an argument position.
pub open spec fn argument_register(position: int) -> u64 {
    if position == 0 {
        0x08
    } else if position == 1 {
        0x10
    } else if position == 2 {
        0x80
    } else {
        0x88
    }
}

/// An argument of this position is claimed: a direct call uses its register, and a
/// tail call may pass the first one.
pub open spec fn claims(op: OpView, position: int) -> bool {
    match op.kind {
        KindView::Pcode(PcodeView::Plain(p)) => if p is Call {
            used_from(op.uses, argument_register(position), 0) is Some
        } else {
            p is Branch && position == 0
        },
        _ => false,
    }
}

/// The first `n` arguments that are claimed, defined in the block and known.
pub open spec fn arguments_of(values: Map<SsaVar, ValueId>, ops: Seq<OpView>, index: int, n: int) -> Seq<ArgumentView>
    decreases n,
{
    if n <= 0 {
        Seq::empty()
    } else {
        let done = arguments_of(values, ops, index, n - 1);
        match local_definition(ops, argument_register(n - 1), index) {
            Some(v) => if claims(ops[index], n - 1) && values.dom().contains(v) {
                done.push(
                    standard_argument((n - 1) as u16, values[v], Win64ArgumentClass::Integer)->0,
                )
            } else {
                done
            },
            None => done,
        }
    }
}

/// A lowering and the calls that a pass added to it.
#[verifier::ext_equal]
pub ghost struct Lifted {
    pub low: LoweringView,
    pub added: Seq<CallSiteId>,
}

/// Position of operation `i` of block `b`.
pub open spec fn key_at(ssa: SsaFunction, b: int, i: int) -> SsaOperationKey {
    SsaOperationKey { block_id: ssa.blocks@[b].id, operation_index: i as u32 }
}

/// Operation `i` of block `b` is left alone: it is no call, or it was lifted before,
/// or the lowering does not know it.
pub open spec fn left_alone(ssa: SsaFunction, low: LoweringView, b: int, i: int) -> bool {
    let key = key_at(ssa, b, i);
    ||| call_destination(ssa, ssa.blocks@[b].ops@[i]) is None
    ||| low.calls.dom().contains(key)
    ||| !low.operations.dom().contains(key)
    ||| low.operations[key].0 >= low.hir.operations.len()
}

/// The call that operation `i` of block `b` stands for.
pub open spec fn call_at(ssa: SsaFunction, low: LoweringView, b: int, i: int) -> CallView {
    let ops = ssa.blocks@[b]@.ops;
    let operation = low.hir.operations[low.operations[key_at(ssa, b, i)].0 as int];
    CallView {
        provenance: ProvenanceView { kind: ProvenanceKind::Abi, ..operation.provenance },
        target: target_of(low.values, ops, i, call_destination(ssa, ssa.blocks@[b].ops@[i])->0),
        arguments: arguments_of(low.values, ops, i, 4),
        result: None,
        clobbers: volatile_state(),
    }
}

/// Operation `i` of block `b` is lifted.
pub open spec fn lifted_at(ssa: SsaFunction, st: Lifted, b: int, i: int) -> Lifted {
    if left_alone(ssa, st.low, b, i) {
        st
    } else {
        let id = CallSiteId(st.low.hir.calls.len() as u32);
        Lifted {
            low: LoweringView {
                hir: HirView {
                    calls: st.low.hir.calls.push(call_at(ssa, st.low, b, i)),
                    ..st.low.hir
                },
                calls: st.low.calls.insert(key_at(ssa, b, i), id),
                ..st.low
            },
            added: st.added.push(id),
        }
    }
}

/// The first `n` operations of block `b` are lifted.
pub open spec fn lifted_ops(ssa: SsaFunction, st: Lifted, b: int, n: int) -> Lifted
    decreases n,
{
    if n <= 0 {
        st
    } else {
        lifted_at(ssa, lifted_ops(ssa, st, b, n - 1), b, n - 1)
    }
}

/// The first `n` blocks are lifted.
pub open spec fn lifted_blocks(ssa: SsaFunction, low: LoweringView, n: int) -> Lifted
    decreases n,
{
    if n <= 0 {
        Lifted { low, added: Seq::empty() }
    } else {
        lifted_ops(
            ssa,
            lifted_blocks(ssa, low, n - 1),
            n - 1,
            ssa.blocks@[n - 1].ops@.len() as int,
        )
    }
}

/// The lowering with the calls of the function.
pub open spec fn lifted(ssa: SsaFunction, low: LoweringView) -> Lifted {
    lifted_blocks(ssa, low, ssa.blocks@.len() as int)
}

// ─── Lifting calls ──────────────────────────────────────────────────────────

fn is_pcode_call(op: &SsaOp) -> (r: bool)
    ensures
        r == calls(op@),
{
    matches!(
        op.kind,
        SsaOpKind::Pcode(PcodeOp::Call { .. }) | SsaOpKind::Pcode(PcodeOp::CallInd { .. })
    )
}

fn same_block_reaching_register(block: &SsaBlock, call_index: usize, base_offset: u64) -> (r: Option<SsaVar>)
    requires
        call_index <= block.ops@.len(),
    ensures
        r == local_definition(block@.ops, base_offset, call_index as int),
{
    let mut n: usize = call_index;
    while n > 0
        invariant
            n <= block.ops@.len(),
            local_definition(block@.ops, base_offset, n as int) == local_definition(
                block@.ops,
                base_offset,
                call_index as int,
            ),
        decreases n,
    {
        n -= 1;
        let prior = &block.ops[n];
        assert(block@.ops[n as int] == prior@);
        if is_pcode_call(prior) {
            return None;
        }
        if let Some(v) = prior.def {
            if v.location == (Location::Register { base_offset }) {
                return Some(v);
            }
        }
    }
    None
}

fn find_use(op: &SsaOp, base_offset: u64) -> (r: Option<SsaVar>)
    ensures
        r == used_from(op@.uses, base_offset, 0),
{
    let mut i: usize = 0;
    while i < op.uses.len()
        invariant
            i <= op.uses@.len(),
            used_from(op.uses@, base_offset, i as int) == used_from(op.uses@, base_offset, 0),
        decreases op.uses@.len() - i,
    {
        let v = op.uses[i];
        if v.location == (Location::Register { base_offset }) {
            return Some(v);
        }
        i += 1;
    }
    None
}

fn reaching_register_for_indirect_target(block: &SsaBlock, call_index: usize, base_offset: u64) -> (r: Option<SsaVar>)
    requires
        call_index < block.ops@.len(),
    ensures
        r == target_register(block@.ops, call_index as int, base_offset),
{
    let mut n: usize = call_index;
    while n > 0
        invariant
            n <= call_index < block.ops@.len(),
            local_definition(block@.ops, base_offset, n as int) == local_definition(
                block@.ops,
                base_offset,
                call_index as int,
            ),
            cut_off(block@.ops, base_offset, n as int) == cut_off(
                block@.ops,
                base_offset,
                call_index as int,
            ),
        decreases n,
    {
        n -= 1;
        let prior = &block.ops[n];
        assert(block@.ops[n as int] == prior@);
        if is_pcode_call(prior) {
            return None;
        }
        if let Some(v) = prior.def {
            if v.location == (Location::Register { base_offset }) {
                return Some(v);
            }
        }
    }
    assert(block@.ops[call_index as int] == block.ops@[call_index as int]@);
    find_use(&block.ops[call_index], base_offset)
}

fn find_temporary(op: &SsaOp, dest: Varnode) -> (r: Option<SsaVar>)
    ensures
        r == target_temporary(op@, dest, 0),
{
    let mut i: usize = 0;
    while i < op.uses.len()
        invariant
            i <= op.uses@.len(),
            target_temporary(op@, dest, i as int) == target_temporary(op@, dest, 0),
        decreases op.uses@.len() - i,
    {
        let v = op.uses[i];
        if v.location == (Location::Unique {
            instruction_va: op.va,
            offset: dest.offset,
            size: dest.size,
        }) {
            return Some(v);
        }
        i += 1;
    }
    None
}

fn lift_computed(values: &VarMap<ValueId>, v: Option<SsaVar>) -> (r: CallTarget)
    ensures
        r@ == computed_target(values@, v),
{
    if let Some(x) = v {
        if let Some(id) = values.get(&x) {
            let candidates: Vec<u64> = Vec::new();
            assert(candidates@ =~= Seq::empty());
            return CallTarget::Indirect { target: *id, candidates };
        }
    }
    CallTarget::Unknown
}

fn lift_call_target(block: &SsaBlock, call_index: usize, dest: Varnode, values: &VarMap<ValueId>) -> (r: CallTarget)
    requires
        call_index < block.ops@.len(),
    ensures
        r@ == target_of(values@, block@.ops, call_index as int, dest),
{
    match dest.space {
        AddressSpaceId::Const | AddressSpaceId::Ram => CallTarget::Direct { va: dest.offset },
        AddressSpaceId::Register => {
            let base = register_container_base(dest.offset);
            lift_computed(values, reaching_register_for_indirect_target(block, call_index, base))
        },
        AddressSpaceId::Unique => {
            assert(block@.ops[call_index as int] == block.ops@[call_index as int]@);
            lift_computed(values, find_temporary(&block.ops[call_index], dest))
        },
    }
}

fn claims_argument(op: &SsaOp, position: usize) -> (r: bool)
    requires
        position < 4,
    ensures
        r == claims(op@, position as int),
{
    match &op.kind {
        SsaOpKind::Pcode(PcodeOp::Call { .. }) => find_use(op, register_of_position(position)).is_some(),
        SsaOpKind::Pcode(PcodeOp::Branch { .. }) => position == 0,
        _ => false,
    }
}

fn register_of_position(position: usize) -> (r: u64)
    requires
        position < 4,
    ensures
        r == argument_register(position as int),
{
    if position == 0 {
        0x08
    } else if position == 1 {
        0x10
    } else if position == 2 {
        0x80
    } else {
        0x88
    }
}

fn lift_same_block_win64_arguments(block: &SsaBlock, call_index: usize, values: &VarMap<ValueId>) -> (r: Vec<Win64Argument>)
    requires
        call_index < block.ops@.len(),
    ensures
        argument_views(r@) == arguments_of(values@, block@.ops, call_index as int, 4),
{
    let op = &block.ops[call_index];
    assert(block@.ops[call_index as int] == op@);
    let mut r: Vec<Win64Argument> = Vec::new();
    let mut position: usize = 0;
    assert(argument_views(r@) =~= Seq::empty());
    while position < 4
        invariant
            position <= 4,
            call_index < block.ops@.len(),
            block@.ops[call_index as int] == op@,
            argument_views(r@) == arguments_of(
                values@,
                block@.ops,
                call_index as int,
                position as int,
            ),
        decreases 4 - position,
    {
        if claims_argument(op, position) {
            if let Some(v) = same_block_reaching_register(
                block,
                call_index,
                register_of_position(position),
            ) {
                if let Some(value) = values.get(&v) {
                    if let Some(argument) = Win64Argument::standard(
                        position as u16,
                        *value,
                        Win64ArgumentClass::Integer,
                    ) {
                        let ghost before = r@;
                        r.push(argument);
                        assert(argument_views(r@) =~= argument_views(before).push(argument@));
                    }
                }
            }
        }
        position += 1;
    }
    r
}

fn find_destination(ssa: &SsaFunction, op: &SsaOp) -> (r: Option<Varnode>)
    ensures
        r == call_destination(*ssa, *op),
{
    match &op.kind {
        SsaOpKind::Pcode(PcodeOp::Call { dest }) => Some(*dest),
        SsaOpKind::Pcode(PcodeOp::CallInd { dest }) => Some(*dest),
        SsaOpKind::Pcode(PcodeOp::Branch { dest }) => if external_tail_call_target(
            ssa,
            *dest,
        ).is_some() {
            Some(*dest)
        } else {
            None
        },
        SsaOpKind::Pcode(PcodeOp::BranchInd { dest }) => if in_register(dest) && ssa.blocks.len() == 1 {
            Some(*dest)
        } else {
            None
        },
        _ => None,
    }
}

/// Operations of the first `n` blocks.
pub open spec fn op_count(ssa: SsaFunction, n: int) -> nat
    decreases n,
{
    if n <= 0 {
        0
    } else {
        op_count(ssa, n - 1) + ssa.blocks@[n - 1].ops@.len()
    }
}

proof fn lemma_op_count(ssa: SsaFunction, n: int, k: int)
    requires
        0 <= k < n <= ssa.blocks@.len(),
    ensures
        op_count(ssa, k) + ssa.blocks@[k].ops@.len() <= op_count(ssa, n),
    decreases n,
{
    if k < n - 1 {
        lemma_op_count(ssa, n - 1, k);
    }
}

/// Add the calls of an SSA function to its lowering, and return those that were
/// added.
///
/// A call keeps the provenance of its operation. Its target is an address, or the
/// value of the variable that holds it. An argument is recorded only where the call
/// is known to take it and the block defines it behind any earlier call. No result,
/// stack argument or value is invented.
pub fn lift_win64_calls(ssa: &SsaFunction, lowering: &mut SsaLowering) -> (r: Vec<CallSiteId>)
    requires
        old(lowering)@.hir.calls.len() + op_count(*ssa, ssa.blocks@.len() as int) <= u32::MAX,
    ensures
        final(lowering)@ == lifted(*ssa, old(lowering)@).low,
        r@ == lifted(*ssa, old(lowering)@).added,
{
    let ghost low0 = lowering@;
    let mut added: Vec<CallSiteId> = Vec::new();
    let mut b: usize = 0;
    assert(added@ =~= Seq::empty());
    while b < ssa.blocks.len()
        invariant
            b <= ssa.blocks@.len(),
            low0.hir.calls.len() + op_count(*ssa, ssa.blocks@.len() as int) <= u32::MAX,
            lowering@.hir.calls.len() <= low0.hir.calls.len() + op_count(*ssa, b as int),
            (Lifted { low: lowering@, added: added@ }) == lifted_blocks(*ssa, low0, b as int),
        decreases ssa.blocks@.len() - b,
    {
        let block = &ssa.blocks[b];
        let ghost st = Lifted { low: lowering@, added: added@ };
        let ghost room = low0.hir.calls.len() + op_count(*ssa, b as int);
        proof {
            lemma_op_count(*ssa, ssa.blocks@.len() as int, b as int);
        }
        let mut i: usize = 0;
        while i < block.ops.len()
            invariant
                i <= block.ops@.len(),
                b < ssa.blocks@.len(),
                *block == ssa.blocks@[b as int],
                room + block.ops@.len() <= u32::MAX,
                lowering@.hir.calls.len() <= room + i,
                (Lifted { low: lowering@, added: added@ }) == lifted_ops(*ssa, st, b as int, i as int),
            decreases block.ops@.len() - i,
        {
            let ghost now = Lifted { low: lowering@, added: added@ };
            let op = &block.ops[i];
            let key = SsaOperationKey { block_id: block.id, operation_index: i as u32 };
            if let Some(dest) = find_destination(ssa, op) {
                if lowering.call_sites.get(&key).is_none() {
                    let known: Option<OperationId> = match lowering.operations.get(&key) {
                        Some(x) => Some(*x),
                        None => None,
                    };
                    if let Some(operation_id) = known {
                        let found: Option<Provenance> = match lowering.hir.operation(operation_id) {
                            Some(o) => Some(o.provenance.recast(ProvenanceKind::Abi)),
                            None => None,
                        };
                        if let Some(provenance) = found {
                            let target = lift_call_target(block, i, dest, &lowering.values);
                            let arguments = lift_same_block_win64_arguments(
                                block,
                                i,
                                &lowering.values,
                            );
                            let site = Win64CallSite::new(provenance, target, arguments);
                            assert(site@ =~= call_at(*ssa, now.low, b as int, i as int));
                            let id = lowering.hir.add_call_site(site);
                            lowering.call_sites.insert(key, id);
                            added.push(id);
                        }
                    }
                }
            }
            assert((Lifted { low: lowering@, added: added@ }) =~= lifted_at(
                *ssa,
                now,
                b as int,
                i as int,
            ));
            i += 1;
        }
        b += 1;
    }
    added
}

impl SsaLowering {
    /// Add the calls of the SSA function.
    pub fn lift_win64_calls(&mut self, ssa: &SsaFunction) -> (r: Vec<CallSiteId>)
        requires
            old(self)@.hir.calls.len() + op_count(*ssa, ssa.blocks@.len() as int) <= u32::MAX,
        ensures
            final(self)@ == lifted(*ssa, old(self)@).low,
            r@ == lifted(*ssa, old(self)@).added,
    {
        lift_win64_calls(ssa, self)
    }

    /// The SSA variable that an exit block returns.
    pub fn exit_ssa_var(&self, block_id: u32) -> (r: Option<&SsaVar>)
        ensures
            match lookup(self@.hir.exits, block_id) {
                None => r is None,
                Some(value) => match r {
                    Some(v) => self@.values.dom().contains(*v) && self@.values[*v] == value,
                    None => forall|v: SsaVar|
                        #[trigger] self@.values.dom().contains(v) ==> self@.values[v] != value,
                },
            },
    {
        let value = match self.hir.exit_value(block_id) {
            Some(value) => value,
            None => {
                return None;
            },
        };
        let mut i: usize = 0;
        while i < self.values.entries.len()
            invariant
                i <= self.values.entries@.len(),
                lookup(self@.hir.exits, block_id) == Some(value),
                forall|k: int|
                    0 <= k < i && self@.values.dom().contains(
                        (#[trigger] self.values.entries@[k]).0,
                    ) ==> self@.values[self.values.entries@[k].0] != value,
            decreases self.values.entries@.len() - i,
        {
            let v = &self.values.entries[i].0;
            if let Some(id) = self.values.get(v) {
                if *id == value {
                    return Some(v);
                }
            }
            i += 1;
        }
        proof {
            assert forall|v: SsaVar| #[trigger] self@.values.dom().contains(v) implies self@.values[v]
                != value by {
                lemma_entry(self.values.entries@, v);
                let k = choose|k: int|
                    0 <= k < self.values.entries@.len() && (#[trigger] self.values.entries@[k]).0 == v;
                assert(self@.values.dom().contains(self.values.entries@[k].0));
            }
        }
        None
    }
}

pub proof fn lemma_entry(e: Seq<(SsaVar, ValueId)>, v: SsaVar)
    requires
        entries_map(e).dom().contains(v),
    ensures
        exists|k: int| 0 <= k < e.len() && (#[trigger] e[k]).0 == v,
    decreases e.len(),
{
    if e.len() > 0 {
        if e.last().0 == v {
            assert(e[e.len() - 1].0 == v);
        } else {
            lemma_entry(e.drop_last(), v);
            let k = choose|k: int| 0 <= k < e.drop_last().len() && (#[trigger] e.drop_last()[k]).0 == v;
            assert(e[k].0 == v);
        }
    }
}

// ─── What lifting keeps ─────────────────────────────────────────────────────

/// `t` has the values, operations and exits of `s`, and at least its calls.
pub open spec fn only_calls_added(s: LoweringView, t: LoweringView) -> bool {
    &&& t.values == s.values
    &&& t.operations == s.operations
    &&& t.hir.values == s.hir.values
    &&& t.hir.operations == s.hir.operations
    &&& t.hir.objects == s.hir.objects
    &&& t.hir.exits == s.hir.exits
    &&& t.hir.versions == s.hir.versions
    &&& s.hir.calls.is_prefix_of(t.hir.calls)
    &&& s.calls.dom().subset_of(t.calls.dom())
}

pub proof fn lemma_lifted_ops(ssa: SsaFunction, st: Lifted, b: int, n: int)
    ensures
        only_calls_added(st.low, lifted_ops(ssa, st, b, n).low),
        forall|i: int|
            0 <= i < n ==> #[trigger] left_alone(ssa, lifted_ops(ssa, st, b, n).low, b, i),
    decreases n,
{
    if n > 0 {
        lemma_lifted_ops(ssa, st, b, n - 1);
        let before = lifted_ops(ssa, st, b, n - 1);
        let after = lifted_ops(ssa, st, b, n);
        assert forall|i: int| 0 <= i < n implies #[trigger] left_alone(ssa, after.low, b, i) by {
            if i < n - 1 {
                assert(left_alone(ssa, before.low, b, i));
            }
        }
    }
}

proof fn lemma_stays_alone(ssa: SsaFunction, s: LoweringView, t: LoweringView, b: int, i: int)
    requires
        only_calls_added(s, t),
        left_alone(ssa, s, b, i),
    ensures
        left_alone(ssa, t, b, i),
{
}

pub proof fn lemma_lifted_blocks(ssa: SsaFunction, low: LoweringView, n: int)
    requires
        n <= ssa.blocks@.len(),
    ensures
        only_calls_added(low, lifted_blocks(ssa, low, n).low),
        forall|b: int, i: int|
            0 <= b < n && 0 <= i < ssa.blocks@[b].ops@.len() ==> #[trigger] left_alone(
                ssa,
                lifted_blocks(ssa, low, n).low,
                b,
                i,
            ),
    decreases n,
{
    if n > 0 {
        lemma_lifted_blocks(ssa, low, n - 1);
        let before = lifted_blocks(ssa, low, n - 1);
        let after = lifted_blocks(ssa, low, n);
        lemma_lifted_ops(ssa, before, n - 1, ssa.blocks@[n - 1].ops@.len() as int);
        assert forall|b: int, i: int| 0 <= b < n && 0 <= i < ssa.blocks@[b].ops@.len() implies #[trigger] left_alone(
            ssa,
            after.low,
            b,
            i,
        ) by {
            if b < n - 1 {
                lemma_stays_alone(ssa, before.low, after.low, b, i);
            }
        }
    }
}

proof fn lemma_nothing_to_lift(ssa: SsaFunction, low: LoweringView, n: int)
    requires
        n <= ssa.blocks@.len(),
        forall|b: int, i: int|
            0 <= b < n && 0 <= i < ssa.blocks@[b].ops@.len() ==> #[trigger] left_alone(ssa, low, b, i),
    ensures
        lifted_blocks(ssa, low, n) == (Lifted { low, added: Seq::empty() }),
    decreases n,
{
    if n > 0 {
        lemma_nothing_to_lift(ssa, low, n - 1);
        lemma_nothing_in_block(
            ssa,
            Lifted { low, added: Seq::empty() },
            n - 1,
            ssa.blocks@[n - 1].ops@.len() as int,
        );
    }
}

proof fn lemma_nothing_in_block(ssa: SsaFunction, st: Lifted, b: int, n: int)
    requires
        0 <= b < ssa.blocks@.len(),
        n <= ssa.blocks@[b].ops@.len(),
        forall|i: int| 0 <= i < n ==> #[trigger] left_alone(ssa, st.low, b, i),
    ensures
        lifted_ops(ssa, st, b, n) == st,
    decreases n,
{
    if n > 0 {
        lemma_nothing_in_block(ssa, st, b, n - 1);
        assert(left_alone(ssa, st.low, b, n - 1));
    }
}

/// Lifting the calls of a function again adds nothing.
pub proof fn law_lifting_is_idempotent(ssa: SsaFunction, low: LoweringView)
    ensures
        lifted(ssa, lifted(ssa, low).low) == (Lifted {
            low: lifted(ssa, low).low,
            added: Seq::empty(),
        }),
{
    let n = ssa.blocks@.len() as int;
    lemma_lifted_blocks(ssa, low, n);
    lemma_nothing_to_lift(ssa, lifted(ssa, low).low, n);
}

/// Lifting changes nothing but the calls: no value is invented, and no call that
/// was there is lost.
pub proof fn law_lifting_adds_only_calls(ssa: SsaFunction, low: LoweringView)
    ensures
        only_calls_added(low, lifted(ssa, low).low),
{
    lemma_lifted_blocks(ssa, low, ssa.blocks@.len() as int);
}

proof fn lemma_arguments_fault(h: HirView, call: CallSiteId, values: Map<SsaVar, ValueId>, ops: Seq<OpView>, index: int, n: int)
    requires
        0 <= n <= 4,
        forall|v: SsaVar| #[trigger] values.dom().contains(v) ==> values[v].0 < h.values.len(),
    ensures
        forall|k: int|
            0 <= k < arguments_of(values, ops, index, n).len() ==> sound_argument(
                h,
                #[trigger] arguments_of(values, ops, index, n)[k],
                n,
            ),
        forall|i: int, j: int|
            0 <= i < j < arguments_of(values, ops, index, n).len() ==> (
            #[trigger] arguments_of(values, ops, index, n)[i]).position < (
            #[trigger] arguments_of(values, ops, index, n)[j]).position,
    decreases n,
{
    if n > 0 {
        lemma_arguments_fault(h, call, values, ops, index, n - 1);
        let less = arguments_of(values, ops, index, n - 1);
        let now = arguments_of(values, ops, index, n);
        assert forall|k: int| 0 <= k < now.len() implies sound_argument(h, #[trigger] now[k], n) by {
            if k < less.len() {
                assert(sound_argument(h, less[k], n - 1));
            }
        }
        assert forall|i: int, j: int| 0 <= i < j < now.len() implies (#[trigger] now[i]).position < (
        #[trigger] now[j]).position by {
            assert(sound_argument(h, less[i], n - 1));
            if j < less.len() {
                assert(less[i].position < less[j].position);
            }
        }
    }
}

/// The argument is one of the first `n`, passed in a register, with a value that exists.
spec fn sound_argument(h: HirView, a: ArgumentView, n: int) -> bool {
    &&& a.position < n
    &&& a.value.0 < h.values.len()
    &&& a.locations.len() == 1
    &&& a.locations[0] is Register
}

proof fn lemma_sound_arguments(h: HirView, call: CallSiteId, arguments: Seq<ArgumentView>, i: int)
    requires
        0 <= i,
        forall|k: int| 0 <= k < arguments.len() ==> sound_argument(h, #[trigger] arguments[k], 4),
        forall|i: int, j: int|
            0 <= i < j < arguments.len() ==> (#[trigger] arguments[i]).position < (
            #[trigger] arguments[j]).position,
    ensures
        h.arguments_fault(call, arguments, i) is None,
    decreases arguments.len() - i,
{
    if i < arguments.len() {
        let a = arguments[i];
        assert(sound_argument(h, a, 4));
        assert(h.places_fault(call, a.position, a.locations, 1) is None);
        lemma_sound_arguments(h, call, arguments, i + 1);
    }
}

proof fn lemma_lifted_call(ssa: SsaFunction, low: LoweringView, b: int, i: int, call: CallSiteId)
    requires
        low.wf(),
        !left_alone(ssa, low, b, i),
    ensures
        low.hir.call_fault(call, call_at(ssa, low, b, i)) is None,
{
    let ops = ssa.blocks@[b]@.ops;
    lemma_arguments_fault(low.hir, call, low.values, ops, i, 4);
    lemma_sound_arguments(low.hir, call, arguments_of(low.values, ops, i, 4), 0);
    let dest = call_destination(ssa, ssa.blocks@[b].ops@[i])->0;
    assert(low.hir.target_fault(target_of(low.values, ops, i, dest)) is None);
}

proof fn lemma_lifted_refer(ssa: SsaFunction, st: Lifted, b: int, n: int)
    requires
        st.low.wf(),
        calls_refer(st.low.hir),
        st.low.hir.calls.len() + n <= u32::MAX,
    ensures
        lifted_ops(ssa, st, b, n).low.wf(),
        calls_refer(lifted_ops(ssa, st, b, n).low.hir),
        n >= 0 ==> lifted_ops(ssa, st, b, n).low.hir.calls.len() <= st.low.hir.calls.len() + n,
    decreases n,
{
    if n > 0 {
        lemma_lifted_refer(ssa, st, b, n - 1);
        let s = lifted_ops(ssa, st, b, n - 1).low;
        let t = lifted_ops(ssa, st, b, n).low;
        if !left_alone(ssa, s, b, n - 1) {
            assert forall|k: int| 0 <= k < t.hir.calls.len() implies t.hir.call_fault(
                CallSiteId(k as u32),
                #[trigger] t.hir.calls[k],
            ) is None by {
                if k < s.hir.calls.len() {
                    assert(s.hir.call_fault(CallSiteId(k as u32), s.hir.calls[k]) is None);
                    lemma_same_arenas(s.hir, t.hir, CallSiteId(k as u32), s.hir.calls[k]);
                } else {
                    lemma_lifted_call(ssa, s, b, n - 1, CallSiteId(k as u32));
                    lemma_same_arenas(s.hir, t.hir, CallSiteId(k as u32), call_at(ssa, s, b, n - 1));
                }
            }
            assert forall|i: int| 0 <= i < t.hir.operations.len() implies operation_refers(
                t.hir,
                i,
                #[trigger] t.hir.operations[i],
            ) by {
                assert(operation_refers(s.hir, i, s.hir.operations[i]));
            }
        }
    }
}

/// The fault of a call depends on the sizes of the arenas only.
proof fn lemma_same_arenas(s: HirView, t: HirView, call: CallSiteId, c: CallView)
    requires
        s.values.len() == t.values.len(),
        s.objects.len() == t.objects.len(),
    ensures
        s.call_fault(call, c) == t.call_fault(call, c),
{
    lemma_same_arguments(s, t, call, c.arguments, 0);
    if let MemoryView::Objects(v) = c.clobbers.memory {
        lemma_same_objects(s, t, v, 0);
    }
}

proof fn lemma_same_arguments(s: HirView, t: HirView, call: CallSiteId, arguments: Seq<ArgumentView>, i: int)
    requires
        s.values.len() == t.values.len(),
    ensures
        s.arguments_fault(call, arguments, i) == t.arguments_fault(call, arguments, i),
    decreases arguments.len() - i,
{
    if 0 <= i < arguments.len() {
        lemma_same_places(s, t, call, arguments[i].position, arguments[i].locations, 0);
        lemma_same_arguments(s, t, call, arguments, i + 1);
    }
}

proof fn lemma_same_places(s: HirView, t: HirView, call: CallSiteId, position: u16, places: Seq<LocationView>, i: int)
    ensures
        s.places_fault(call, position, places, i) == t.places_fault(call, position, places, i),
    decreases places.len() - i,
{
    if 0 <= i < places.len() {
        lemma_same_places(s, t, call, position, places, i + 1);
    }
}

proof fn lemma_same_objects(s: HirView, t: HirView, refs: Seq<crate::hir::MemoryObjectId>, i: int)
    requires
        s.objects.len() == t.objects.len(),
    ensures
        s.object_refs_fault(refs, i) == t.object_refs_fault(refs, i),
    decreases refs.len() - i,
{
    if 0 <= i < refs.len() {
        lemma_same_objects(s, t, refs, i + 1);
    }
}

proof fn lemma_blocks_refer(ssa: SsaFunction, low: LoweringView, n: int)
    requires
        low.wf(),
        calls_refer(low.hir),
        n <= ssa.blocks@.len(),
        low.hir.calls.len() + op_count(ssa, n) <= u32::MAX,
    ensures
        lifted_blocks(ssa, low, n).low.wf(),
        calls_refer(lifted_blocks(ssa, low, n).low.hir),
        lifted_blocks(ssa, low, n).low.hir.calls.len() <= low.hir.calls.len() + op_count(ssa, n),
    decreases n,
{
    if n > 0 {
        lemma_blocks_refer(ssa, low, n - 1);
        lemma_lifted_refer(
            ssa,
            lifted_blocks(ssa, low, n - 1),
            n - 1,
            ssa.blocks@[n - 1].ops@.len() as int,
        );
    }
}

/// A lowering without faults still has none when its calls have been lifted.
pub proof fn law_lifting_keeps_validity(ssa: SsaFunction, low: LoweringView)
    requires
        low.wf(),
        calls_refer(low.hir),
        low.hir.calls.len() + op_count(ssa, ssa.blocks@.len() as int) <= u32::MAX,
    ensures
        lifted(ssa, low).low.wf(),
        lifted(ssa, low).low.hir.fault() is None,
{
    lemma_blocks_refer(ssa, low, ssa.blocks@.len() as int);
    law_wf_validates(lifted(ssa, low).low);
}

} // verus!
