//! Simplification of a function in SSA form: copies and trivial phis become
//! aliases, and pure operations without a live use are dropped. The carried
//! P-code operations are never changed.

use vstd::prelude::*;
use pcode_ir::PcodeOp;
use crate::graph::{lemma_misses_set, misses, reach_avoiding, reaches, rows};
use crate::maps::{lemma_root_free, lemma_unite_settled, root, settled, unite, AliasMap, VarMap};
use crate::normalize::{is_copy_op, is_effect_op, is_return_op, op_is_copy, op_is_effect, op_is_return};
use crate::pcode::{in_const, is_const, op_view};
use crate::ssa::builder::registers_defined;
use crate::ssa::versions::{apart, merges_defined, merges_real, single_assignment};
use crate::ssa::{copy_ids, ops_view, BlockView, FunctionView, KindView, Location, OpView, PhiNode, PhiView, SsaBlock, SsaFunction, SsaOp, SsaOpKind, SsaVar};

verus! {

/// A definition found to be constant, with the address of the operation.
#[derive(Clone, Copy, Debug, PartialEq, Eq, Structural)]
pub struct SsaConstant {
    pub va: u64,
    pub value: u64,
    pub size: u32,
}

/// A copy that became an alias: where it stands, and where its source is defined.
#[derive(Clone, Copy, Debug, PartialEq, Eq, Structural)]
pub struct SsaCopy {
    pub def_va: u64,
    pub target_va: u64,
}

/// What a simplification achieved.
#[derive(Clone, Debug, PartialEq, Eq)]
pub struct SsaAnalysis {
    /// Operations before.
    pub op_count_before: usize,
    /// Operations after.
    pub op_count_after: usize,
    /// Copies that became aliases.
    pub copies_propagated: usize,
    /// Definitions found to be constant.
    pub constants_propagated: usize,
    /// Phis that became aliases.
    pub phis_collapsed: usize,
    /// Other operations that were dropped.
    pub dead_ops_removed: usize,
    /// The constant definitions.
    pub constants: Vec<SsaConstant>,
    /// The copies that became aliases.
    pub copies: Vec<SsaCopy>,
}

impl Default for SsaAnalysis {
    fn default() -> (r: SsaAnalysis)
        ensures
            r.op_count_before == 0,
            r.op_count_after == 0,
            r.copies_propagated == 0,
            r.constants_propagated == 0,
            r.phis_collapsed == 0,
            r.dead_ops_removed == 0,
            r.constants@.len() == 0,
            r.copies@.len() == 0,
    {
        SsaAnalysis {
            op_count_before: 0,
            op_count_after: 0,
            copies_propagated: 0,
            constants_propagated: 0,
            phis_collapsed: 0,
            dead_ops_removed: 0,
            constants: Vec::new(),
            copies: Vec::new(),
        }
    }
}

// ─── All operations in a row ────────────────────────────────────────────────

/// The operations of the first `n` blocks, one behind the other.
pub open spec fn flat(ssa: SsaFunction, n: int) -> Seq<SsaOp>
    decreases n,
{
    if n <= 0 {
        Seq::empty()
    } else {
        flat(ssa, n - 1) + ssa.blocks@[n - 1].ops@
    }
}

/// All operations of a function.
pub open spec fn all_ops(ssa: SsaFunction) -> Seq<SsaOp> {
    flat(ssa, ssa.blocks@.len() as int)
}

/// The last of the first `n` operations that defines `v`.
pub open spec fn def_index(ops: Seq<SsaOp>, n: int, v: SsaVar) -> Option<int>
    decreases n,
{
    if n <= 0 {
        None
    } else if ops[n - 1].def == Some(v) {
        Some(n - 1)
    } else {
        def_index(ops, n - 1, v)
    }
}

/// The operation that defines `v`.
pub open spec fn defines(ops: Seq<SsaOp>, v: SsaVar) -> Option<int> {
    def_index(ops, ops.len() as int, v)
}

pub proof fn lemma_def_index(ops: Seq<SsaOp>, n: int, v: SsaVar)
    requires
        n <= ops.len(),
    ensures
        def_index(ops, n, v) matches Some(i) ==> 0 <= i < n && ops[i].def == Some(v),
    decreases n,
{
    if n > 0 && ops[n - 1].def != Some(v) {
        lemma_def_index(ops, n - 1, v);
    }
}

// ─── Copies ─────────────────────────────────────────────────────────────────

/// What the pass over the copies has gathered.
#[verifier::ext_equal]
pub ghost struct Copies {
    pub rep: Map<SsaVar, SsaVar>,
    pub value: Map<SsaVar, (u64, u32)>,
    pub constants: Seq<SsaConstant>,
    pub copies: Seq<SsaCopy>,
}

/// The address of the operation that defines `v`, or zero.
pub open spec fn def_va(ops: Seq<SsaOp>, v: SsaVar) -> u64 {
    match defines(ops, v) {
        Some(i) => ops[i].va,
        None => 0,
    }
}

/// One copy: a constant is recorded, a copy of a variable joins its class.
pub open spec fn copy_step(ops: Seq<SsaOp>, op: SsaOp, c: Copies) -> Copies {
    match op.kind {
        SsaOpKind::Pcode(PcodeOp::Copy { input, .. }) => match op.def {
            Some(def) => if is_const(input) {
                Copies {
                    value: c.value.insert(def, (input.offset, input.size)),
                    constants: c.constants.push(
                        SsaConstant { va: op.va, value: input.offset, size: input.size },
                    ),
                    ..c
                }
            } else if op.uses@.len() > 0 && root(c.rep, def) != root(c.rep, op.uses@[0]) {
                Copies {
                    rep: unite(c.rep, root(c.rep, def), root(c.rep, op.uses@[0])),
                    copies: c.copies.push(
                        SsaCopy { def_va: op.va, target_va: def_va(ops, op.uses@[0]) },
                    ),
                    ..c
                }
            } else {
                c
            },
            None => c,
        },
        _ => c,
    }
}

/// The pass over the first `n` operations.
pub open spec fn copies_of(ops: Seq<SsaOp>, n: int) -> Copies
    decreases n,
{
    if n <= 0 {
        Copies {
            rep: Map::empty(),
            value: Map::empty(),
            constants: Seq::empty(),
            copies: Seq::empty(),
        }
    } else {
        copy_step(ops, ops[n - 1], copies_of(ops, n - 1))
    }
}

// ─── Trivial phis ───────────────────────────────────────────────────────────

/// What a variable resolves to.
pub ghost enum Resolved {
    Var(SsaVar),
    Const(u64, u32),
}

/// The constant that `v` or its representative holds, else the representative.
pub open spec fn resolved(rep: Map<SsaVar, SsaVar>, value: Map<SsaVar, (u64, u32)>, v: SsaVar) -> Resolved {
    let f = root(rep, v);
    if value.dom().contains(f) {
        Resolved::Const(value[f].0, value[f].1)
    } else if value.dom().contains(v) {
        Resolved::Const(value[v].0, value[v].1)
    } else {
        Resolved::Var(f)
    }
}

/// Position of the first defined argument from `i` on; the end if there is none.
pub open spec fn first_defined(args: Seq<Option<SsaVar>>, i: int) -> int
    decreases args.len() - i,
{
    if i >= args.len() || args[i] is Some {
        i
    } else {
        first_defined(args, i + 1)
    }
}

/// Every argument is defined.
pub open spec fn all_defined(args: Seq<Option<SsaVar>>) -> bool {
    forall|i: int| 0 <= i < args.len() ==> (#[trigger] args[i]) is Some
}

/// What the arguments of a phi resolve to, if they agree: the variable that every
/// defined argument resolves to, or the constant that every argument is.
pub open spec fn agreed(rep: Map<SsaVar, SsaVar>, value: Map<SsaVar, (u64, u32)>, args: Seq<Option<SsaVar>>) -> Option<Resolved> {
    let f = first_defined(args, 0);
    if f < args.len() && (forall|i: int|
        0 <= i < args.len() && (#[trigger] args[i]) is Some ==> resolved(rep, value, args[i]->0)
            == resolved(rep, value, args[f]->0)) && (resolved(rep, value, args[f]->0) is Const ==> all_defined(args)) {
        Some(resolved(rep, value, args[f]->0))
    } else {
        None
    }
}

pub proof fn lemma_first_defined(args: Seq<Option<SsaVar>>, i: int)
    requires
        0 <= i <= args.len(),
    ensures
        i <= first_defined(args, i) <= args.len(),
        first_defined(args, i) < args.len() ==> args[first_defined(args, i)] is Some,
        forall|j: int| i <= j < first_defined(args, i) ==> (#[trigger] args[j]) is None,
    decreases args.len() - i,
{
    if i < args.len() && args[i] is None {
        lemma_first_defined(args, i + 1);
    }
}

/// What the passes over the phis have gathered.
#[verifier::ext_equal]
pub ghost struct Phis {
    pub rep: Map<SsaVar, SsaVar>,
    pub value: Map<SsaVar, (u64, u32)>,
    pub collapsed: nat,
}

/// One phi: where its arguments agree it joins their class or takes their constant.
pub open spec fn phi_step(op: SsaOp, p: Phis) -> Phis {
    match op.kind {
        SsaOpKind::Phi(phi) => match agreed(p.rep, p.value, phi.args@) {
            Some(Resolved::Var(t)) => if root(p.rep, phi.out) != root(p.rep, t) {
                Phis {
                    rep: unite(p.rep, root(p.rep, phi.out), root(p.rep, t)),
                    collapsed: p.collapsed + 1,
                    ..p
                }
            } else {
                p
            },
            Some(Resolved::Const(v, size)) => Phis { value: p.value.insert(phi.out, (v, size)), ..p },
            None => p,
        },
        _ => p,
    }
}

/// One pass over the first `n` operations.
pub open spec fn phi_pass(ops: Seq<SsaOp>, n: int, p: Phis) -> Phis
    decreases n,
{
    if n <= 0 {
        p
    } else {
        phi_step(ops[n - 1], phi_pass(ops, n - 1, p))
    }
}

/// Passes until one collapses no phi, at most `k`.
pub open spec fn phi_passes(ops: Seq<SsaOp>, k: nat, p: Phis) -> Phis
    decreases k,
{
    if k == 0 {
        p
    } else {
        let q = phi_pass(ops, ops.len() as int, p);
        if q.collapsed == p.collapsed {
            q
        } else {
            phi_passes(ops, (k - 1) as nat, q)
        }
    }
}

/// The alias classes and constants of a function.
pub open spec fn phis_of(ops: Seq<SsaOp>) -> Phis {
    let c = copies_of(ops, ops.len() as int);
    phi_passes(ops, ops.len() + 1, Phis { rep: c.rep, value: c.value, collapsed: 0 })
}

// ─── Rewritten operations ───────────────────────────────────────────────────

/// The representatives of a list of variables.
pub open spec fn roots(rep: Map<SsaVar, SsaVar>, uses: Seq<SsaVar>) -> Seq<SsaVar> {
    Seq::new(uses.len(), |i: int| root(rep, uses[i]))
}

/// The representatives of a list of phi arguments.
pub open spec fn arg_roots(rep: Map<SsaVar, SsaVar>, args: Seq<Option<SsaVar>>) -> Seq<Option<SsaVar>> {
    Seq::new(
        args.len(),
        |i: int|
            match args[i] {
                Some(v) => Some(root(rep, v)),
                None => None,
            },
    )
}

/// The operation with every use and phi argument replaced by its representative.
pub open spec fn repointed(rep: Map<SsaVar, SsaVar>, op: SsaOp) -> OpView {
    OpView {
        va: op.va,
        kind: match op.kind {
            SsaOpKind::Phi(phi) => KindView::Phi(
                PhiView { out: phi.out, args: arg_roots(rep, phi.args@) },
            ),
            SsaOpKind::Pcode(p) => KindView::Pcode(op_view(p)),
        },
        def: op.def,
        uses: roots(rep, op.uses@),
    }
}

/// `v` is read by the rewritten operation.
pub open spec fn reads(rep: Map<SsaVar, SsaVar>, op: SsaOp, v: SsaVar) -> bool {
    ||| roots(rep, op.uses@).contains(v)
    ||| op.kind matches SsaOpKind::Phi(phi) && arg_roots(rep, phi.args@).contains(Some(v))
}

// ─── Liveness ───────────────────────────────────────────────────────────────

/// `v` is a value of RAX.
pub open spec fn in_rax(v: SsaVar) -> bool {
    v.location == (Location::Register { base_offset: 0 })
}

/// Some operation returns.
pub open spec fn any_return(ops: Seq<SsaOp>) -> bool {
    exists|i: int| 0 <= i < ops.len() && is_return_op(#[trigger] ops[i])
}

/// Operation `j` defines RAX and was aliased to a value elsewhere that operation
/// `i` defines.
pub open spec fn backs_rax(ops: Seq<SsaOp>, rep: Map<SsaVar, SsaVar>, j: int, i: int) -> bool {
    &&& ops[j].def is Some
    &&& in_rax(ops[j].def->0)
    &&& root(rep, ops[j].def->0) != ops[j].def->0
    &&& !in_rax(root(rep, ops[j].def->0))
    &&& defines(ops, root(rep, ops[j].def->0)) == Some(i)
}

/// Operation `i` is live on its own account: it has an effect, or the function
/// returns and the operation defines RAX or the value that RAX was aliased to.
pub open spec fn anchored(ops: Seq<SsaOp>, rep: Map<SsaVar, SsaVar>, i: int) -> bool {
    ||| is_effect_op(ops[i])
    ||| any_return(ops) && ops[i].def is Some && in_rax(ops[i].def->0)
    ||| any_return(ops) && exists|j: int| 0 <= j < ops.len() && #[trigger] backs_rax(ops, rep, j, i)
}

/// Operation `i` defines a variable that the rewritten operation `j` reads.
pub open spec fn feeds(ops: Seq<SsaOp>, rep: Map<SsaVar, SsaVar>, i: int, j: int) -> bool {
    exists|v: SsaVar| #[trigger] reads(rep, ops[j], v) && defines(ops, v) == Some(i)
}

/// `c` leads from an anchored operation over definitions to operation `i`.
pub open spec fn live_chain(ops: Seq<SsaOp>, rep: Map<SsaVar, SsaVar>, c: Seq<int>, i: int) -> bool {
    &&& c.len() > 0
    &&& forall|k: int| 0 <= k < c.len() ==> 0 <= #[trigger] c[k] < ops.len()
    &&& anchored(ops, rep, c[0])
    &&& c.last() == i
    &&& forall|k: int| 0 < k < c.len() ==> #[trigger] fed(ops, rep, c, k)
}

/// Step `k` of a chain goes from a reader to the definition it reads.
pub open spec fn fed(ops: Seq<SsaOp>, rep: Map<SsaVar, SsaVar>, c: Seq<int>, k: int) -> bool {
    feeds(ops, rep, c[k], c[k - 1])
}

/// Operation `i` is anchored, or an anchored operation depends on it.
pub open spec fn live(ops: Seq<SsaOp>, rep: Map<SsaVar, SsaVar>, i: int) -> bool {
    exists|c: Seq<int>| #[trigger] live_chain(ops, rep, c, i)
}

/// A pure operation other than a copy that reads what it defines.
pub open spec fn circular(rep: Map<SsaVar, SsaVar>, op: SsaOp) -> bool {
    &&& !is_effect_op(op)
    &&& !is_copy_op(op)
    &&& op.def is Some
    &&& reads(rep, op, root(rep, op.def->0))
}

/// Operation `i` is kept.
pub open spec fn kept(ops: Seq<SsaOp>, rep: Map<SsaVar, SsaVar>, i: int) -> bool {
    live(ops, rep, i) && !circular(rep, ops[i])
}

/// The kept operations from `a` up to `b`, rewritten.
pub open spec fn kept_ops(ops: Seq<SsaOp>, rep: Map<SsaVar, SsaVar>, a: int, b: int) -> Seq<OpView>
    decreases b - a,
{
    if b <= a {
        Seq::empty()
    } else if kept(ops, rep, b - 1) {
        kept_ops(ops, rep, a, b - 1).push(repointed(rep, ops[b - 1]))
    } else {
        kept_ops(ops, rep, a, b - 1)
    }
}

/// Block `b` with its kept operations.
pub open spec fn pruned_block(ssa: SsaFunction, rep: Map<SsaVar, SsaVar>, b: int) -> BlockView {
    let ops = all_ops(ssa);
    BlockView {
        id: b as u32,
        entry_va: ssa.blocks@[b].entry_va,
        ops: kept_ops(ops, rep, flat(ssa, b).len() as int, flat(ssa, b + 1).len() as int),
        preds: ssa.blocks@[b].predecessor_ids@,
        succs: ssa.blocks@[b].successor_ids@,
    }
}

/// The simplified function.
pub open spec fn pruned(ssa: SsaFunction) -> FunctionView {
    let rep = phis_of(all_ops(ssa)).rep;
    FunctionView {
        entry_va: ssa.entry_va,
        bitness: ssa.bitness,
        blocks: Seq::new(ssa.blocks@.len(), |b: int| pruned_block(ssa, rep, b)),
        image_base: ssa.image_base,
    }
}

// ─── Computation ────────────────────────────────────────────────────────────

/// `work` refers to the operations `ops`.
spec fn refers(work: Seq<&SsaOp>, ops: Seq<SsaOp>) -> bool {
    &&& work.len() == ops.len()
    &&& forall|i: int| 0 <= i < ops.len() ==> *(#[trigger] work[i]) == ops[i]
}

/// The number in an optional index.
spec fn index_of(o: Option<usize>) -> Option<int> {
    match o {
        Some(i) => Some(i as int),
        None => None,
    }
}

fn find_def(work: &Vec<&SsaOp>, v: &SsaVar, Ghost(ops): Ghost<Seq<SsaOp>>) -> (r: Option<usize>)
    requires
        refers(work@, ops),
    ensures
        index_of(r) == defines(ops, *v),
        r is Some ==> r->0 < work@.len(),
{
    let mut n: usize = work.len();
    while n > 0
        invariant
            n <= work@.len(),
            refers(work@, ops),
            def_index(ops, n as int, *v) == defines(ops, *v),
        decreases n,
    {
        assert(*work@[n - 1] == ops[n - 1]);
        if let Some(d) = &work[n - 1].def {
            if *d == *v {
                return Some(n - 1);
            }
        }
        n -= 1;
    }
    None
}

fn collect_ops<'a>(ssa: &'a SsaFunction) -> (r: (Vec<&'a SsaOp>, Vec<usize>))
    ensures
        refers(r.0@, all_ops(*ssa)),
        r.1@.len() == ssa.blocks@.len() + 1,
        forall|b: int| 0 <= b <= ssa.blocks@.len() ==> (#[trigger] r.1@[b]) == flat(*ssa, b).len(),
{
    let mut work: Vec<&'a SsaOp> = Vec::new();
    let mut starts: Vec<usize> = Vec::new();
    starts.push(0);
    let mut b: usize = 0;
    while b < ssa.blocks.len()
        invariant
            b <= ssa.blocks@.len(),
            refers(work@, flat(*ssa, b as int)),
            starts@.len() == b + 1,
            forall|k: int| 0 <= k <= b ==> (#[trigger] starts@[k]) == flat(*ssa, k).len(),
        decreases ssa.blocks@.len() - b,
    {
        let block = &ssa.blocks[b];
        let ghost before = flat(*ssa, b as int);
        let mut i: usize = 0;
        assert(before + block.ops@.take(0) =~= before);
        while i < block.ops.len()
            invariant
                i <= block.ops@.len(),
                refers(work@, before + block.ops@.take(i as int)),
            decreases block.ops@.len() - i,
        {
            let ghost w0 = work@;
            work.push(&block.ops[i]);
            proof {
                let next = before + block.ops@.take(i + 1);
                assert(next =~= (before + block.ops@.take(i as int)).push(block.ops@[i as int]));
                assert forall|k: int| 0 <= k < next.len() implies *(#[trigger] work@[k]) == next[k] by {
                    if k < w0.len() {
                        assert(*w0[k] == (before + block.ops@.take(i as int))[k]);
                    }
                }
            }
            i += 1;
        }
        assert(block.ops@.take(block.ops@.len() as int) =~= block.ops@);
        starts.push(work.len());
        b += 1;
    }
    (work, starts)
}

/// The classes, constants and reports gathered so far.
struct State {
    rep: AliasMap,
    value: VarMap<(u64, u32)>,
}

fn run_copies(work: &Vec<&SsaOp>, Ghost(ops): Ghost<Seq<SsaOp>>) -> (r: (State, Vec<SsaConstant>, Vec<SsaCopy>))
    requires
        refers(work@, ops),
    ensures
        ({
            let c = copies_of(ops, ops.len() as int);
            &&& r.0.rep@ == c.rep
            &&& r.0.value@ == c.value
            &&& r.1@ == c.constants
            &&& r.2@ == c.copies
        }),
{
    let mut st = State { rep: AliasMap::new(), value: VarMap::new() };
    let mut constants: Vec<SsaConstant> = Vec::new();
    let mut copies: Vec<SsaCopy> = Vec::new();
    let mut i: usize = 0;
    while i < work.len()
        invariant
            i <= work@.len(),
            refers(work@, ops),
            st.rep@ == copies_of(ops, i as int).rep,
            st.value@ == copies_of(ops, i as int).value,
            constants@ == copies_of(ops, i as int).constants,
            copies@ == copies_of(ops, i as int).copies,
        decreases work@.len() - i,
    {
        let op = work[i];
        assert(*op == ops[i as int]);
        if let SsaOpKind::Pcode(PcodeOp::Copy { input, .. }) = &op.kind {
            if let Some(def) = &op.def {
                if in_const(input) {
                    st.value.insert(*def, (input.offset, input.size));
                    constants.push(
                        SsaConstant { va: op.va, value: input.offset, size: input.size },
                    );
                } else if op.uses.len() > 0 {
                    let target = op.uses[0];
                    let rd = st.rep.find(def);
                    let rt = st.rep.find(&target);
                    if rd != rt {
                        st.rep.unite(rd, rt);
                        let target_va: u64 = match find_def(work, &target, Ghost(ops)) {
                            Some(k) => work[k].va,
                            None => 0,
                        };
                        copies.push(SsaCopy { def_va: op.va, target_va });
                    }
                }
            }
        }
        i += 1;
    }
    (st, constants, copies)
}

/// A resolved argument.
enum Value {
    Var(SsaVar),
    Const(u64, u32),
}

spec fn value_view(v: Value) -> Resolved {
    match v {
        Value::Var(x) => Resolved::Var(x),
        Value::Const(a, b) => Resolved::Const(a, b),
    }
}

fn same_value(a: &Value, b: &Value) -> (r: bool)
    ensures
        r == (value_view(*a) == value_view(*b)),
{
    match (a, b) {
        (Value::Var(x), Value::Var(y)) => *x == *y,
        (Value::Const(v, s), Value::Const(w, t)) => *v == *w && *s == *t,
        _ => false,
    }
}

fn resolve_var(st: &State, v: &SsaVar) -> (r: Value)
    ensures
        value_view(r) == resolved(st.rep@, st.value@, *v),
{
    let f = st.rep.find(v);
    if let Some(c) = st.value.get(&f) {
        return Value::Const(c.0, c.1);
    }
    if let Some(c) = st.value.get(v) {
        return Value::Const(c.0, c.1);
    }
    Value::Var(f)
}

fn agreed_value(st: &State, args: &Vec<Option<SsaVar>>) -> (r: Option<Value>)
    ensures
        match r {
            Some(v) => agreed(st.rep@, st.value@, args@) == Some(value_view(v)),
            None => agreed(st.rep@, st.value@, args@) is None,
        },
{
    proof {
        lemma_first_defined(args@, 0);
    }
    let mut f: usize = 0;
    while f < args.len() && args[f].is_none()
        invariant
            f <= args@.len(),
            first_defined(args@, f as int) == first_defined(args@, 0),
            forall|j: int| 0 <= j < f ==> (#[trigger] args@[j]) is None,
        decreases args@.len() - f,
    {
        f += 1;
    }
    if f == args.len() {
        return None;
    }
    let first = match &args[f] {
        Some(v) => resolve_var(st, v),
        None => {
            return None;
        },
    };
    let mut full = f == 0;
    let mut i: usize = f + 1;
    while i < args.len()
        invariant
            f < i <= args@.len(),
            f == first_defined(args@, 0),
            args@[f as int] is Some,
            value_view(first) == resolved(st.rep@, st.value@, args@[f as int]->0),
            forall|j: int|
                0 <= j < i && (#[trigger] args@[j]) is Some ==> resolved(st.rep@, st.value@, args@[j]->0)
                    == value_view(first),
            full == (forall|j: int| 0 <= j < i ==> (#[trigger] args@[j]) is Some),
        decreases args@.len() - i,
    {
        match &args[i] {
            Some(v) => {
                let r = resolve_var(st, v);
                if !same_value(&r, &first) {
                    assert(args@[i as int] is Some);
                    return None;
                }
            },
            None => {
                assert(args@[i as int] is None);
                full = false;
            },
        }
        i += 1;
    }
    match first {
        Value::Const(..) if !full => None,
        _ => Some(first),
    }
}

/// Representatives stand for themselves after the pass over the copies.
pub proof fn lemma_copies_settled(ops: Seq<SsaOp>, n: int)
    ensures
        settled(copies_of(ops, n).rep),
    decreases n,
{
    if n > 0 {
        lemma_copies_settled(ops, n - 1);
        let c = copies_of(ops, n - 1);
        let op = ops[n - 1];
        if op.def is Some && op.uses@.len() > 0 {
            let a = root(c.rep, op.def->0);
            let b = root(c.rep, op.uses@[0]);
            lemma_root_free(c.rep, op.def->0);
            lemma_root_free(c.rep, op.uses@[0]);
            if a != b {
                lemma_unite_settled(c.rep, a, b);
            }
        }
    }
}

/// A phi whose defined arguments and result have one representative.
spec fn merged(rep: Map<SsaVar, SsaVar>, op: SsaOp) -> bool {
    match op.kind {
        SsaOpKind::Phi(phi) => forall|j: int|
            0 <= j < phi.args@.len() && (#[trigger] phi.args@[j]) is Some ==> root(rep, phi.args@[j]->0) == root(
                rep,
                phi.out,
            ),
        SsaOpKind::Pcode(_) => false,
    }
}

/// Uniting two classes leaves merged phis merged.
proof fn lemma_merged_kept(rep: Map<SsaVar, SsaVar>, a: SsaVar, b: SsaVar, op: SsaOp)
    requires
        settled(rep),
        !rep.dom().contains(a),
        !rep.dom().contains(b),
        a != b,
        merged(rep, op),
    ensures
        merged(unite(rep, a, b), op),
{
    lemma_unite_settled(rep, a, b);
    if let SsaOpKind::Phi(phi) = op.kind {
        assert forall|j: int| 0 <= j < phi.args@.len() && (#[trigger] phi.args@[j]) is Some implies root(
            unite(rep, a, b),
            phi.args@[j]->0,
        ) == root(unite(rep, a, b), phi.out) by {}
    }
}

/// The phi that is collapsed was not merged before and is merged after.
proof fn lemma_collapse(rep: Map<SsaVar, SsaVar>, value: Map<SsaVar, (u64, u32)>, op: SsaOp, t: SsaVar)
    requires
        settled(rep),
        op.kind is Phi,
        agreed(rep, value, op.kind->Phi_0.args@) == Some(Resolved::Var(t)),
        root(rep, op.kind->Phi_0.out) != root(rep, t),
    ensures
        !merged(rep, op),
        merged(unite(rep, root(rep, op.kind->Phi_0.out), root(rep, t)), op),
        !rep.dom().contains(root(rep, op.kind->Phi_0.out)),
        !rep.dom().contains(root(rep, t)),
{
    if let SsaOpKind::Phi(phi) = op.kind {
        let a = root(rep, phi.out);
        lemma_first_defined(phi.args@, 0);
        let f = first_defined(phi.args@, 0);
        assert(phi.args@[f] is Some && resolved(rep, value, phi.args@[f]->0) == Resolved::Var(t));
        lemma_root_free(rep, phi.args@[f]->0);
        lemma_root_free(rep, phi.out);
        assert(root(rep, t) == t);
        lemma_unite_settled(rep, a, t);
        let u = unite(rep, a, t);
        assert forall|j: int| 0 <= j < phi.args@.len() && (#[trigger] phi.args@[j]) is Some implies root(
            u,
            phi.args@[j]->0,
        ) == root(u, phi.out) by {
            assert(resolved(rep, value, phi.args@[j]->0) == Resolved::Var(t));
        }
    }
}

proof fn lemma_misses_all_false(s: Seq<bool>)
    requires
        forall|i: int| 0 <= i < s.len() ==> !s[i],
    ensures
        misses(s) == s.len(),
    decreases s.len(),
{
    if s.len() > 0 {
        lemma_misses_all_false(s.drop_last());
    }
}

fn run_phis(work: &Vec<&SsaOp>, st: &mut State, Ghost(ops): Ghost<Seq<SsaOp>>) -> (collapsed: usize)
    requires
        refers(work@, ops),
        ops.len() < u32::MAX,
        old(st).rep@ == copies_of(ops, ops.len() as int).rep,
        old(st).value@ == copies_of(ops, ops.len() as int).value,
    ensures
        final(st).rep@ == phis_of(ops).rep,
        final(st).value@ == phis_of(ops).value,
        collapsed == phis_of(ops).collapsed,
{
    let n: usize = work.len();
    let mut collapsed: usize = 0;
    let mut left: usize = n + 1;
    let mut changed = true;
    let ghost start = Phis { rep: st.rep@, value: st.value@, collapsed: 0 };
    let ghost mut done: Seq<bool> = Seq::new(n as nat, |i: int| false);
    proof {
        lemma_copies_settled(ops, ops.len() as int);
        lemma_misses_all_false(done);
    }
    while changed && left > 0
        invariant
            left <= n + 1,
            n == ops.len(),
            n < u32::MAX,
            refers(work@, ops),
            settled(st.rep@),
            done.len() == n,
            collapsed + misses(done) == n,
            forall|k: int| 0 <= k < n && #[trigger] done[k] ==> merged(st.rep@, ops[k]),
            changed ==> phi_passes(
                ops,
                left as nat,
                Phis { rep: st.rep@, value: st.value@, collapsed: collapsed as nat },
            ) == phi_passes(ops, (n + 1) as nat, start),
            !changed ==> (Phis { rep: st.rep@, value: st.value@, collapsed: collapsed as nat })
                == phi_passes(ops, (n + 1) as nat, start),
        decreases left,
    {
        let ghost p = Phis { rep: st.rep@, value: st.value@, collapsed: collapsed as nat };
        let before = collapsed;
        let mut i: usize = 0;
        while i < n
            invariant
                i <= n,
                n == ops.len(),
                refers(work@, ops),
                settled(st.rep@),
                done.len() == n,
                collapsed + misses(done) == n,
                forall|k: int| 0 <= k < n && #[trigger] done[k] ==> merged(st.rep@, ops[k]),
                (Phis { rep: st.rep@, value: st.value@, collapsed: collapsed as nat }) == phi_pass(
                    ops,
                    i as int,
                    p,
                ),
            decreases n - i,
        {
            let op = work[i];
            assert(*op == ops[i as int]);
            if let SsaOpKind::Phi(phi) = &op.kind {
                match agreed_value(st, &phi.args) {
                    Some(Value::Var(t)) => {
                        let rd = st.rep.find(&phi.out);
                        let rt = st.rep.find(&t);
                        if rd != rt {
                            proof {
                                let rep = st.rep@;
                                lemma_collapse(rep, st.value@, ops[i as int], t);
                                lemma_unite_settled(rep, rd, rt);
                                lemma_misses_set(done, i as int);
                                assert forall|k: int|
                                    0 <= k < n && #[trigger] done.update(i as int, true)[k] implies merged(
                                    unite(rep, rd, rt),
                                    ops[k],
                                ) by {
                                    if k != i {
                                        assert(done[k]);
                                        lemma_merged_kept(rep, rd, rt, ops[k]);
                                    }
                                }
                                done = done.update(i as int, true);
                            }
                            st.rep.unite(rd, rt);
                            collapsed += 1;
                        }
                    },
                    Some(Value::Const(v, size)) => {
                        st.value.insert(phi.out, (v, size));
                    },
                    None => {},
                }
            }
            i += 1;
        }
        changed = collapsed != before;
        left -= 1;
    }
    collapsed
}

// ─── Liveness as reachability ───────────────────────────────────────────────

/// The graph of dependences: each operation leads to the definitions it reads,
/// and one more node, the last, leads to the anchored operations.
spec fn depends(ops: Seq<SsaOp>, rep: Map<SsaVar, SsaVar>, g: Seq<Seq<u32>>) -> bool {
    &&& g.len() == ops.len() + 1
    &&& forall|j: int, i: u32|
        #![trigger g[j].contains(i)]
        0 <= j < ops.len() ==> (g[j].contains(i) <==> i < ops.len() && feeds(
            ops,
            rep,
            i as int,
            j,
        ))
    &&& forall|i: u32|
        #![trigger g[ops.len() as int].contains(i)]
        g[ops.len() as int].contains(i) <==> i < ops.len() && anchored(ops, rep, i as int)
}

proof fn lemma_chain_to_path(ops: Seq<SsaOp>, rep: Map<SsaVar, SsaVar>, g: Seq<Seq<u32>>, c: Seq<int>, i: int)
    requires
        ops.len() < u32::MAX,
        depends(ops, rep, g),
        live_chain(ops, rep, c, i),
    ensures
        reaches(g, ops.len() as u32, i as u32, None),
{
    let n = ops.len() as u32;
    let p = seq![n] + Seq::new(c.len(), |k: int| c[k] as u32);
    assert forall|k: int| 0 <= k < p.len() - 1 implies #[trigger] crate::graph::step(g, p, k) by {
        assert(0 <= c[k] < ops.len());
        if k == 0 {
            assert(g[ops.len() as int].contains(c[0] as u32));
        } else {
            assert(0 <= c[k - 1] < ops.len());
            assert(fed(ops, rep, c, k));
            assert(g[c[k - 1]].contains(c[k] as u32));
        }
    }
    assert(p.last() == i as u32);
    assert(crate::graph::leads(g, p, n, i as u32, None));
}

proof fn lemma_path_to_chain(ops: Seq<SsaOp>, rep: Map<SsaVar, SsaVar>, g: Seq<Seq<u32>>, i: u32)
    requires
        ops.len() < u32::MAX,
        depends(ops, rep, g),
        i < ops.len(),
        reaches(g, ops.len() as u32, i, None),
    ensures
        live(ops, rep, i as int),
{
    let n = ops.len() as u32;
    let p = choose|p: Seq<u32>| #[trigger] crate::graph::leads(g, p, n, i, None);
    assert(p.len() >= 2) by {
        if p.len() == 1 {
            assert(p[0] == n);
        }
    }
    // After the first step the path stays among the operations.
    assert forall|k: int| 1 <= k < p.len() implies (#[trigger] p[k]) < n by {
        assert(crate::graph::step(g, p, k - 1));
        assert(p[k - 1] <= n);
        if p[k - 1] == n {
            assert(g[n as int].contains(p[k]));
        } else {
            assert(g[p[k - 1] as int].contains(p[k]));
        }
    }
    let c = Seq::new((p.len() - 1) as nat, |k: int| p[k + 1] as int);
    assert forall|k: int| 0 <= k < c.len() implies 0 <= #[trigger] c[k] < ops.len() by {
        assert(p[k + 1] < n);
    }
    assert(anchored(ops, rep, c[0])) by {
        assert(crate::graph::step(g, p, 0));
        assert(g[n as int].contains(p[1]));
    }
    assert forall|k: int| 0 < k < c.len() implies #[trigger] fed(ops, rep, c, k) by {
        assert(crate::graph::step(g, p, k));
        assert(p[k] < n);
        assert(g[p[k] as int].contains(p[k + 1]));
    }
    assert(live_chain(ops, rep, c, i as int));
}

/// The definitions that the rewritten operation `j` reads.
fn read_defs(work: &Vec<&SsaOp>, rep: &AliasMap, j: usize, Ghost(ops): Ghost<Seq<SsaOp>>) -> (row: Vec<u32>)
    requires
        refers(work@, ops),
        ops.len() < u32::MAX,
        j < work@.len(),
    ensures
        forall|i: u32|
            #[trigger] row@.contains(i) <==> i < ops.len() && feeds(
                ops,
                rep@,
                i as int,
                j as int,
            ),
{
    let op = work[j];
    assert(*op == ops[j as int]);
    let mut row: Vec<u32> = Vec::new();
    let ghost us = roots(rep@, op.uses@);
    let mut k: usize = 0;
    while k < op.uses.len()
        invariant
            k <= op.uses@.len(),
            refers(work@, ops),
            ops.len() < u32::MAX,
            us == roots(rep@, op.uses@),
            forall|i: u32| #[trigger] row@.contains(i) <==> exists|m: int|
                0 <= m < k && defines(ops, #[trigger] us[m]) == Some(i as int),
        decreases op.uses@.len() - k,
    {
        let r = rep.find(&op.uses[k]);
        assert(us[k as int] == r);
        let ghost row0 = row@;
        let d = find_def(work, &r, Ghost(ops));
        if let Some(i) = d {
            row.push(i as u32);
            assert(row@[row@.len() - 1] == i as u32);
        }
        proof {
            assert forall|i: u32| #[trigger] row@.contains(i) <==> exists|m: int|
                0 <= m < k + 1 && defines(ops, #[trigger] us[m]) == Some(i as int) by {
                if row@.contains(i) {
                    let x = choose|x: int| 0 <= x < row@.len() && row@[x] == i;
                    if x < row0.len() {
                        assert(row0[x] == i);
                        assert(row0.contains(i));
                        let m = choose|m: int|
                            0 <= m < k && defines(ops, #[trigger] us[m]) == Some(i as int);
                        assert(0 <= m < k + 1);
                    } else {
                        assert(defines(ops, us[k as int]) == Some(i as int));
                    }
                }
                if exists|m: int| 0 <= m < k + 1 && defines(ops, #[trigger] us[m]) == Some(i as int) {
                    let m = choose|m: int|
                        0 <= m < k + 1 && defines(ops, #[trigger] us[m]) == Some(i as int);
                    if m < k {
                        assert(row0.contains(i));
                        let x = choose|x: int| 0 <= x < row0.len() && row0[x] == i;
                        assert(row@[x] == i);
                    }
                }
            }
        }
        k += 1;
    }
    let ghost from_uses = row@;
    if let SsaOpKind::Phi(phi) = &op.kind {
        let ghost args = arg_roots(rep@, phi.args@);
        let mut a: usize = 0;
        while a < phi.args.len()
            invariant
                a <= phi.args@.len(),
                refers(work@, ops),
                ops.len() < u32::MAX,
                args == arg_roots(rep@, phi.args@),
                forall|i: u32| #[trigger] row@.contains(i) <==> from_uses.contains(i) || exists|m: int|
                    0 <= m < a && (#[trigger] args[m]) is Some && defines(ops, args[m]->0) == Some(
                        i as int,
                    ),
            decreases phi.args@.len() - a,
        {
            let ghost row0 = row@;
            if let Some(v) = &phi.args[a] {
                let r = rep.find(v);
                assert(args[a as int] == Some(r));
                if let Some(i) = find_def(work, &r, Ghost(ops)) {
                    row.push(i as u32);
                    assert(row@[row@.len() - 1] == i as u32);
                }
            } else {
                assert(args[a as int] is None);
            }
            proof {
                assert forall|i: u32| #[trigger] row@.contains(i) <==> from_uses.contains(i)
                    || exists|m: int|
                    0 <= m < a + 1 && (#[trigger] args[m]) is Some && defines(ops, args[m]->0)
                        == Some(i as int) by {
                    if row@.contains(i) {
                        let x = choose|x: int| 0 <= x < row@.len() && row@[x] == i;
                        if x < row0.len() {
                            assert(row0[x] == i);
                            assert(row0.contains(i));
                            if !from_uses.contains(i) {
                                let m = choose|m: int|
                                    0 <= m < a && (#[trigger] args[m]) is Some && defines(
                                        ops,
                                        args[m]->0,
                                    ) == Some(i as int);
                                assert(0 <= m < a + 1);
                            }
                        } else {
                            assert(defines(ops, args[a as int]->0) == Some(i as int));
                        }
                    }
                    if from_uses.contains(i) || exists|m: int|
                        0 <= m < a + 1 && (#[trigger] args[m]) is Some && defines(ops, args[m]->0)
                            == Some(i as int) {
                        if row0.contains(i) {
                            let x = choose|x: int| 0 <= x < row0.len() && row0[x] == i;
                            assert(row@[x] == i);
                        } else {
                            let m = choose|m: int|
                                0 <= m < a + 1 && (#[trigger] args[m]) is Some && defines(
                                    ops,
                                    args[m]->0,
                                ) == Some(i as int);
                            assert(m == a);
                        }
                    }
                }
            }
            a += 1;
        }
    }
    proof {
        assert forall|i: u32| #[trigger] row@.contains(i) <==> i < ops.len() && feeds(
            ops,
            rep@,
            i as int,
            j as int,
        ) by {
            if row@.contains(i) {
                if from_uses.contains(i) {
                    let m = choose|m: int|
                        0 <= m < us.len() && defines(ops, #[trigger] us[m]) == Some(i as int);
                    lemma_def_index(ops, ops.len() as int, us[m]);
                    assert(roots(rep@, ops[j as int].uses@).contains(us[m]));
                    assert(reads(rep@, ops[j as int], us[m]));
                } else {
                    if let SsaOpKind::Phi(phi) = op.kind {
                        let args = arg_roots(rep@, phi.args@);
                        let m = choose|m: int|
                            0 <= m < args.len() && (#[trigger] args[m]) is Some && defines(
                                ops,
                                args[m]->0,
                            ) == Some(i as int);
                        lemma_def_index(ops, ops.len() as int, args[m]->0);
                        assert(args.contains(Some(args[m]->0)));
                        assert(reads(rep@, ops[j as int], args[m]->0));
                    }
                }
            }
            if i < ops.len() && feeds(ops, rep@, i as int, j as int) {
                let v = choose|v: SsaVar|
                    #[trigger] reads(rep@, ops[j as int], v) && defines(ops, v) == Some(i as int);
                if us.contains(v) {
                    let m = choose|m: int| 0 <= m < us.len() && us[m] == v;
                    assert(from_uses.contains(i));
                } else {
                    if let SsaOpKind::Phi(phi) = op.kind {
                        let args = arg_roots(rep@, phi.args@);
                        let m = choose|m: int| 0 <= m < args.len() && args[m] == Some(v);
                        assert(args[m] is Some);
                    }
                }
            }
        }
    }
    row
}

fn any_return_op(work: &Vec<&SsaOp>, Ghost(ops): Ghost<Seq<SsaOp>>) -> (r: bool)
    requires
        refers(work@, ops),
    ensures
        r == any_return(ops),
{
    let mut i: usize = 0;
    while i < work.len()
        invariant
            i <= work@.len(),
            refers(work@, ops),
            forall|j: int| 0 <= j < i ==> !is_return_op(#[trigger] ops[j]),
        decreases work@.len() - i,
    {
        assert(*work@[i as int] == ops[i as int]);
        if op_is_return(work[i]) {
            return true;
        }
        i += 1;
    }
    false
}

fn is_rax(v: &SsaVar) -> (r: bool)
    ensures
        r == in_rax(*v),
{
    match v.location {
        Location::Register { base_offset } => base_offset == 0,
        _ => false,
    }
}

/// Marks the operations that are live on their own account.
fn anchors(work: &Vec<&SsaOp>, rep: &AliasMap, Ghost(ops): Ghost<Seq<SsaOp>>) -> (r: Vec<bool>)
    requires
        refers(work@, ops),
    ensures
        r@.len() == ops.len(),
        forall|i: int| 0 <= i < ops.len() ==> (#[trigger] r@[i] <==> anchored(ops, rep@, i)),
{
    let n: usize = work.len();
    let mut r = crate::graph::all_false(n);
    let has_return = any_return_op(work, Ghost(ops));
    let mut j: usize = 0;
    while j < n
        invariant
            j <= n,
            n == work@.len(),
            refers(work@, ops),
            has_return == any_return(ops),
            r@.len() == n,
            forall|i: int|
                0 <= i < n ==> (#[trigger] r@[i] <==> (i < j && (is_effect_op(ops[i]) || (has_return
                    && ops[i].def is Some && in_rax(ops[i].def->0)))) || (has_return && exists|k: int|
                    0 <= k < j && #[trigger] backs_rax(ops, rep@, k, i))),
        decreases n - j,
    {
        let op = work[j];
        assert(*op == ops[j as int]);
        let ghost r0 = r@;
        let mut back: Option<usize> = None;
        let mut own = op_is_effect(op);
        if has_return {
            if let Some(def) = &op.def {
                if is_rax(def) {
                    own = true;
                    let root_var = rep.find(def);
                    if root_var != *def && !is_rax(&root_var) {
                        back = find_def(work, &root_var, Ghost(ops));
                    }
                }
            }
        }
        if own {
            r.set(j, true);
        }
        if let Some(i) = back {
            r.set(i, true);
        }
        proof {
            assert forall|i: int| 0 <= i < n implies (#[trigger] r@[i] <==> (i < j + 1 && (
            is_effect_op(ops[i]) || (has_return && ops[i].def is Some && in_rax(ops[i].def->0)))) || (
            has_return && exists|k: int| 0 <= k < j + 1 && #[trigger] backs_rax(ops, rep@, k, i))) by {
                assert(r0[i] || !r0[i]);
                if has_return && exists|k: int| 0 <= k < j && #[trigger] backs_rax(ops, rep@, k, i) {
                    let k = choose|k: int| 0 <= k < j && #[trigger] backs_rax(ops, rep@, k, i);
                    assert(0 <= k < j + 1);
                }
                if has_return && exists|k: int| 0 <= k < j + 1 && #[trigger] backs_rax(
                    ops,
                    rep@,
                    k,
                    i,
                ) {
                    let k = choose|k: int| 0 <= k < j + 1 && #[trigger] backs_rax(ops, rep@, k, i);
                    if k == j {
                        assert(index_of(back) == Some(i));
                    } else {
                        assert(r0[i]);
                    }
                }
                if index_of(back) == Some(i) {
                    assert(backs_rax(ops, rep@, j as int, i));
                }
            }
        }
        j += 1;
    }
    r
}

/// Marks the live operations.
fn liveness(work: &Vec<&SsaOp>, rep: &AliasMap, Ghost(ops): Ghost<Seq<SsaOp>>) -> (r: Vec<bool>)
    requires
        refers(work@, ops),
        ops.len() < u32::MAX,
    ensures
        r@.len() == ops.len() + 1,
        forall|i: int| 0 <= i < ops.len() ==> (#[trigger] r@[i] <==> live(ops, rep@, i)),
{
    let n: usize = work.len();
    let marks = anchors(work, rep, Ghost(ops));
    let mut g: Vec<Vec<u32>> = Vec::new();
    let mut j: usize = 0;
    while j < n
        invariant
            j <= n,
            n == ops.len(),
            refers(work@, ops),
            ops.len() < u32::MAX,
            g@.len() == j,
            forall|m: int, i: u32|
                0 <= m < j ==> (#[trigger] g@[m]@.contains(i) <==> i < ops.len() && feeds(
                    ops,
                    rep@,
                    i as int,
                    m,
                )),
        decreases n - j,
    {
        let row = read_defs(work, rep, j, Ghost(ops));
        g.push(row);
        j += 1;
    }
    let mut first: Vec<u32> = Vec::new();
    let mut k: usize = 0;
    while k < n
        invariant
            k <= n,
            n == ops.len(),
            n < u32::MAX,
            marks@.len() == n,
            forall|i: u32| #[trigger] first@.contains(i) <==> i < k && marks@[i as int],
        decreases n - k,
    {
        let ghost f0 = first@;
        if marks[k] {
            first.push(k as u32);
            assert(first@[first@.len() - 1] == k as u32);
        }
        proof {
            assert forall|i: u32| #[trigger] first@.contains(i) <==> i < k + 1 && marks@[i as int] by {
                if first@.contains(i) {
                    let x = choose|x: int| 0 <= x < first@.len() && first@[x] == i;
                    if x < f0.len() {
                        assert(f0[x] == i);
                        assert(f0.contains(i));
                    }
                }
                if f0.contains(i) {
                    let x = choose|x: int| 0 <= x < f0.len() && f0[x] == i;
                    assert(first@[x] == i);
                }
                if i < k && marks@[i as int] {
                    assert(f0.contains(i));
                }
            }
        }
        k += 1;
    }
    g.push(first);
    proof {
        assert forall|m: int, i: u32|
            #![trigger rows(g@)[m].contains(i)]
            0 <= m < ops.len() implies (rows(g@)[m].contains(i) <==> i < ops.len() && feeds(
            ops,
            rep@,
            i as int,
            m,
        )) by {
            assert(g@[m]@.contains(i) <==> i < ops.len() && feeds(ops, rep@, i as int, m));
        }
        assert(depends(ops, rep@, rows(g@)));
    }
    let r = reach_avoiding(&g, n as u32, None);
    proof {
        assert forall|i: int| 0 <= i < ops.len() implies (#[trigger] r@[i] <==> live(
            ops,
            rep@,
            i,
        )) by {
            let u = i as u32;
            assert(r@[u as int] <==> reaches(rows(g@), n as u32, u, None));
            if live(ops, rep@, i) {
                let c = choose|c: Seq<int>| #[trigger] live_chain(ops, rep@, c, i);
                lemma_chain_to_path(ops, rep@, rows(g@), c, i);
            }
            if r@[i] {
                lemma_path_to_chain(ops, rep@, rows(g@), u);
            }
        }
    }
    r
}

fn reads_var(rep: &AliasMap, op: &SsaOp, v: &SsaVar) -> (r: bool)
    ensures
        r == reads(rep@, *op, *v),
{
    let ghost us = roots(rep@, op.uses@);
    let mut k: usize = 0;
    while k < op.uses.len()
        invariant
            k <= op.uses@.len(),
            us == roots(rep@, op.uses@),
            forall|j: int| 0 <= j < k ==> #[trigger] us[j] != *v,
        decreases op.uses@.len() - k,
    {
        let r = rep.find(&op.uses[k]);
        assert(us[k as int] == r);
        if r == *v {
            return true;
        }
        k += 1;
    }
    assert(!us.contains(*v));
    if let SsaOpKind::Phi(phi) = &op.kind {
        let ghost args = arg_roots(rep@, phi.args@);
        let mut a: usize = 0;
        while a < phi.args.len()
            invariant
                a <= phi.args@.len(),
                args == arg_roots(rep@, phi.args@),
                op.kind == SsaOpKind::Phi(*phi),
                forall|j: int| 0 <= j < a ==> #[trigger] args[j] != Some(*v),
            decreases phi.args@.len() - a,
        {
            if let Some(x) = &phi.args[a] {
                let r = rep.find(x);
                assert(args[a as int] == Some(r));
                if r == *v {
                    assert(args.contains(Some(*v)));
                    return true;
                }
            } else {
                assert(args[a as int] is None);
            }
            a += 1;
        }
        assert(!args.contains(Some(*v)));
    }
    false
}

/// The operation with its uses and arguments replaced by their representatives.
fn repoint(rep: &AliasMap, op: &SsaOp) -> (r: SsaOp)
    ensures
        r@ == repointed(rep@, *op),
{
    let mut uses: Vec<SsaVar> = Vec::new();
    let mut k: usize = 0;
    while k < op.uses.len()
        invariant
            k <= op.uses@.len(),
            uses@.len() == k,
            forall|j: int| 0 <= j < k ==> uses@[j] == root(rep@, op.uses@[j]),
        decreases op.uses@.len() - k,
    {
        uses.push(rep.find(&op.uses[k]));
        k += 1;
    }
    assert(uses@ =~= roots(rep@, op.uses@));
    let kind = match &op.kind {
        SsaOpKind::Phi(phi) => {
            let mut args: Vec<Option<SsaVar>> = Vec::new();
            let ghost want = arg_roots(rep@, phi.args@);
            let mut a: usize = 0;
            while a < phi.args.len()
                invariant
                    a <= phi.args@.len(),
                    args@.len() == a,
                    want == arg_roots(rep@, phi.args@),
                    forall|j: int| 0 <= j < a ==> args@[j] == want[j],
                decreases phi.args@.len() - a,
            {
                let arg = match &phi.args[a] {
                    Some(v) => Some(rep.find(v)),
                    None => None,
                };
                assert(arg == want[a as int]);
                args.push(arg);
                a += 1;
            }
            assert(args@ =~= want);
            SsaOpKind::Phi(PhiNode { out: phi.out, args })
        },
        SsaOpKind::Pcode(p) => SsaOpKind::Pcode(p.clone()),
    };
    SsaOp { va: op.va, kind, def: op.def, uses }
}

/// How many of the operations from `a` up to `b` are kept.
proof fn lemma_kept_count(ops: Seq<SsaOp>, rep: Map<SsaVar, SsaVar>, a: int, b: int)
    requires
        a <= b,
    ensures
        kept_ops(ops, rep, a, b).len() <= b - a,
    decreases b - a,
{
    if a < b {
        lemma_kept_count(ops, rep, a, b - 1);
    }
}

/// How many operations the first `n` blocks keep.
pub open spec fn kept_total(ssa: SsaFunction, n: int) -> nat
    decreases n,
{
    if n <= 0 {
        0
    } else {
        kept_total(ssa, n - 1) + pruned(ssa).blocks[n - 1].ops.len()
    }
}

/// Blocks lie one behind the other in the row of all operations.
pub proof fn lemma_flat_inside(ssa: SsaFunction, b: int, n: int)
    requires
        0 <= b <= n,
    ensures
        flat(ssa, b).len() <= flat(ssa, n).len(),
        forall|i: int| 0 <= i < flat(ssa, b).len() ==> flat(ssa, n)[i] == flat(ssa, b)[i],
    decreases n,
{
    if b < n {
        lemma_flat_inside(ssa, b, n - 1);
    }
}

/// `a - b`, or zero where `b` is larger.
pub open spec fn less(a: int, b: int) -> int {
    if a >= b {
        a - b
    } else {
        0
    }
}

/// Simplify `ssa`, returning the pruned function and a report. The input is left
/// as it is.
pub fn simplify(ssa: &SsaFunction) -> (r: (SsaFunction, SsaAnalysis))
    requires
        all_ops(*ssa).len() < u32::MAX,
        ssa.blocks@.len() <= u32::MAX,
    ensures
        r.0@ == pruned(*ssa),
        ({
            let ops = all_ops(*ssa);
            let c = copies_of(ops, ops.len() as int);
            let before = ops.len() as int;
            let after = kept_total(*ssa, ssa.blocks@.len() as int) as int;
            &&& r.1.op_count_before == before
            &&& r.1.op_count_after == after
            &&& after <= before
            &&& r.1.constants@ == c.constants
            &&& r.1.constants_propagated == c.constants.len()
            &&& r.1.copies@ == c.copies
            &&& r.1.copies_propagated == c.copies.len()
            &&& r.1.phis_collapsed == phis_of(ops).collapsed
            &&& r.1.dead_ops_removed == less(
                less(before - after, c.copies.len() as int),
                phis_of(ops).collapsed as int,
            )
        }),
{
    let ghost ops = all_ops(*ssa);
    let (work, starts) = collect_ops(ssa);
    let (mut st, constants, copies) = run_copies(&work, Ghost(ops));
    let collapsed = run_phis(&work, &mut st, Ghost(ops));
    let rep = st.rep;
    let ghost p = phis_of(ops);
    let alive = liveness(&work, &rep, Ghost(ops));
    let n: usize = ssa.blocks.len();
    let mut blocks: Vec<SsaBlock> = Vec::new();
    let mut total: usize = 0;
    let mut b: usize = 0;
    while b < n
        invariant
            b <= n,
            n == ssa.blocks@.len(),
            n <= u32::MAX,
            ops == all_ops(*ssa),
            p == phis_of(ops),
            rep@ == p.rep,
            refers(work@, ops),
            starts@.len() == n + 1,
            forall|k: int| 0 <= k <= n ==> (#[trigger] starts@[k]) == flat(*ssa, k).len(),
            alive@.len() == ops.len() + 1,
            forall|i: int| 0 <= i < ops.len() ==> (#[trigger] alive@[i] <==> live(ops, p.rep, i)),
            blocks@.len() == b,
            forall|k: int| 0 <= k < b ==> (#[trigger] blocks@[k])@ == pruned(*ssa).blocks[k],
            total == kept_total(*ssa, b as int),
            total <= flat(*ssa, b as int).len(),
        decreases n - b,
    {
        let block = &ssa.blocks[b];
        let from: usize = starts[b];
        let to: usize = starts[b + 1];
        proof {
            lemma_flat_inside(*ssa, b as int, b + 1);
            lemma_flat_inside(*ssa, b + 1, n as int);
        }
        let mut kept_here: Vec<SsaOp> = Vec::new();
        let mut i: usize = from;
        assert(ops_view(kept_here@) =~= Seq::empty());
        while i < to
            invariant
                from <= i <= to,
                to <= ops.len(),
                rep@ == p.rep,
                refers(work@, ops),
                alive@.len() == ops.len() + 1,
                forall|j: int| 0 <= j < ops.len() ==> (#[trigger] alive@[j] <==> live(ops, p.rep, j)),
                ops_view(kept_here@) == kept_ops(ops, p.rep, from as int, i as int),
            decreases to - i,
        {
            let op = work[i];
            assert(*op == ops[i as int]);
            let mut keep = alive[i];
            if keep && !op_is_effect(op) && !op_is_copy(op) {
                if let Some(def) = &op.def {
                    let d = rep.find(def);
                    if reads_var(&rep, op, &d) {
                        keep = false;
                    }
                }
            }
            assert(keep == kept(ops, p.rep, i as int));
            if keep {
                let ghost k0 = kept_here@;
                let new = repoint(&rep, op);
                kept_here.push(new);
                assert(ops_view(kept_here@) =~= ops_view(k0).push(new@));
            }
            i += 1;
        }
        proof {
            lemma_kept_count(ops, p.rep, from as int, to as int);
            assert(ops_view(kept_here@).len() == kept_here@.len());
        }
        total += kept_here.len();
        let new = SsaBlock {
            id: b as u32,
            entry_va: block.entry_va,
            ops: kept_here,
            predecessor_ids: copy_ids(&block.predecessor_ids),
            successor_ids: copy_ids(&block.successor_ids),
        };
        assert(new@ == pruned_block(*ssa, p.rep, b as int));
        blocks.push(new);
        b += 1;
    }
    let before: usize = work.len();
    let removed: usize = before - total;
    let after_copies: usize = if removed >= copies.len() {
        removed - copies.len()
    } else {
        0
    };
    let dead: usize = if after_copies >= collapsed {
        after_copies - collapsed
    } else {
        0
    };
    let analysis = SsaAnalysis {
        op_count_before: before,
        op_count_after: total,
        copies_propagated: copies.len(),
        constants_propagated: constants.len(),
        phis_collapsed: collapsed,
        dead_ops_removed: dead,
        constants,
        copies,
    };
    let out = SsaFunction {
        entry_va: ssa.entry_va,
        bitness: ssa.bitness,
        blocks,
        image_base: ssa.image_base,
    };
    assert(out@ =~= pruned(*ssa));
    (out, analysis)
}

// ─── Laws ───────────────────────────────────────────────────────────────────

/// An operation with an effect beyond its value is never dropped.
pub proof fn law_effects_kept(ops: Seq<SsaOp>, rep: Map<SsaVar, SsaVar>, i: int)
    requires
        0 <= i < ops.len(),
        is_effect_op(ops[i]),
    ensures
        kept(ops, rep, i),
{
    assert(live_chain(ops, rep, seq![i], i));
}

/// Simplification never changes a carried P-code operation, its address or its
/// definition: it only drops operations and re-points what they read.
pub proof fn law_pcode_unchanged(rep: Map<SsaVar, SsaVar>, op: SsaOp)
    ensures
        repointed(rep, op).va == op.va,
        repointed(rep, op).def == op.def,
        op.kind is Pcode ==> repointed(rep, op).kind == op@.kind,
        op.kind matches SsaOpKind::Phi(phi) ==> (repointed(rep, op).kind matches KindView::Phi(q)
            && q.out == phi.out),
{
}

/// What a kept operation reads is kept, unless its definition is circular.
pub proof fn law_reads_kept(ops: Seq<SsaOp>, rep: Map<SsaVar, SsaVar>, i: int, j: int)
    requires
        0 <= i < ops.len(),
        0 <= j < ops.len(),
        kept(ops, rep, j),
        feeds(ops, rep, i, j),
        !circular(rep, ops[i]),
    ensures
        kept(ops, rep, i),
{
    let c = choose|c: Seq<int>| #[trigger] live_chain(ops, rep, c, j);
    let d = c.push(i);
    assert forall|k: int| 0 < k < d.len() implies #[trigger] fed(ops, rep, d, k) by {
        if k < c.len() {
            assert(fed(ops, rep, c, k));
        }
    }
    assert forall|k: int| 0 <= k < d.len() implies 0 <= #[trigger] d[k] < ops.len() by {
        if k < c.len() {
            assert(0 <= c[k] < ops.len());
        }
    }
    assert(live_chain(ops, rep, d, i));
}

/// `v` is no register in version 0.
pub open spec fn defined(v: SsaVar) -> bool {
    v.location is Register ==> v.version > 0
}

/// A P-code operation reads, and a phi merges, no register in version 0.
spec fn op_defined(op: SsaOp) -> bool {
    match op.kind {
        SsaOpKind::Pcode(_) => forall|k: int| 0 <= k < op.uses@.len() ==> defined(#[trigger] op.uses@[k]),
        SsaOpKind::Phi(phi) => forall|k: int|
            0 <= k < phi.args@.len() ==> (match #[trigger] phi.args@[k] {
                Some(v) => defined(v),
                None => true,
            }),
    }
}

/// Representatives of defined variables are defined.
spec fn keeps_defined(rep: Map<SsaVar, SsaVar>) -> bool {
    forall|v: SsaVar| defined(v) ==> defined(#[trigger] root(rep, v))
}

proof fn lemma_unite_defined(rep: Map<SsaVar, SsaVar>, a: SsaVar, b: SsaVar)
    requires
        keeps_defined(rep),
        defined(b),
    ensures
        keeps_defined(unite(rep, a, b)),
{
    assert forall|v: SsaVar| defined(v) implies defined(#[trigger] root(unite(rep, a, b), v)) by {
        assert(defined(root(rep, v)));
    }
}

proof fn lemma_copies_defined(ops: Seq<SsaOp>, n: int)
    requires
        0 <= n <= ops.len(),
        forall|i: int| 0 <= i < ops.len() ==> op_defined(#[trigger] ops[i]),
    ensures
        keeps_defined(copies_of(ops, n).rep),
    decreases n,
{
    if n > 0 {
        lemma_copies_defined(ops, n - 1);
        let c = copies_of(ops, n - 1);
        let op = ops[n - 1];
        assert(op_defined(op));
        if op.kind is Pcode && op.uses@.len() > 0 && op.def is Some {
            assert(defined(op.uses@[0]));
            assert(defined(root(c.rep, op.uses@[0])));
            lemma_unite_defined(c.rep, root(c.rep, op.def->0), root(c.rep, op.uses@[0]));
        }
    }
}

proof fn lemma_pass_defined(ops: Seq<SsaOp>, n: int, p: Phis)
    requires
        0 <= n <= ops.len(),
        forall|i: int| 0 <= i < ops.len() ==> op_defined(#[trigger] ops[i]),
        keeps_defined(p.rep),
    ensures
        keeps_defined(phi_pass(ops, n, p).rep),
    decreases n,
{
    if n > 0 {
        lemma_pass_defined(ops, n - 1, p);
        let q = phi_pass(ops, n - 1, p);
        let op = ops[n - 1];
        assert(op_defined(op));
        if let SsaOpKind::Phi(phi) = op.kind {
            if let Some(Resolved::Var(t)) = agreed(q.rep, q.value, phi.args@) {
                lemma_first_defined(phi.args@, 0);
                let f = first_defined(phi.args@, 0);
                assert(phi.args@[f] is Some);
                assert(defined(phi.args@[f]->0));
                assert(t == root(q.rep, phi.args@[f]->0));
                assert(defined(t));
                assert(defined(root(q.rep, t)));
                lemma_unite_defined(q.rep, root(q.rep, phi.out), root(q.rep, t));
            }
        }
    }
}

proof fn lemma_passes_defined(ops: Seq<SsaOp>, k: nat, p: Phis)
    requires
        forall|i: int| 0 <= i < ops.len() ==> op_defined(#[trigger] ops[i]),
        keeps_defined(p.rep),
    ensures
        keeps_defined(phi_passes(ops, k, p).rep),
    decreases k,
{
    if k > 0 {
        lemma_pass_defined(ops, ops.len() as int, p);
        let q = phi_pass(ops, ops.len() as int, p);
        if q.collapsed != p.collapsed {
            lemma_passes_defined(ops, (k - 1) as nat, q);
        }
    }
}

proof fn lemma_flat_defined(ssa: SsaFunction, n: int)
    requires
        0 <= n <= ssa.blocks@.len(),
        registers_defined(ssa@),
        merges_defined(ssa@),
    ensures
        forall|i: int| 0 <= i < flat(ssa, n).len() ==> op_defined(#[trigger] flat(ssa, n)[i]),
    decreases n,
{
    if n > 0 {
        lemma_flat_defined(ssa, n - 1);
        let a = flat(ssa, n - 1);
        let c = flat(ssa, n);
        let b = n - 1;
        assert(ssa@.blocks[b] == ssa.blocks@[b]@);
        assert forall|i: int| 0 <= i < c.len() implies op_defined(#[trigger] c[i]) by {
            if i < a.len() {
                assert(c[i] == a[i]);
            } else {
                let j = i - a.len();
                let op = ssa.blocks@[b].ops@[j];
                assert(c[i] == op);
                assert(ssa@.blocks[b].ops[j] == op@);
                match op.kind {
                    SsaOpKind::Pcode(_) => {
                        assert forall|k: int| 0 <= k < op.uses@.len() implies defined(
                            #[trigger] op.uses@[k],
                        ) by {
                            assert(ssa@.blocks[b].ops[j].uses[k] == op.uses@[k]);
                        }
                    },
                    SsaOpKind::Phi(phi) => {
                        assert forall|k: int| 0 <= k < phi.args@.len() implies (match #[trigger] phi.args@[k] {
                            Some(v) => defined(v),
                            None => true,
                        }) by {
                            assert(merges_real(ssa@.blocks[b].ops[j], k));
                        }
                    },
                }
            }
        }
    }
}

proof fn lemma_kept_defined(ops: Seq<SsaOp>, rep: Map<SsaVar, SsaVar>, a: int, b: int)
    requires
        0 <= a,
        b <= ops.len(),
        forall|i: int| 0 <= i < ops.len() ==> op_defined(#[trigger] ops[i]),
        keeps_defined(rep),
    ensures
        forall|i: int, k: int|
            0 <= i < kept_ops(ops, rep, a, b).len() && 0 <= k < kept_ops(ops, rep, a, b)[i].uses.len()
                && kept_ops(ops, rep, a, b)[i].kind is Pcode ==> defined(
                #[trigger] kept_ops(ops, rep, a, b)[i].uses[k],
            ),
        forall|i: int, k: int|
            0 <= i < kept_ops(ops, rep, a, b).len() ==> #[trigger] merges_real(kept_ops(ops, rep, a, b)[i], k),
    decreases b - a,
{
    if a < b {
        lemma_kept_defined(ops, rep, a, b - 1);
        let s = kept_ops(ops, rep, a, b - 1);
        let r = kept_ops(ops, rep, a, b);
        let op = ops[b - 1];
        assert(op_defined(op));
        assert forall|i: int, k: int|
            0 <= i < r.len() && 0 <= k < r[i].uses.len() && r[i].kind is Pcode implies defined(
            #[trigger] r[i].uses[k],
        ) by {
            if i < s.len() {
                assert(r[i] == s[i]);
                assert(defined(s[i].uses[k]));
            } else {
                assert(r[i] == repointed(rep, op));
                assert(defined(op.uses@[k]));
                assert(r[i].uses[k] == root(rep, op.uses@[k]));
            }
        }
        assert forall|i: int, k: int| 0 <= i < r.len() implies #[trigger] merges_real(r[i], k) by {
            if i < s.len() {
                assert(r[i] == s[i]);
                assert(merges_real(s[i], k));
            } else {
                assert(r[i] == repointed(rep, op));
                if let SsaOpKind::Phi(phi) = op.kind {
                    if 0 <= k < phi.args@.len() && phi.args@[k] is Some {
                        assert(defined(root(rep, phi.args@[k]->0)));
                    }
                }
            }
        }
    }
}

/// Simplification keeps the guarantee of construction: where no operation reads and no
/// phi merges a register in version 0, none does afterwards.
pub proof fn law_stays_defined(ssa: SsaFunction)
    requires
        registers_defined(ssa@),
        merges_defined(ssa@),
    ensures
        registers_defined(pruned(ssa)),
        merges_defined(pruned(ssa)),
{
    let ops = all_ops(ssa);
    let n = ssa.blocks@.len() as int;
    let p = phis_of(ops);
    let f = pruned(ssa);
    lemma_flat_defined(ssa, n);
    lemma_copies_defined(ops, ops.len() as int);
    let c = copies_of(ops, ops.len() as int);
    lemma_passes_defined(ops, ops.len() + 1, Phis { rep: c.rep, value: c.value, collapsed: 0 });
    assert forall|b: int, i: int, k: int|
        0 <= b < f.blocks.len() && 0 <= i < f.blocks[b].ops.len() && 0 <= k < f.blocks[b].ops[i].uses.len()
            && f.blocks[b].ops[i].kind is Pcode && (#[trigger] f.blocks[b].ops[i].uses[k]).location is Register implies f.blocks[b].ops[i].uses[k].version
        > 0 by {
        lemma_flat_inside(ssa, b, n);
        lemma_flat_inside(ssa, b + 1, n);
        lemma_kept_defined(ops, p.rep, flat(ssa, b).len() as int, flat(ssa, b + 1).len() as int);
        assert(f.blocks[b] == pruned_block(ssa, p.rep, b));
        assert(defined(f.blocks[b].ops[i].uses[k]));
    }
    assert forall|b: int, i: int, k: int|
        0 <= b < f.blocks.len() && 0 <= i < f.blocks[b].ops.len() implies #[trigger] merges_real(
        f.blocks[b].ops[i],
        k,
    ) by {
        lemma_flat_inside(ssa, b, n);
        lemma_flat_inside(ssa, b + 1, n);
        lemma_kept_defined(ops, p.rep, flat(ssa, b).len() as int, flat(ssa, b + 1).len() as int);
        assert(f.blocks[b] == pruned_block(ssa, p.rep, b));
    }
}

/// Where the `i`-th kept operation stood.
spec fn origin(ops: Seq<SsaOp>, rep: Map<SsaVar, SsaVar>, a: int, b: int, i: int) -> int
    decreases b - a,
{
    if b <= a {
        a
    } else if kept(ops, rep, b - 1) && i == kept_ops(ops, rep, a, b - 1).len() {
        b - 1
    } else {
        origin(ops, rep, a, b - 1, i)
    }
}

proof fn lemma_origin(ops: Seq<SsaOp>, rep: Map<SsaVar, SsaVar>, a: int, b: int)
    requires
        0 <= a,
        b <= ops.len(),
    ensures
        forall|i: int|
            0 <= i < kept_ops(ops, rep, a, b).len() ==> a <= #[trigger] origin(ops, rep, a, b, i) < b
                && kept_ops(ops, rep, a, b)[i].def == ops[origin(ops, rep, a, b, i)].def,
        forall|i: int, j: int|
            0 <= i < j < kept_ops(ops, rep, a, b).len() ==> #[trigger] origin(ops, rep, a, b, i)
                < #[trigger] origin(ops, rep, a, b, j),
    decreases b - a,
{
    if a < b {
        lemma_origin(ops, rep, a, b - 1);
        let s = kept_ops(ops, rep, a, b - 1);
        let r = kept_ops(ops, rep, a, b);
        assert forall|i: int| 0 <= i < r.len() implies a <= #[trigger] origin(ops, rep, a, b, i) < b && r[i].def
            == ops[origin(ops, rep, a, b, i)].def by {
            if i < s.len() {
                assert(origin(ops, rep, a, b, i) == origin(ops, rep, a, b - 1, i));
                assert(r[i] == s[i]);
            }
        }
        assert forall|i: int, j: int| 0 <= i < j < r.len() implies #[trigger] origin(ops, rep, a, b, i)
            < #[trigger] origin(ops, rep, a, b, j) by {
            assert(origin(ops, rep, a, b, i) == origin(ops, rep, a, b - 1, i));
            if j < s.len() {
                assert(origin(ops, rep, a, b, j) == origin(ops, rep, a, b - 1, j));
            }
        }
    }
}

/// Simplification keeps single assignment.
pub proof fn law_stays_single(ssa: SsaFunction)
    requires
        single_assignment(ssa@),
    ensures
        single_assignment(pruned(ssa)),
{
    let ops = all_ops(ssa);
    let n = ssa.blocks@.len() as int;
    let rep = phis_of(ops).rep;
    let f = pruned(ssa);
    assert forall|b: int, i: int, c: int, j: int|
        #![trigger f.blocks[b].ops[i], f.blocks[c].ops[j]]
        0 <= b < f.blocks.len() && 0 <= i < f.blocks[b].ops.len() && 0 <= c < f.blocks.len() && 0 <= j
            < f.blocks[c].ops.len() && (b != c || i != j) && f.blocks[b].ops[i].def is Some
            && f.blocks[c].ops[j].def is Some implies apart(
        f.blocks[b].ops[i].def->0,
        f.blocks[c].ops[j].def->0,
    ) by {
        let b0 = flat(ssa, b).len() as int;
        let b1 = flat(ssa, b + 1).len() as int;
        let c0 = flat(ssa, c).len() as int;
        let c1 = flat(ssa, c + 1).len() as int;
        lemma_flat_inside(ssa, b + 1, n);
        lemma_flat_inside(ssa, c + 1, n);
        lemma_origin(ops, rep, b0, b1);
        lemma_origin(ops, rep, c0, c1);
        assert(f.blocks[b] == pruned_block(ssa, rep, b));
        assert(f.blocks[c] == pruned_block(ssa, rep, c));
        let x = origin(ops, rep, b0, b1, i) - b0;
        let y = origin(ops, rep, c0, c1, j) - c0;
        if b == c {
            assert(x != y) by {
                if i < j {
                    assert(origin(ops, rep, b0, b1, i) < origin(ops, rep, b0, b1, j));
                } else {
                    assert(origin(ops, rep, b0, b1, j) < origin(ops, rep, b0, b1, i));
                }
            }
        }
        assert(ops[b0 + x] == flat(ssa, b + 1)[b0 + x]);
        assert(ops[c0 + y] == flat(ssa, c + 1)[c0 + y]);
        assert(ssa@.blocks[b] == ssa.blocks@[b]@);
        assert(ssa@.blocks[c] == ssa.blocks@[c]@);
        assert(ssa@.blocks[b].ops[x] == ssa.blocks@[b].ops@[x]@);
        assert(ssa@.blocks[c].ops[y] == ssa.blocks@[c].ops@[y]@);
    }
}

} // verus!
