//! Statements: the lines of one block, its conditions and its calls.

use vstd::prelude::*;
use pcode_ir::PcodeOp;
use crate::hir::abi::ArgumentView;
use crate::hir::lowering::{argument_register, law_lifting_adds_only_calls, lifted, lower_from_ssa, lowerable, lowering_of, op_count, ops_weight, read_by, weight, LoweringView, SsaLowering, SsaOperationKey};
use crate::hir::ValueId;
use crate::lines::{join, join_items};
use crate::maps::{lookup, TextMap};
use crate::normalize::{frame_adjust, is_cheap_contractible, is_cheap_op, is_frame_pointer_adjust, is_load_op, is_noise_stack_reload, is_param_home_store, is_stable_contractible_pure, is_store_op, is_terminator_op, noise_reload, op_is_load, op_is_phi, op_is_store, op_is_terminator, param_home_store, stable_pure};
use crate::numbers::{dec, dec_text};
use crate::ssa::reach::used_from;
use crate::ssa::{Location, SsaBlock, SsaFunction, SsaOp, SsaOpKind, SsaVar};
use crate::structure::expr::{find_register, op_text, operand_text, pointer_text, render_call_target, render_op_expr, render_stack_ptr, render_value, render_varnode, target_text, value_text};
use crate::structure::folding::{count_uses, use_count};
use crate::structure::names::{name_of, name_text, slot_text, stack_slot_name, NameCtx, Names};
use crate::structure::predicate::{bare_name, expr_is_bare_name, simplified, simplify_text};
use crate::structure::region::{arms, cbranch_fall_taken};
use crate::text::{chars_of, copy_text, deep, new_items, opt_text, push_item, push_lit, push_text};
use crate::types::{TyGuess, TypeRecoveryReport};

verus! {

broadcast use crate::text::lemma_deep_push;

/// `n` steps of indentation.
pub open spec fn pad(n: int) -> Seq<char>
    decreases n,
{
    if n <= 0 {
        Seq::empty()
    } else {
        pad(n - 1) + "    "@
    }
}

pub fn ind(n: usize) -> (r: Vec<char>)
    ensures
        r@ == pad(n as int),
{
    let mut r: Vec<char> = Vec::new();
    let mut i: usize = 0;
    assert(r@ =~= Seq::empty());
    while i < n
        invariant
            i <= n,
            r@ == pad(i as int),
        decreases n - i,
    {
        push_lit(&mut r, "    ");
        i += 1;
    }
    r
}

// ─── Types ──────────────────────────────────────────────────────────────────

/// A recovered type as it is written, if anything is known.
pub open spec fn guess_text(ty: TyGuess) -> Option<Seq<char>>
    decreases ty,
{
    match ty {
        TyGuess::Unknown => None,
        TyGuess::Int(b) => Some("int"@ + dec(b as nat)),
        TyGuess::Uint(b) => Some("uint"@ + dec(b as nat)),
        TyGuess::Bool => Some("bool"@),
        TyGuess::Float => Some("float"@),
        TyGuess::Double => Some("double"@),
        TyGuess::Ptr(inner) => Some(
            match guess_text(*inner) {
                Some(t) => t + "*"@,
                None => "void"@ + "*"@,
            },
        ),
    }
}

fn ty_guess_str(ty: &TyGuess) -> (r: Option<Vec<char>>)
    ensures
        opt_text(r) == guess_text(*ty),
    decreases ty,
{
    match ty {
        TyGuess::Unknown => None,
        TyGuess::Int(b) => {
            let mut t = chars_of("int");
            push_text(&mut t, &dec_text(*b as u64));
            Some(t)
        },
        TyGuess::Uint(b) => {
            let mut t = chars_of("uint");
            push_text(&mut t, &dec_text(*b as u64));
            Some(t)
        },
        TyGuess::Bool => Some(chars_of("bool")),
        TyGuess::Float => Some(chars_of("float")),
        TyGuess::Double => Some(chars_of("double")),
        TyGuess::Ptr(inner) => {
            let mut t = match ty_guess_str(inner) {
                Some(t) => t,
                None => chars_of("void"),
            };
            push_lit(&mut t, "*");
            Some(t)
        },
    }
}

/// The recovered types of values.
pub open spec fn guesses(types: Option<&TypeRecoveryReport>) -> Map<SsaVar, TyGuess> {
    match types {
        Some(r) => r.def_types@,
        None => Map::empty(),
    }
}

/// The left side of an assignment: the name, behind its type where that is known.
pub open spec fn typed_name(def: SsaVar, types: Map<SsaVar, TyGuess>, names: Names, va: u64) -> Seq<char> {
    let name = name_text(def, names, va);
    match lookup(types, def) {
        Some(ty) => match guess_text(ty) {
            Some(t) => t + " "@ + name,
            None => name,
        },
        None => name,
    }
}

fn typed_lhs(def: &SsaVar, types: Option<&TypeRecoveryReport>, names: &NameCtx<'_>, va: u64) -> (r: Vec<char>)
    ensures
        r@ == typed_name(*def, guesses(types), names@, va),
{
    let name = name_of(def, names, va);
    if let Some(report) = types {
        if let Some(ty) = report.def_types.get(def) {
            if let Some(t) = ty_guess_str(ty) {
                let mut t = t;
                push_lit(&mut t, " ");
                push_text(&mut t, &name);
                return t;
            }
        }
    }
    name
}

// ─── Arguments of calls ─────────────────────────────────────────────────────

/// The operation uses the register of an argument position.
pub open spec fn uses_position(op: SsaOp, position: int) -> bool {
    used_from(op.uses@, argument_register(position), 0) is Some
}

/// How many arguments a direct call takes, if its registers leave no gap.
pub open spec fn required_count(ssa: SsaFunction, key: SsaOperationKey) -> Option<int> {
    if key.block_id >= ssa.blocks@.len() || key.operation_index
        >= ssa.blocks@[key.block_id as int].ops@.len() {
        None
    } else {
        let op = ssa.blocks@[key.block_id as int].ops@[key.operation_index as int];
        let direct = match op.kind {
            SsaOpKind::Pcode(p) => p is Call,
            SsaOpKind::Phi(_) => false,
        };
        let a = uses_position(op, 0);
        let b = uses_position(op, 1);
        let c = uses_position(op, 2);
        let d = uses_position(op, 3);
        if !direct || (!a && (b || c || d)) || (!b && (c || d)) || (!c && d) {
            None
        } else if d {
            Some(4)
        } else if c {
            Some(3)
        } else if b {
            Some(2)
        } else if a {
            Some(1)
        } else {
            Some(0)
        }
    }
}

/// The variable that has this value.
pub open spec fn variable_of(values: Map<SsaVar, ValueId>, id: ValueId) -> Option<SsaVar> {
    if exists|v: SsaVar| #[trigger] values.dom().contains(v) && values[v] == id {
        Some(choose|v: SsaVar| #[trigger] values.dom().contains(v) && values[v] == id)
    } else {
        None
    }
}

/// The variable of the last of the first `n` arguments at this position.
pub open spec fn argument_at(arguments: Seq<ArgumentView>, values: Map<SsaVar, ValueId>, position: int, n: int) -> Option<SsaVar>
    decreases n,
{
    if n <= 0 {
        None
    } else if arguments[n - 1].position == position && variable_of(values, arguments[n - 1].value) is Some {
        variable_of(values, arguments[n - 1].value)
    } else {
        argument_at(arguments, values, position, n - 1)
    }
}

/// The first `n` arguments, if all of them are known.
pub open spec fn known_arguments(arguments: Seq<ArgumentView>, values: Map<SsaVar, ValueId>, n: int) -> Option<Seq<SsaVar>>
    decreases n,
{
    if n <= 0 {
        Some(Seq::empty())
    } else {
        match (
            known_arguments(arguments, values, n - 1),
            argument_at(arguments, values, n - 1, arguments.len() as int),
        ) {
            (Some(done), Some(v)) => Some(done.push(v)),
            _ => None,
        }
    }
}

/// The arguments of the call at this position: all that the call takes, or none.
pub open spec fn call_arguments(ssa: SsaFunction, low: Option<LoweringView>, key: SsaOperationKey) -> Option<Seq<SsaVar>> {
    match low {
        None => None,
        Some(l) => match required_count(ssa, key) {
            Some(n) => if n > 0 && l.calls.dom().contains(key) && l.calls[key].0 < l.hir.calls.len() {
                known_arguments(l.hir.calls[l.calls[key].0 as int].arguments, l.values, n)
            } else {
                None
            },
            None => None,
        },
    }
}

/// The lowering with its calls, where the calling convention is known.
pub open spec fn call_facts(ssa: SsaFunction, bitness: u32) -> Option<LoweringView> {
    if bitness == 64 {
        Some(lifted(ssa, lowering_of(ssa@)).low)
    } else {
        None
    }
}

/// What is known of the calls of a function.
pub struct RecoveredCallArguments {
    pub lowering: Option<SsaLowering>,
}

/// The facts as a value.
pub open spec fn lowering_view(l: Option<SsaLowering>) -> Option<LoweringView> {
    match l {
        Some(x) => Some(x@),
        None => None,
    }
}

pub proof fn lemma_ops_weight(ops: Seq<crate::ssa::OpView>, n: int)
    requires
        0 <= n,
    ensures
        n <= ops_weight(ops, n),
    decreases n,
{
    if n > 0 {
        lemma_ops_weight(ops, n - 1);
    }
}

proof fn lemma_count_below_weight(ssa: SsaFunction, n: int)
    requires
        0 <= n <= ssa.blocks@.len(),
    ensures
        op_count(ssa, n) <= weight(ssa@, n),
    decreases n,
{
    if n > 0 {
        lemma_count_below_weight(ssa, n - 1);
        assert(ssa@.blocks[n - 1] == ssa.blocks@[n - 1]@);
        lemma_ops_weight(ssa@.blocks[n - 1].ops, ssa@.blocks[n - 1].ops.len() as int);
    }
}

proof fn lemma_no_calls(f: crate::ssa::FunctionView, n: int)
    ensures
        crate::hir::lowering::lowered_blocks(f, n).hir.calls.len() == 0,
    decreases n,
{
    if n > 0 {
        lemma_no_calls(f, n - 1);
        lemma_no_calls_ops(
            crate::hir::lowering::lowered_blocks(f, n - 1),
            f.blocks[n - 1].id,
            f.blocks[n - 1].ops,
            f.blocks[n - 1].ops.len() as int,
        );
    }
}

proof fn lemma_no_calls_ops(s: LoweringView, id: u32, ops: Seq<crate::ssa::OpView>, n: int)
    requires
        s.hir.calls.len() == 0,
    ensures
        crate::hir::lowering::lowered_ops(s, id, ops, n).hir.calls.len() == 0,
    decreases n,
{
    if n > 0 {
        lemma_no_calls_ops(s, id, ops, n - 1);
        let t = crate::hir::lowering::lowered_ops(s, id, ops, n - 1);
        let reads = read_by(ops[n - 1]);
        lemma_no_calls_reads(
            t,
            reads,
            reads.len() as int,
            crate::hir::ProvenanceView {
                kind: crate::hir::ProvenanceKind::Entry,
                ..crate::hir::lowering::origin_of(ops[n - 1], (n - 1) as u32)
            },
        );
    }
}

proof fn lemma_no_calls_reads(s: LoweringView, vars: Seq<SsaVar>, n: int, p: crate::hir::ProvenanceView)
    requires
        s.hir.calls.len() == 0,
    ensures
        crate::hir::lowering::all_ensured(s, vars, n, p).hir.calls.len() == 0,
    decreases n,
{
    if n > 0 {
        lemma_no_calls_reads(s, vars, n - 1, p);
    }
}

proof fn lemma_no_calls_exits(f: crate::ssa::FunctionView, s: LoweringView, n: int)
    requires
        s.hir.calls.len() == 0,
    ensures
        crate::hir::lowering::with_exits(f, s, n).hir.calls.len() == 0,
    decreases n,
{
    if n > 0 {
        lemma_no_calls_exits(f, s, n - 1);
    }
}

impl RecoveredCallArguments {
    /// Recover the register arguments that the semantic form can trace; only the
    /// 64-bit calling convention is known.
    pub fn from_ssa(ssa: &SsaFunction, bitness: u32) -> (r: RecoveredCallArguments)
        requires
            lowerable(ssa@),
        ensures
            lowering_view(r.lowering) == call_facts(*ssa, bitness),
            match r.lowering {
                Some(l) => one_variable_each(l@.values),
                None => true,
            },
    {
        if bitness != 64 {
            return RecoveredCallArguments { lowering: None };
        }
        let mut lowering = lower_from_ssa(ssa);
        proof {
            let n = ssa@.blocks.len() as int;
            lemma_count_below_weight(*ssa, n);
            lemma_no_calls(ssa@, n);
            lemma_no_calls_exits(ssa@, crate::hir::lowering::lowered_blocks(ssa@, n), n);
        }
        let ghost before = lowering@;
        let _added = lowering.lift_win64_calls(ssa);
        proof {
            law_lifting_adds_only_calls(*ssa, before);
        }
        RecoveredCallArguments { lowering: Some(lowering) }
    }

    /// The arguments of the call at this position.
    pub fn arguments_for(&self, ssa: &SsaFunction, block_id: u32, operation_index: usize) -> (r: Option<Vec<SsaVar>>)
        requires
            operation_index <= u32::MAX,
            match self.lowering {
                Some(l) => one_variable_each(l@.values),
                None => true,
            },
        ensures
            match r {
                Some(v) => call_arguments(
                    *ssa,
                    lowering_view(self.lowering),
                    SsaOperationKey { block_id, operation_index: operation_index as u32 },
                ) == Some(v@),
                None => call_arguments(
                    *ssa,
                    lowering_view(self.lowering),
                    SsaOperationKey { block_id, operation_index: operation_index as u32 },
                ) is None,
            },
    {
        let key = SsaOperationKey { block_id, operation_index: operation_index as u32 };
        match &self.lowering {
            None => None,
            Some(l) => {
                let n: u16 = match find_required_count(ssa, key) {
                    Some(n) => n,
                    None => {
                        return None;
                    },
                };
                if n == 0 {
                    return None;
                }
                let id = match l.call_sites.get(&key) {
                    Some(id) => *id,
                    None => {
                        return None;
                    },
                };
                match l.hir.call_site(id) {
                    Some(site) => find_known_arguments(&site.arguments, &l.values, n),
                    None => None,
                }
            },
        }
    }
}

/// No two variables share a value.
pub open spec fn one_variable_each(values: Map<SsaVar, ValueId>) -> bool {
    forall|a: SsaVar, b: SsaVar| #[trigger]
        values.dom().contains(a) && #[trigger] values.dom().contains(b) && values[a] == values[b]
            ==> a == b
}

fn find_required_count(ssa: &SsaFunction, key: SsaOperationKey) -> (r: Option<u16>)
    ensures
        match r {
            Some(n) => required_count(*ssa, key) == Some(n as int) && n <= 4,
            None => required_count(*ssa, key) is None,
        },
{
    let b: usize = key.block_id as usize;
    let i: usize = key.operation_index as usize;
    if b >= ssa.blocks.len() || i >= ssa.blocks[b].ops.len() {
        return None;
    }
    let op = &ssa.blocks[b].ops[i];
    if !matches!(op.kind, SsaOpKind::Pcode(PcodeOp::Call { .. })) {
        return None;
    }
    let a = find_register(&op.uses, 0x08).is_some();
    let b = find_register(&op.uses, 0x10).is_some();
    let c = find_register(&op.uses, 0x80).is_some();
    let d = find_register(&op.uses, 0x88).is_some();
    if (!a && (b || c || d)) || (!b && (c || d)) || (!c && d) {
        None
    } else if d {
        Some(4)
    } else if c {
        Some(3)
    } else if b {
        Some(2)
    } else if a {
        Some(1)
    } else {
        Some(0)
    }
}

fn find_variable(values: &crate::maps::VarMap<ValueId>, id: ValueId) -> (r: Option<SsaVar>)
    requires
        one_variable_each(values@),
    ensures
        r == variable_of(values@, id),
{
    let mut i: usize = 0;
    while i < values.entries.len()
        invariant
            i <= values.entries@.len(),
            one_variable_each(values@),
            forall|k: int|
                0 <= k < i && values@.dom().contains((#[trigger] values.entries@[k]).0)
                    ==> values@[values.entries@[k].0] != id,
        decreases values.entries@.len() - i,
    {
        let v = values.entries[i].0;
        if let Some(x) = values.get(&v) {
            if *x == id {
                proof {
                    assert(values@.dom().contains(v) && values@[v] == id);
                    let w = choose|w: SsaVar| #[trigger] values@.dom().contains(w) && values@[w] == id;
                    assert(values@.dom().contains(w));
                }
                return Some(v);
            }
        }
        i += 1;
    }
    proof {
        if exists|v: SsaVar| #[trigger] values@.dom().contains(v) && values@[v] == id {
            let v = choose|v: SsaVar| #[trigger] values@.dom().contains(v) && values@[v] == id;
            crate::hir::lowering::lemma_entry(values.entries@, v);
            let k = choose|k: int| 0 <= k < values.entries@.len() && (#[trigger] values.entries@[k]).0 == v;
            assert(values@.dom().contains(values.entries@[k].0));
        }
    }
    None
}

fn find_argument(arguments: &Vec<crate::hir::abi::Win64Argument>, values: &crate::maps::VarMap<ValueId>, position: u16) -> (r: Option<SsaVar>)
    requires
        one_variable_each(values@),
    ensures
        r == argument_at(
            crate::hir::abi::argument_views(arguments@),
            values@,
            position as int,
            arguments@.len() as int,
        ),
{
    let ghost views = crate::hir::abi::argument_views(arguments@);
    let mut n: usize = arguments.len();
    while n > 0
        invariant
            n <= arguments@.len(),
            one_variable_each(values@),
            views == crate::hir::abi::argument_views(arguments@),
            argument_at(views, values@, position as int, n as int) == argument_at(
                views,
                values@,
                position as int,
                arguments@.len() as int,
            ),
        decreases n,
    {
        n -= 1;
        let a = &arguments[n];
        assert(views[n as int] == a@);
        if a.position == position {
            let v = find_variable(values, a.value);
            if v.is_some() {
                return v;
            }
        }
    }
    None
}

fn find_known_arguments(arguments: &Vec<crate::hir::abi::Win64Argument>, values: &crate::maps::VarMap<ValueId>, n: u16) -> (r: Option<Vec<SsaVar>>)
    requires
        one_variable_each(values@),
        n <= 4,
    ensures
        match r {
            Some(v) => known_arguments(
                crate::hir::abi::argument_views(arguments@),
                values@,
                n as int,
            ) == Some(v@),
            None => known_arguments(
                crate::hir::abi::argument_views(arguments@),
                values@,
                n as int,
            ) is None,
        },
    decreases n,
{
    if n == 0 {
        let none: Vec<SsaVar> = Vec::new();
        assert(none@ =~= Seq::empty());
        return Some(none);
    }
    match find_known_arguments(arguments, values, n - 1) {
        None => None,
        Some(done) => {
            match find_argument(arguments, values, n - 1) {
                None => None,
                Some(v) => {
                    let mut done = done;
                    done.push(v);
                    Some(done)
                },
            }
        },
    }
}

// ─── The lines of a block ───────────────────────────────────────────────────

/// What the lines of a function depend on.
pub ghost struct Scene {
    pub ssa: SsaFunction,
    pub inline: Map<SsaVar, Seq<char>>,
    pub sink: Map<SsaVar, Seq<char>>,
    pub types: Map<SsaVar, TyGuess>,
    pub names: Names,
    pub low: Option<LoweringView>,
    pub regions: Map<u32, crate::structure::region::RegionView>,
    pub ve: u32,
}

/// The operation leaves no line: it transfers control, stores a parameter to its
/// home, adjusts the frame, reloads noise, merges, is dead, or has been folded.
pub open spec fn silent(sc: Scene, op: SsaOp) -> bool {
    ||| is_terminator_op(op)
    ||| is_store_op(op) && param_home_store(op)
    ||| frame_adjust(op)
    ||| noise_reload(op)
    ||| op.kind is Phi
    ||| (op.def matches Some(d) && (stable_pure(op) || is_load_op(op)) && use_count(sc.ssa, d) == 0)
    ||| (op.def matches Some(d) && sc.inline.dom().contains(d) && !is_store_op(op) && !makes_call(op))
}

/// The operation is a direct or computed call.
pub open spec fn makes_call(op: SsaOp) -> bool {
    match op.kind {
        SsaOpKind::Pcode(p) => p is Call || p is CallInd,
        SsaOpKind::Phi(_) => false,
    }
}

/// The values of `v` as texts.
pub open spec fn value_texts(v: Seq<SsaVar>, sc: Scene, va: u64, n: int) -> Seq<Seq<char>>
    decreases n,
{
    if n <= 0 {
        Seq::empty()
    } else {
        value_texts(v, sc, va, n - 1).push(value_text(v[n - 1], sc.inline, sc.names, va))
    }
}

/// A call with its arguments, or the bare fact of a call where they are not known.
pub open spec fn call_line(sc: Scene, op: SsaOp, dest: pcode_ir::Varnode, key: SsaOperationKey, p: Seq<char>) -> Seq<char> {
    let target = target_text(dest, op.uses@, sc.inline, sc.names, op.va);
    match call_arguments(sc.ssa, sc.low, key) {
        Some(v) => p + target + "("@ + join(value_texts(v, sc, op.va, v.len() as int), ", "@) + ");\n"@,
        None => p + "call("@ + target + ");\n"@,
    }
}

/// The line of an operation; empty if it leaves none.
pub open spec fn op_line(sc: Scene, block_id: u32, i: int, op: SsaOp, p: Seq<char>) -> Seq<char> {
    if silent(sc, op) {
        Seq::empty()
    } else {
        match op.kind {
            SsaOpKind::Pcode(PcodeOp::Store { ptr, val, .. }) => {
                let v = operand_text(val, op.uses@, sc.inline, sc.names, op.va);
                let slot = match op.def {
                    Some(d) => match d.location {
                        Location::StackSlot { disp, .. } => Some(disp),
                        _ => None,
                    },
                    None => None,
                };
                match slot {
                    Some(disp) => p + slot_text(disp, sc.names) + " = "@ + v + ";\n"@,
                    None => p + "*("@ + pointer_text(ptr, op.uses@, sc.inline, sc.names, op.va)
                        + ") = "@ + v + ";\n"@,
                }
            },
            SsaOpKind::Pcode(PcodeOp::Call { dest })
            | SsaOpKind::Pcode(PcodeOp::CallInd { dest }) => call_line(
                sc,
                op,
                dest,
                SsaOperationKey { block_id, operation_index: i as u32 },
                p,
            ),
            SsaOpKind::Pcode(_) => match op.def {
                Some(d) => {
                    let e = op_text(op, sc.inline, sc.names);
                    if is_cheap_op(op) && stable_pure(op) && bare_name(e) {
                        Seq::empty()
                    } else {
                        p + typed_name(d, sc.types, sc.names, op.va) + " = "@ + e + ";\n"@
                    }
                },
                None => Seq::empty(),
            },
            SsaOpKind::Phi(_) => Seq::empty(),
        }
    }
}

/// The lines of the first `n` operations.
pub open spec fn op_lines(sc: Scene, block_id: u32, ops: Seq<SsaOp>, n: int, p: Seq<char>) -> Seq<char>
    decreases n,
{
    if n <= 0 {
        Seq::empty()
    } else {
        op_lines(sc, block_id, ops, n - 1, p) + op_line(sc, block_id, n - 1, ops[n - 1], p)
    }
}

/// The lines of a block.
pub open spec fn block_lines(sc: Scene, block: SsaBlock, indent: int) -> Seq<char> {
    op_lines(sc, block.id, block.ops@, block.ops@.len() as int, pad(indent))
}

/// What emission works with.
pub struct EmitCtx<'a> {
    pub ssa: &'a SsaFunction,
    pub inline: &'a TextMap,
    pub sink: &'a TextMap,
    pub types: Option<&'a TypeRecoveryReport>,
    pub names: &'a NameCtx<'a>,
    pub calls: &'a RecoveredCallArguments,
    pub regions: &'a std::collections::HashMap<u32, crate::structure::region::Region>,
    pub ve: u32,
}

impl<'a> EmitCtx<'a> {
    /// The context as a value.
    pub open spec fn scene(&self) -> Scene {
        Scene {
            ssa: *self.ssa,
            inline: self.inline@,
            sink: self.sink@,
            types: guesses(self.types),
            names: self.names@,
            low: lowering_view(self.calls.lowering),
            regions: crate::structure::rewrite::region_views(self.regions@),
            ve: self.ve,
        }
    }

    /// Positions fit, and values are told apart.
    pub open spec fn wf(&self) -> bool {
        &&& self.ssa.blocks@.len() < u32::MAX
        &&& forall|b: int|
            0 <= b < self.ssa.blocks@.len() ==> (#[trigger] self.ssa.blocks@[b]).ops@.len() <= u32::MAX
        &&& match self.calls.lowering {
            Some(l) => one_variable_each(l@.values),
            None => true,
        }
    }
}

fn is_silent(ctx: &EmitCtx<'_>, op: &SsaOp) -> (r: bool)
    ensures
        r == silent(ctx.scene(), *op),
{
    if op_is_terminator(op) || (op_is_store(op) && is_param_home_store(op)) || is_frame_pointer_adjust(op)
        || is_noise_stack_reload(op) || op_is_phi(op) {
        return true;
    }
    if let Some(d) = op.def {
        if (is_stable_contractible_pure(op) || op_is_load(op)) && count_uses(ctx.ssa, &d) == 0 {
            return true;
        }
        if ctx.inline.has(&d) && !op_is_store(op) && !matches!(
            op.kind,
            SsaOpKind::Pcode(PcodeOp::Call { .. }) | SsaOpKind::Pcode(PcodeOp::CallInd { .. })
        ) {
            return true;
        }
    }
    false
}

fn emit_call(ctx: &EmitCtx<'_>, op: &SsaOp, dest: pcode_ir::Varnode, block_id: u32, i: usize, p: &Vec<char>) -> (r: Vec<char>)
    requires
        ctx.wf(),
        i <= u32::MAX,
    ensures
        r@ == call_line(
            ctx.scene(),
            *op,
            dest,
            SsaOperationKey { block_id, operation_index: i as u32 },
            p@,
        ),
{
    let target = render_call_target(dest, &op.uses, ctx.inline, ctx.names, op.va);
    let mut line = copy_text(p);
    match ctx.calls.arguments_for(ctx.ssa, block_id, i) {
        Some(v) => {
            let mut items = new_items();
            let mut k: usize = 0;
            while k < v.len()
                invariant
                    k <= v@.len(),
                    deep(items@) == value_texts(v@, ctx.scene(), op.va, k as int),
                decreases v@.len() - k,
            {
                push_item(&mut items, render_value(&v[k], ctx.inline, ctx.names, op.va));
                k += 1;
            }
            push_text(&mut line, &target);
            push_lit(&mut line, "(");
            push_text(&mut line, &join_items(&items, ", "));
            push_lit(&mut line, ");\n");
        },
        None => {
            push_lit(&mut line, "call(");
            push_text(&mut line, &target);
            push_lit(&mut line, ");\n");
        },
    }
    line
}

fn emit_op(ctx: &EmitCtx<'_>, block_id: u32, i: usize, op: &SsaOp, p: &Vec<char>) -> (r: Vec<char>)
    requires
        ctx.wf(),
        i <= u32::MAX,
    ensures
        r@ == op_line(ctx.scene(), block_id, i as int, *op, p@),
{
    let nothing: Vec<char> = Vec::new();
    assert(nothing@ =~= Seq::empty());
    if is_silent(ctx, op) {
        return nothing;
    }
    match &op.kind {
        SsaOpKind::Pcode(PcodeOp::Store { ptr, val, .. }) => {
            let v = render_varnode(*val, &op.uses, ctx.inline, ctx.names, op.va);
            let slot: Option<i64> = match op.def {
                Some(d) => match d.location {
                    Location::StackSlot { disp, .. } => Some(disp),
                    _ => None,
                },
                None => None,
            };
            let mut line = copy_text(p);
            match slot {
                Some(disp) => {
                    push_text(&mut line, &stack_slot_name(disp, ctx.names));
                    push_lit(&mut line, " = ");
                    push_text(&mut line, &v);
                    push_lit(&mut line, ";\n");
                },
                None => {
                    push_lit(&mut line, "*(");
                    push_text(
                        &mut line,
                        &render_stack_ptr(*ptr, &op.uses, ctx.inline, ctx.names, op.va),
                    );
                    push_lit(&mut line, ") = ");
                    push_text(&mut line, &v);
                    push_lit(&mut line, ";\n");
                },
            }
            line
        },
        SsaOpKind::Pcode(PcodeOp::Call { dest }) | SsaOpKind::Pcode(PcodeOp::CallInd { dest }) => emit_call(
            ctx,
            op,
            *dest,
            block_id,
            i,
            p,
        ),
        SsaOpKind::Pcode(_) => {
            match op.def {
                Some(d) => {
                    let e = render_op_expr(op, ctx.inline, ctx.names);
                    if is_cheap_contractible(op) && expr_is_bare_name(&e) {
                        return nothing;
                    }
                    let mut line = copy_text(p);
                    push_text(&mut line, &typed_lhs(&d, ctx.types, ctx.names, op.va));
                    push_lit(&mut line, " = ");
                    push_text(&mut line, &e);
                    push_lit(&mut line, ";\n");
                    line
                },
                None => nothing,
            }
        },
        SsaOpKind::Phi(_) => nothing,
    }
}

pub fn emit_block_statements(out: &mut Vec<char>, ctx: &EmitCtx<'_>, b: usize, indent: usize)
    requires
        ctx.wf(),
        b < ctx.ssa.blocks@.len(),
    ensures
        final(out)@ == old(out)@ + block_lines(ctx.scene(), ctx.ssa.blocks@[b as int], indent as int),
{
    let block = &ctx.ssa.blocks[b];
    let p = ind(indent);
    let mut lines: Vec<char> = Vec::new();
    let mut i: usize = 0;
    assert(lines@ =~= Seq::empty());
    while i < block.ops.len()
        invariant
            i <= block.ops@.len(),
            ctx.wf(),
            block.ops@.len() <= u32::MAX,
            p@ == pad(indent as int),
            lines@ == op_lines(ctx.scene(), block.id, block.ops@, i as int, p@),
        decreases block.ops@.len() - i,
    {
        let line = emit_op(ctx, block.id, i, &block.ops[i], &p);
        push_text(&mut lines, &line);
        i += 1;
    }
    push_text(out, &lines);
}

// ─── Conditions ─────────────────────────────────────────────────────────────

/// The condition of the first conditional branch from `i` on.
pub open spec fn cond_from(sc: Scene, ops: Seq<SsaOp>, i: int) -> Option<Seq<char>>
    decreases ops.len() - i,
{
    if i < 0 || i >= ops.len() {
        None
    } else {
        match ops[i].kind {
            SsaOpKind::Pcode(PcodeOp::CBranch { cond, .. }) => Some(
                simplified(operand_text(cond, ops[i].uses@, sc.inline, sc.names, ops[i].va)),
            ),
            _ => cond_from(sc, ops, i + 1),
        }
    }
}

/// The condition of a block.
pub open spec fn block_cond(sc: Scene, b: u32) -> Option<Seq<char>> {
    if b < sc.ssa.blocks@.len() {
        cond_from(sc, sc.ssa.blocks@[b as int].ops@, 0)
    } else {
        None
    }
}

/// The condition of a block, or a mark that there is none.
pub open spec fn cond_or_mark(sc: Scene, b: u32) -> Seq<char> {
    match block_cond(sc, b) {
        Some(c) => c,
        None => "/*cond*/"@,
    }
}

/// A condition, negated where `invert` says so.
pub open spec fn oriented(cond: Seq<char>, invert: bool) -> Seq<char> {
    if invert {
        "!("@ + cond + ")"@
    } else {
        cond
    }
}

/// The condition of a top-tested loop: negated if the body is the fallthrough.
pub open spec fn while_text(sc: Scene, b: u32, body: u32) -> Seq<char> {
    oriented(
        cond_or_mark(sc, b),
        b < sc.ssa.blocks@.len() && (arms(sc.ssa.blocks@[b as int]) matches Some((fall, _)) && fall
            == body),
    )
}

/// The condition of a bottom-tested loop: negated if only the fallthrough goes back.
pub open spec fn do_while_text(sc: Scene, b: u32, body: u32) -> Seq<char> {
    oriented(
        cond_or_mark(sc, b),
        b < sc.ssa.blocks@.len() && (arms(sc.ssa.blocks@[b as int]) matches Some((fall, taken)) && fall
            == body && taken != body),
    )
}

/// The value that a switch tests, from operation `i` on.
pub open spec fn switch_from(sc: Scene, ops: Seq<SsaOp>, i: int) -> Seq<char>
    decreases ops.len() - i,
{
    if i < 0 || i >= ops.len() {
        "/*switch*/"@
    } else {
        match ops[i].kind {
            SsaOpKind::Pcode(PcodeOp::BranchInd { dest }) => operand_text(
                dest,
                ops[i].uses@,
                sc.inline,
                sc.names,
                ops[i].va,
            ),
            _ => switch_from(sc, ops, i + 1),
        }
    }
}

pub fn cond_of_block(ctx: &EmitCtx<'_>, b: u32) -> (r: Option<Vec<char>>)
    ensures
        opt_text(r) == block_cond(ctx.scene(), b),
{
    if b as usize >= ctx.ssa.blocks.len() {
        return None;
    }
    let ops = &ctx.ssa.blocks[b as usize].ops;
    let mut i: usize = 0;
    while i < ops.len()
        invariant
            i <= ops@.len(),
            b < ctx.ssa.blocks@.len(),
            ops@ == ctx.ssa.blocks@[b as int].ops@,
            cond_from(ctx.scene(), ops@, i as int) == cond_from(ctx.scene(), ops@, 0),
        decreases ops@.len() - i,
    {
        if let SsaOpKind::Pcode(PcodeOp::CBranch { cond, .. }) = &ops[i].kind {
            let raw = render_varnode(*cond, &ops[i].uses, ctx.inline, ctx.names, ops[i].va);
            return Some(simplify_text(&raw));
        }
        i += 1;
    }
    None
}

pub fn cond_or_marker(ctx: &EmitCtx<'_>, b: u32) -> (r: Vec<char>)
    ensures
        r@ == cond_or_mark(ctx.scene(), b),
{
    match cond_of_block(ctx, b) {
        Some(c) => c,
        None => chars_of("/*cond*/"),
    }
}

pub fn orient(cond: Vec<char>, invert: bool) -> (r: Vec<char>)
    ensures
        r@ == oriented(cond@, invert),
{
    if invert {
        let mut t = chars_of("!(");
        push_text(&mut t, &cond);
        push_lit(&mut t, ")");
        t
    } else {
        cond
    }
}

pub fn while_cond(ctx: &EmitCtx<'_>, b: u32, body: u32) -> (r: Vec<char>)
    ensures
        r@ == while_text(ctx.scene(), b, body),
{
    let cond = cond_or_marker(ctx, b);
    let mut invert = false;
    if (b as usize) < ctx.ssa.blocks.len() {
        if let Some((fall, _)) = cbranch_fall_taken(&ctx.ssa.blocks[b as usize]) {
            invert = fall == body;
        }
    }
    orient(cond, invert)
}

pub fn do_while_cond(ctx: &EmitCtx<'_>, b: u32, body: u32) -> (r: Vec<char>)
    ensures
        r@ == do_while_text(ctx.scene(), b, body),
{
    let cond = cond_or_marker(ctx, b);
    let mut invert = false;
    if (b as usize) < ctx.ssa.blocks.len() {
        if let Some((fall, taken)) = cbranch_fall_taken(&ctx.ssa.blocks[b as usize]) {
            invert = fall == body && taken != body;
        }
    }
    orient(cond, invert)
}

pub fn switch_val(ctx: &EmitCtx<'_>, b: usize) -> (r: Vec<char>)
    requires
        b < ctx.ssa.blocks@.len(),
    ensures
        r@ == switch_from(ctx.scene(), ctx.ssa.blocks@[b as int].ops@, 0),
{
    let ops = &ctx.ssa.blocks[b].ops;
    let mut i: usize = 0;
    while i < ops.len()
        invariant
            i <= ops@.len(),
            b < ctx.ssa.blocks@.len(),
            ops@ == ctx.ssa.blocks@[b as int].ops@,
            switch_from(ctx.scene(), ops@, i as int) == switch_from(ctx.scene(), ops@, 0),
        decreases ops@.len() - i,
    {
        if let SsaOpKind::Pcode(PcodeOp::BranchInd { dest }) = &ops[i].kind {
            return render_varnode(*dest, &ops[i].uses, ctx.inline, ctx.names, ops[i].va);
        }
        i += 1;
    }
    chars_of("/*switch*/")
}

} // verus!
