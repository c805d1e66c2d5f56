//! The text of a whole function before presentation.

use vstd::prelude::*;
use crate::graph::lemma_small_set;
use crate::hir::lowering::lowerable;
use crate::lines::{join, join_items};
use crate::normalize::{frame_adjust, is_frame_pointer_adjust, is_noise_stack_reload, is_param_home_store, is_terminator_op, noise_reload, op_is_phi, op_is_terminator, param_home_store};
use crate::numbers::{dec, dec_text, hex, hex_text, magnitude, padded_hex, padded_hex_text};
use crate::ssa::{SsaBlock, SsaFunction, SsaOp};
use crate::structure::cfg_norm::{is_jump_only, jump_only};
use crate::structure::contracts::{case_views, ladder_cases, lists_fit, loops_of, multiways, switches_of};
use crate::structure::emit_region::{emit_region, mark, region, lemma_unwritten_bound, Page, Sheet};
use crate::structure::folding::{build_expressions, expressions_of, Taken};
use crate::structure::names::{NameCtx, Names};
use crate::structure::rd_model::{lemma_residual_cost, DualDecompModel};
use crate::structure::region::{every_block, RegionView, SwitchInfo};
use crate::structure::rewrite::{after_moves, apply_moves, costs_fit, moves_below, outcome_of, region_views, select_improving_moves, RewriteMove, RewriteOutcome};
use crate::structure::statements::{call_facts, guesses, EmitCtx, RecoveredCallArguments, Scene};
use crate::text::{chars_of, deep, new_items, push_item, push_lit, push_text, string_of};
use crate::types::{Aggregate, DataType, FunctionSignature, TypeRecoveryReport};

verus! {

broadcast use crate::text::lemma_deep_push;

// ─── The signature ──────────────────────────────────────────────────────────

/// A type as it is written.
pub open spec fn type_text(ty: DataType) -> Seq<char>
    decreases ty,
{
    match ty {
        DataType::Void => "void"@,
        DataType::Bool => "bool"@,
        DataType::Int(b) => "int"@ + dec(b as nat),
        DataType::Uint(b) => "uint"@ + dec(b as nat),
        DataType::Float => "float"@,
        DataType::Double => "double"@,
        DataType::Ptr(inner) => type_text(*inner) + "*"@,
        DataType::Array(inner, n) => type_text(*inner) + "["@ + dec(n as nat) + "]"@,
        DataType::FuncPtr { .. } => "void*"@,
        DataType::Named(n) => n@,
        DataType::Unknown(b) => "u"@ + dec(b as nat),
    }
}

fn ty_str(ty: &DataType) -> (r: Vec<char>)
    ensures
        r@ == type_text(*ty),
    decreases ty,
{
    match ty {
        DataType::Void => chars_of("void"),
        DataType::Bool => chars_of("bool"),
        DataType::Int(b) => {
            let mut t = chars_of("int");
            push_text(&mut t, &dec_text(*b as u64));
            t
        },
        DataType::Uint(b) => {
            let mut t = chars_of("uint");
            push_text(&mut t, &dec_text(*b as u64));
            t
        },
        DataType::Float => chars_of("float"),
        DataType::Double => chars_of("double"),
        DataType::Ptr(inner) => {
            let mut t = ty_str(inner);
            push_lit(&mut t, "*");
            t
        },
        DataType::Array(inner, n) => {
            let mut t = ty_str(inner);
            push_lit(&mut t, "[");
            push_text(&mut t, &dec_text(*n));
            push_lit(&mut t, "]");
            t
        },
        DataType::FuncPtr { .. } => chars_of("void*"),
        DataType::Named(n) => chars_of(n.as_str()),
        DataType::Unknown(b) => {
            let mut t = chars_of("u");
            push_text(&mut t, &dec_text(*b as u64));
            t
        },
    }
}

/// The first `n` parameters; one without a name is numbered.
pub open spec fn param_texts(params: Seq<(String, DataType)>, n: int) -> Seq<Seq<char>>
    decreases n,
{
    if n <= 0 {
        Seq::empty()
    } else {
        let name = if params[n - 1].0@.len() == 0 {
            "arg"@ + dec((n - 1) as nat)
        } else {
            params[n - 1].0@
        };
        param_texts(params, n - 1).push(type_text(params[n - 1].1) + " "@ + name)
    }
}

/// The first line of a function.
pub open spec fn signature_line(sig: Option<FunctionSignature>, entry_va: u64) -> Seq<char> {
    match sig {
        Some(s) => type_text(s.ret) + " "@ + s.name@ + "("@ + join(
            param_texts(s.params@, s.params@.len() as int),
            ", "@,
        ) + ") {\n"@,
        None => "void"@ + " "@ + ("FUN_"@ + padded_hex(entry_va as nat)) + "("@ + Seq::empty()
            + ") {\n"@,
    }
}

/// The signature behind a reference.
pub open spec fn signature_of(sig: Option<&FunctionSignature>) -> Option<FunctionSignature> {
    match sig {
        Some(s) => Some(*s),
        None => None,
    }
}

fn render_params(params: &Vec<(String, DataType)>) -> (r: Vec<char>)
    ensures
        r@ == join(param_texts(params@, params@.len() as int), ", "@),
{
    let mut items = new_items();
    let mut i: usize = 0;
    while i < params.len()
        invariant
            i <= params@.len(),
            deep(items@) == param_texts(params@, i as int),
        decreases params@.len() - i,
    {
        let mut t = ty_str(&params[i].1);
        push_lit(&mut t, " ");
        let name = chars_of(params[i].0.as_str());
        if name.len() == 0 {
            let mut numbered = chars_of("arg");
            push_text(&mut numbered, &dec_text(i as u64));
            push_text(&mut t, &numbered);
        } else {
            push_text(&mut t, &name);
        }
        push_item(&mut items, t);
        i += 1;
    }
    join_items(&items, ", ")
}

fn render_signature(sig: Option<&FunctionSignature>, entry_va: u64) -> (r: Vec<char>)
    ensures
        r@ == signature_line(signature_of(sig), entry_va),
{
    let ret = match sig {
        Some(s) => ty_str(&s.ret),
        None => chars_of("void"),
    };
    let name = match sig {
        Some(s) => chars_of(s.name.as_str()),
        None => {
            let mut t = chars_of("FUN_");
            push_text(&mut t, &padded_hex_text(entry_va));
            t
        },
    };
    let params: Vec<char> = match sig {
        Some(s) => render_params(&s.params),
        None => {
            let none: Vec<char> = Vec::new();
            assert(none@ =~= Seq::empty());
            none
        },
    };
    let mut t = ret;
    push_lit(&mut t, " ");
    push_text(&mut t, &name);
    push_lit(&mut t, "(");
    push_text(&mut t, &params);
    push_lit(&mut t, ") {\n");
    t
}

// ─── Aggregates ─────────────────────────────────────────────────────────────

/// Distance of a place from the frame register.
pub open spec fn distance(place: int) -> nat {
    if place < 0 {
        (-place) as nat
    } else {
        place as nat
    }
}

/// The comments on the first `n` fields of an aggregate at `base`.
pub open spec fn field_lines(agg: Aggregate, base: i64, n: int) -> Seq<char>
    decreases n,
{
    if n <= 0 {
        Seq::empty()
    } else {
        field_lines(agg, base, n - 1) + ("    // local_"@ + hex(
            distance(base + agg.fields@[n - 1].offset),
        ) + " is field "@ + dec((n - 1) as nat) + " of struct "@ + agg.name@ + "\n"@)
    }
}

/// The comments on an aggregate.
pub open spec fn aggregate_lines(agg: Aggregate) -> Seq<char> {
    "    // struct "@ + agg.name@ + " { /* "@ + dec(agg.fields@.len()) + " fields, "@ + dec(
        agg.size as nat,
    ) + " bytes */ }\n"@ + match agg.base {
        Some(base) => field_lines(agg, base, agg.fields@.len() as int),
        None => Seq::empty(),
    }
}

/// The comments on the first `n` aggregates.
pub open spec fn aggregates_lines(aggs: Seq<Aggregate>, n: int) -> Seq<char>
    decreases n,
{
    if n <= 0 {
        Seq::empty()
    } else {
        aggregates_lines(aggs, n - 1) + aggregate_lines(aggs[n - 1])
    }
}

/// The comments on the aggregates of a report.
pub open spec fn report_lines(types: Option<&TypeRecoveryReport>) -> Seq<char> {
    match types {
        Some(r) => aggregates_lines(r.aggregates@, r.aggregates@.len() as int),
        None => Seq::empty(),
    }
}

/// The places of all fields are displacements.
pub open spec fn fields_fit(types: Option<&TypeRecoveryReport>) -> bool {
    match types {
        Some(r) => forall|i: int|
            0 <= i < r.aggregates@.len() ==> (match (#[trigger] r.aggregates@[i]).base {
                Some(base) => base <= i64::MAX - u32::MAX,
                None => true,
            }),
        None => true,
    }
}

fn render_fields(agg: &Aggregate, base: i64) -> (r: Vec<char>)
    requires
        base <= i64::MAX - u32::MAX,
    ensures
        r@ == field_lines(*agg, base, agg.fields@.len() as int),
{
    let mut out: Vec<char> = Vec::new();
    let mut i: usize = 0;
    assert(out@ =~= Seq::empty());
    while i < agg.fields.len()
        invariant
            i <= agg.fields@.len(),
            base <= i64::MAX - u32::MAX,
            out@ == field_lines(*agg, base, i as int),
        decreases agg.fields@.len() - i,
    {
        let place: i64 = base + agg.fields[i].offset as i64;
        let mut line = chars_of("    // local_");
        push_text(&mut line, &hex_text(magnitude(place)));
        push_lit(&mut line, " is field ");
        push_text(&mut line, &dec_text(i as u64));
        push_lit(&mut line, " of struct ");
        push_lit(&mut line, agg.name.as_str());
        push_lit(&mut line, "\n");
        push_text(&mut out, &line);
        i += 1;
    }
    out
}

fn render_aggregate(agg: &Aggregate) -> (r: Vec<char>)
    requires
        match agg.base {
            Some(base) => base <= i64::MAX - u32::MAX,
            None => true,
        },
    ensures
        r@ == aggregate_lines(*agg),
{
    let mut out = chars_of("    // struct ");
    push_lit(&mut out, agg.name.as_str());
    push_lit(&mut out, " { /* ");
    push_text(&mut out, &dec_text(agg.fields.len() as u64));
    push_lit(&mut out, " fields, ");
    push_text(&mut out, &dec_text(agg.size));
    push_lit(&mut out, " bytes */ }\n");
    let fields: Vec<char> = match agg.base {
        Some(base) => render_fields(agg, base),
        None => {
            let none: Vec<char> = Vec::new();
            assert(none@ =~= Seq::empty());
            none
        },
    };
    push_text(&mut out, &fields);
    out
}

fn render_report(types: Option<&TypeRecoveryReport>) -> (r: Vec<char>)
    requires
        fields_fit(types),
    ensures
        r@ == report_lines(types),
{
    let mut out: Vec<char> = Vec::new();
    assert(out@ =~= Seq::empty());
    if let Some(report) = types {
        let mut i: usize = 0;
        while i < report.aggregates.len()
            invariant
                i <= report.aggregates@.len(),
                types == Some(report),
                fields_fit(types),
                out@ == aggregates_lines(report.aggregates@, i as int),
            decreases report.aggregates@.len() - i,
        {
            let t = render_aggregate(&report.aggregates[i]);
            push_text(&mut out, &t);
            i += 1;
        }
    }
    out
}

// ─── The body ───────────────────────────────────────────────────────────────

/// The operation says nothing by itself: a merge, a transfer of control, a frame
/// adjustment, a parameter home or a noise reload.
pub open spec fn control_only(op: SsaOp) -> bool {
    op.kind is Phi || is_terminator_op(op) || frame_adjust(op) || param_home_store(op) || noise_reload(
        op,
    )
}

/// Every operation of the block says nothing by itself.
pub open spec fn only_control(block: SsaBlock) -> bool {
    forall|i: int| 0 <= i < block.ops@.len() ==> #[trigger] control_only(block.ops@[i])
}

fn is_only_control(block: &SsaBlock) -> (r: bool)
    ensures
        r == only_control(*block),
{
    let mut i: usize = 0;
    while i < block.ops.len()
        invariant
            i <= block.ops@.len(),
            forall|j: int| 0 <= j < i ==> #[trigger] control_only(block.ops@[j]),
        decreases block.ops@.len() - i,
    {
        let op = &block.ops[i];
        if !(op_is_phi(op) || op_is_terminator(op) || is_frame_pointer_adjust(op)
            || is_param_home_store(op) || is_noise_stack_reload(op)) {
            assert(!control_only(block.ops@[i as int]));
            return false;
        }
        i += 1;
    }
    true
}

/// Position of the first block from `i` on that starts at the function's entry.
pub open spec fn entry_from(ssa: SsaFunction, i: int) -> u32
    decreases ssa.blocks@.len() - i,
{
    if i < 0 || i >= ssa.blocks@.len() {
        0
    } else if ssa.blocks@[i].entry_va == ssa.entry_va {
        i as u32
    } else {
        entry_from(ssa, i + 1)
    }
}

/// The page after the blocks from `i` on that the walk has not reached: those with
/// statements of their own are written.
pub open spec fn residual_from(sc: Scene, p: Page, i: int) -> Page
    decreases sc.ssa.blocks@.len() - i,
{
    if i < 0 || i >= sc.ssa.blocks@.len() {
        p
    } else {
        let b = i as u32;
        let q = if p.emitted.contains(b) {
            p
        } else if jump_only(sc.ssa.blocks@[i]) || only_control(sc.ssa.blocks@[i]) {
            mark(p, b)
        } else {
            region(sc, p, b, sc.ve, 1, Seq::empty())
        };
        residual_from(sc, q, i + 1)
    }
}

/// The text of a function whose first lines are `head`.
pub open spec fn body_text(sc: Scene, head: Seq<char>) -> Seq<char> {
    let p = Page { out: head, emitted: Set::empty() };
    let q = if sc.ssa.blocks@.len() == 0 {
        p
    } else {
        region(sc, p, entry_from(sc.ssa, 0), sc.ve, 1, Seq::empty())
    };
    residual_from(sc, q, 0).out + "}\n"@
}

/// The scene of a function with these regions.
pub open spec fn scene_of(ssa: SsaFunction, regions: Map<u32, RegionView>, types: Option<&TypeRecoveryReport>, bitness: u32, names: Names) -> Scene {
    Scene {
        ssa,
        inline: expressions_of(ssa, Taken::Folded, names),
        sink: expressions_of(ssa, Taken::Composed, names),
        types: guesses(types),
        names,
        low: call_facts(ssa, bitness),
        regions,
        ve: ssa.blocks@.len() as u32,
    }
}

/// `selected` holds the decision on every move that the model proposes.
pub open spec fn decides(dual: DualDecompModel, selected: Seq<(RewriteMove, RewriteOutcome)>) -> bool {
    let moves = moves_below(dual.regions@, every_block());
    &&& selected.len() == moves.len()
    &&& forall|i: int|
        0 <= i < moves.len() ==> (#[trigger] selected[i]).0 == moves[i] && selected[i].1@
            == outcome_of(dual, moves[i])
}

/// `text` is what the model `dual`, rewritten by `selected`, gives.
pub open spec fn written_with(dual: DualDecompModel, selected: Seq<(RewriteMove, RewriteOutcome)>, ssa: SsaFunction, types: Option<&TypeRecoveryReport>, sig: Option<FunctionSignature>, bitness: u32, switches: Seq<SwitchInfo>, names: Names, text: Seq<char>) -> bool {
    &&& dual.models(ssa, switches)
    &&& decides(dual, selected)
    &&& text == body_text(
        scene_of(
            ssa,
            after_moves(
                dual.semantic.effects@,
                selected,
                selected.len() as int,
                region_views(dual.regions@),
            ),
            types,
            bitness,
            names,
        ),
        signature_line(sig, ssa.entry_va) + report_lines(types),
    )
}

/// `text` is the structured text of the function, before presentation.
pub open spec fn core_text(ssa: SsaFunction, types: Option<&TypeRecoveryReport>, sig: Option<FunctionSignature>, bitness: u32, switches: Seq<SwitchInfo>, names: Names, text: Seq<char>) -> bool {
    exists|dual: DualDecompModel, selected: Seq<(RewriteMove, RewriteOutcome)>| #[trigger]
        written_with(dual, selected, ssa, types, sig, bitness, switches, names, text)
}

/// The function is well-formed and can be counted, and so can the cost of presenting
/// it.
pub open spec fn emittable(ssa: SsaFunction, types: Option<&TypeRecoveryReport>, switches: Seq<SwitchInfo>) -> bool {
    &&& ssa.wf()
    &&& lists_fit(ssa)
    &&& lowerable(ssa@)
    &&& forall|dual: DualDecompModel| #[trigger] dual.models(ssa, switches) ==> costs_fit(dual)
    &&& fields_fit(types)
}

// ─── Sizes ──────────────────────────────────────────────────────────────────

proof fn lemma_loops_len(regions: Map<u32, crate::structure::region::Region>, n: int)
    requires
        0 <= n,
    ensures
        loops_of(regions, n).len() <= n,
    decreases n,
{
    if n > 0 {
        lemma_loops_len(regions, n - 1);
    }
}

proof fn lemma_switches_len(regions: Map<u32, crate::structure::region::Region>, n: int)
    requires
        0 <= n,
    ensures
        switches_of(regions, n).len() <= n,
    decreases n,
{
    if n > 0 {
        lemma_switches_len(regions, n - 1);
    }
}

proof fn lemma_multiways_len(ssa: SsaFunction, n: int)
    requires
        0 <= n,
    ensures
        multiways(ssa, n).len() <= n,
    decreases n,
{
    if n > 0 {
        lemma_multiways_len(ssa, n - 1);
    }
}

proof fn lemma_cut(regions: Map<u32, crate::structure::region::Region>, n: int, m: int)
    requires
        0 <= n <= m <= every_block(),
        forall|x: u32| #[trigger] regions.dom().contains(x) ==> x < n,
    ensures
        loops_of(regions, m) == loops_of(regions, n),
        switches_of(regions, m) == switches_of(regions, n),
    decreases m - n,
{
    if n < m {
        lemma_cut(regions, n, m - 1);
        assert(!regions.dom().contains((m - 1) as u32));
    }
}

/// The cost of presenting a function can be told as long as it has no more blocks than
/// a sixth of the largest cost.
pub proof fn law_costs_fit(ssa: SsaFunction, switches: Seq<SwitchInfo>)
    requires
        ssa.blocks@.len() <= 0x1555_5554,
    ensures
        forall|dual: DualDecompModel| #[trigger] dual.models(ssa, switches) ==> costs_fit(dual),
{
    assert forall|dual: DualDecompModel| #[trigger] dual.models(ssa, switches) implies costs_fit(dual) by {
        let n = ssa.blocks@.len() as int;
        lemma_small_set(dual.semantic.cookie_overlay@, n);
        lemma_small_set(dual.semantic.exception_overlay@, n);
        lemma_cut(dual.regions@, n, every_block());
        lemma_loops_len(dual.regions@, n);
        lemma_switches_len(dual.regions@, n);
        lemma_multiways_len(ssa, n);
        lemma_residual_cost(dual.presentation.succ@, dual.regions@, n);
        assert(ladder_cases(ssa).len() <= 1);
        assert(case_views(dual.contracts.cases@).len() == dual.contracts.cases@.len());
    }
}

proof fn lemma_ops_fit(ssa: SsaFunction, n: int)
    requires
        0 <= n <= ssa.blocks@.len(),
    ensures
        forall|b: int|
            0 <= b < n ==> (#[trigger] ssa.blocks@[b]).ops@.len() <= crate::hir::lowering::weight(
                ssa@,
                n,
            ),
    decreases n,
{
    if n > 0 {
        lemma_ops_fit(ssa, n - 1);
        assert(ssa@.blocks[n - 1] == ssa.blocks@[n - 1]@);
        crate::structure::statements::lemma_ops_weight(
            ssa@.blocks[n - 1].ops,
            ssa@.blocks[n - 1].ops.len() as int,
        );
    }
}

// ─── Emission ───────────────────────────────────────────────────────────────

fn find_entry(ssa: &SsaFunction) -> (r: u32)
    requires
        ssa.blocks@.len() < u32::MAX,
    ensures
        r == entry_from(*ssa, 0),
{
    let mut i: usize = 0;
    while i < ssa.blocks.len()
        invariant
            i <= ssa.blocks@.len() < u32::MAX,
            entry_from(*ssa, i as int) == entry_from(*ssa, 0),
        decreases ssa.blocks@.len() - i,
    {
        if ssa.blocks[i].entry_va == ssa.entry_va {
            return i as u32;
        }
        i += 1;
    }
    0
}

fn emit_body(ctx: &EmitCtx<'_>, head: Vec<char>) -> (r: Vec<char>)
    requires
        ctx.wf(),
        ctx.ssa.blocks@.len() < u32::MAX,
    ensures
        r@ == body_text(ctx.scene(), head@),
{
    let ghost sc = ctx.scene();
    let mut sheet = Sheet { out: head, emitted: std::collections::HashSet::new() };
    let loops: Vec<crate::structure::emit_region::LoopFrame> = Vec::new();
    proof {
        assert(sheet.page() =~= (Page { out: head@, emitted: Set::empty() }));
        assert(loops@ =~= Seq::empty());
        lemma_unwritten_bound(sheet.page().emitted, sc.ssa.blocks@.len() as int);
    }
    if ctx.ssa.blocks.len() > 0 {
        let start = find_entry(ctx.ssa);
        emit_region(&mut sheet, ctx, start, ctx.ve, 1, &loops);
    }
    let ghost q = sheet.page();
    let n: usize = ctx.ssa.blocks.len();
    let mut i: usize = 0;
    while i < n
        invariant
            i <= n,
            n == ctx.ssa.blocks@.len(),
            n < u32::MAX,
            sc == ctx.scene(),
            ctx.wf(),
            loops@ == Seq::<crate::structure::emit_region::LoopFrame>::empty(),
            residual_from(sc, sheet.page(), i as int) == residual_from(sc, q, 0),
        decreases n - i,
    {
        let b: u32 = i as u32;
        let ghost p = sheet.page();
        if !sheet.emitted.contains(&b) {
            let block = &ctx.ssa.blocks[i];
            if is_jump_only(block) || is_only_control(block) {
                sheet.mark_block(b);
            } else {
                proof {
                    lemma_unwritten_bound(sheet.page().emitted, sc.ssa.blocks@.len() as int);
                }
                emit_region(&mut sheet, ctx, b, ctx.ve, 1, &loops);
            }
        }
        i += 1;
    }
    let mut out = sheet.out;
    push_lit(&mut out, "}\n");
    out
}

pub fn emit_core(ssa: &SsaFunction, types: Option<&TypeRecoveryReport>, sig: Option<&FunctionSignature>, bitness: u32, switches: &[SwitchInfo], names: &NameCtx<'_>) -> (r: Vec<char>)
    requires
        emittable(*ssa, types, switches@),
    ensures
        core_text(*ssa, types, signature_of(sig), bitness, switches@, names@, r@),
{
    let calls = RecoveredCallArguments::from_ssa(ssa, bitness);
    let inline = build_expressions(ssa, Taken::Folded, names);
    let sink = build_expressions(ssa, Taken::Composed, names);
    let mut dual = DualDecompModel::build(ssa, switches);
    let ghost model = dual;
    let selected = select_improving_moves(&dual);
    apply_moves(&mut dual, &selected, ssa);
    let _issues = dual.sanitize_contracts(ssa);
    let mut head = render_signature(sig, ssa.entry_va);
    push_text(&mut head, &render_report(types));
    let ctx = EmitCtx {
        ssa,
        inline: &inline,
        sink: &sink,
        types,
        names,
        calls: &calls,
        regions: &dual.regions,
        ve: ssa.blocks.len() as u32,
    };
    proof {
        lemma_ops_fit(*ssa, ssa.blocks@.len() as int);
    }
    let out = emit_body(&ctx, head);
    proof {
        assert(ctx.scene() == scene_of(
            *ssa,
            after_moves(
                model.semantic.effects@,
                selected@,
                selected@.len() as int,
                region_views(model.regions@),
            ),
            types,
            bitness,
            names@,
        ));
        assert(decides(model, selected@));
        assert(written_with(
            model,
            selected@,
            *ssa,
            types,
            signature_of(sig),
            bitness,
            switches@,
            names@,
            out@,
        ));
    }
    out
}

/// Region-tree structured text of a function, without presentation.
pub fn structure_emit_core(ssa: &SsaFunction, types: Option<&TypeRecoveryReport>, sig: Option<&FunctionSignature>, bitness: u32, switches: &[SwitchInfo], names: &NameCtx<'_>) -> (r: String)
    requires
        emittable(*ssa, types, switches@),
    ensures
        core_text(*ssa, types, signature_of(sig), bitness, switches@, names@, r@),
{
    string_of(&emit_core(ssa, types, sig, bitness, switches, names))
}

} // verus!
