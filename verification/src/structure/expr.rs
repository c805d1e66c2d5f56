//! Expressions: operands and operations as text.

use vstd::prelude::*;
use pcode_ir::{AddressSpaceId, PcodeOp, Varnode};
use crate::lines::{join, join_items, replace, replace_lit};
use crate::maps::{lookup, TextMap};
use crate::normalize::{byte_test, is_byte_test};
use crate::numbers::{hex, hex_text, padded_hex, padded_hex_text, prefixed_hex, prefixed_hex_text, read_u64, read_unsigned};
use crate::pcode::{in_const, is_const, op_reads, op_view, reads_of, PcodeView};
use crate::ssa::lower::{reg_chars, reg_text};
use crate::ssa::reach::used_from;
use crate::ssa::{Location, PhiNode, SsaOp, SsaOpKind, SsaVar};
use crate::structure::names::{bare_symbol, name_of, name_text, slot_text, stack_slot_name, NameCtx, Names};
use crate::text::{chars_of, cut_prefix, cut_prefix_lit, deep, first_piece_lit, has, has_lit, new_items, push_item, push_lit, push_text, same, starts, starts_lit};

verus! {

broadcast use crate::text::lemma_deep_push;

// ─── Operands ───────────────────────────────────────────────────────────────

/// A value: its expression, or its name.
pub open spec fn value_text(v: SsaVar, inline: Map<SsaVar, Seq<char>>, names: Names, va: u64) -> Seq<char> {
    match lookup(inline, v) {
        Some(e) => e,
        None => name_text(v, names, va),
    }
}

/// The first of `uses` from `i` on that is the temporary `v` of the instruction.
pub open spec fn temporary_from(uses: Seq<SsaVar>, v: Varnode, va: u64, i: int) -> Option<SsaVar>
    decreases uses.len() - i,
{
    if i < 0 || i >= uses.len() {
        None
    } else if uses[i].location == (Location::Unique {
        instruction_va: va,
        offset: v.offset,
        size: v.size,
    }) {
        Some(uses[i])
    } else {
        temporary_from(uses, v, va, i + 1)
    }
}

/// The symbol names a string or a function.
pub open spec fn quotable(n: Seq<char>) -> bool {
    starts(n, "\""@) || starts(n, "sub_"@) || starts(n, "FUN_"@)
}

/// A constant: the string or function at that address, or the number.
pub open spec fn constant_text(value: u64, names: Names) -> Seq<char> {
    match lookup(names.globals, value) {
        Some(n) => if starts(n, "\""@) {
            n
        } else if quotable(bare_symbol(n)) {
            bare_symbol(n)
        } else {
            prefixed_hex(value as nat)
        },
        None => prefixed_hex(value as nat),
    }
}

/// Memory at a fixed address: its symbol, or the address.
pub open spec fn memory_text(va: u64, names: Names) -> Seq<char> {
    match lookup(names.globals, va) {
        Some(n) => if starts(n, "\""@) {
            n
        } else {
            bare_symbol(n)
        },
        None => "*0x"@ + hex(va as nat),
    }
}

/// An operand.
pub open spec fn operand_text(v: Varnode, uses: Seq<SsaVar>, inline: Map<SsaVar, Seq<char>>, names: Names, va: u64) -> Seq<char> {
    match v.space {
        AddressSpaceId::Const => constant_text(v.offset, names),
        AddressSpaceId::Register => match used_from(uses, v.offset, 0) {
            Some(u) => value_text(u, inline, names, va),
            None => reg_text(v.offset),
        },
        AddressSpaceId::Unique => match temporary_from(uses, v, va, 0) {
            Some(u) => value_text(u, inline, names, va),
            None => "t_"@ + hex(v.offset as nat),
        },
        AddressSpaceId::Ram => memory_text(v.offset, names),
    }
}

pub fn render_value(v: &SsaVar, inline: &TextMap, names: &NameCtx<'_>, va: u64) -> (r: Vec<char>)
    ensures
        r@ == value_text(*v, inline@, names@, va),
{
    match inline.get(v) {
        Some(e) => e,
        None => name_of(v, names, va),
    }
}

fn render_constant(value: u64, names: &NameCtx<'_>) -> (r: Vec<char>)
    ensures
        r@ == constant_text(value, names@),
{
    if let Some(n) = names.global(value) {
        if starts_lit(&n, "\"") {
            return n;
        }
        let bare = first_piece_lit(&n, ":");
        if starts_lit(&bare, "\"") || starts_lit(&bare, "sub_") || starts_lit(&bare, "FUN_") {
            return bare;
        }
    }
    prefixed_hex_text(value)
}

fn render_memory(va: u64, names: &NameCtx<'_>) -> (r: Vec<char>)
    ensures
        r@ == memory_text(va, names@),
{
    if let Some(n) = names.global(va) {
        if starts_lit(&n, "\"") {
            return n;
        }
        return first_piece_lit(&n, ":");
    }
    let mut t = chars_of("*0x");
    push_text(&mut t, &hex_text(va));
    t
}

pub fn find_register(uses: &Vec<SsaVar>, reg: u64) -> (r: Option<SsaVar>)
    ensures
        r == used_from(uses@, reg, 0),
{
    let mut i: usize = 0;
    while i < uses.len()
        invariant
            i <= uses@.len(),
            used_from(uses@, reg, i as int) == used_from(uses@, reg, 0),
        decreases uses@.len() - i,
    {
        let v = uses[i];
        if v.location == (Location::Register { base_offset: reg }) {
            return Some(v);
        }
        i += 1;
    }
    None
}

fn find_temporary(uses: &Vec<SsaVar>, v: Varnode, va: u64) -> (r: Option<SsaVar>)
    ensures
        r == temporary_from(uses@, v, va, 0),
{
    let mut i: usize = 0;
    while i < uses.len()
        invariant
            i <= uses@.len(),
            temporary_from(uses@, v, va, i as int) == temporary_from(uses@, v, va, 0),
        decreases uses@.len() - i,
    {
        let u = uses[i];
        if u.location == (Location::Unique {
            instruction_va: va,
            offset: v.offset,
            size: v.size,
        }) {
            return Some(u);
        }
        i += 1;
    }
    None
}

pub fn render_varnode(v: Varnode, uses: &Vec<SsaVar>, inline: &TextMap, names: &NameCtx<'_>, va: u64) -> (r: Vec<char>)
    ensures
        r@ == operand_text(v, uses@, inline@, names@, va),
{
    match v.space {
        AddressSpaceId::Const => render_constant(v.offset, names),
        AddressSpaceId::Register => match find_register(uses, v.offset) {
            Some(u) => render_value(&u, inline, names, va),
            None => reg_chars(v.offset),
        },
        AddressSpaceId::Unique => match find_temporary(uses, v, va) {
            Some(u) => render_value(&u, inline, names, va),
            None => {
                let mut t = chars_of("t_");
                push_text(&mut t, &hex_text(v.offset));
                t
            },
        },
        AddressSpaceId::Ram => render_memory(v.offset, names),
    }
}

// ─── Comparison operands ────────────────────────────────────────────────────

/// The value is a one-byte temporary.
pub open spec fn tiny(v: SsaVar) -> bool {
    v.location matches Location::Unique { size: 1, .. }
}

/// The expression of the value probes a character.
pub open spec fn probes_char(v: SsaVar, inline: Map<SsaVar, Seq<char>>) -> bool {
    match lookup(inline, v) {
        Some(e) => has(e, "*(char"@) || has(e, "char *"@) || has(e, "uint8"@),
        None => false,
    }
}

/// The value is a byte, or its expression reads one.
pub open spec fn reads_byte(v: SsaVar, inline: Map<SsaVar, Seq<char>>) -> bool {
    tiny(v) || match lookup(inline, v) {
        Some(e) => has(e, "char"@) || has(e, "uint8"@) || has(e, "*(mem"@),
        None => false,
    }
}

/// The expressions of the first `n` uses that have one.
pub open spec fn expressions(uses: Seq<SsaVar>, inline: Map<SsaVar, Seq<char>>, n: int) -> Seq<Seq<char>>
    decreases n,
{
    if n <= 0 {
        Seq::empty()
    } else {
        match lookup(inline, uses[n - 1]) {
            Some(e) => expressions(uses, inline, n - 1).push(e),
            None => expressions(uses, inline, n - 1),
        }
    }
}

/// A zero beside these uses is the null character.
pub open spec fn null_character(size: u32, uses: Seq<SsaVar>, inline: Map<SsaVar, Seq<char>>) -> bool {
    let beside = join(expressions(uses, inline, uses.len() as int), " "@);
    let small = size <= 1 || exists|i: int| 0 <= i < uses.len() && #[trigger] tiny(uses[i]);
    ||| byte_test(beside)
    ||| exists|i: int| 0 <= i < uses.len() && #[trigger] probes_char(uses[i], inline)
    ||| small && has(beside, "&"@)
    ||| small && beside.len() > 0 && exists|i: int|
        0 <= i < uses.len() && #[trigger] reads_byte(uses[i], inline)
}

/// An operand of a comparison: a zero may be the null character.
pub open spec fn compared_text(v: Varnode, uses: Seq<SsaVar>, inline: Map<SsaVar, Seq<char>>, names: Names, va: u64) -> Seq<char> {
    if is_const(v) && v.offset == 0 && null_character(v.size, uses, inline) {
        "'\\0'"@
    } else {
        operand_text(v, uses, inline, names, va)
    }
}

fn render_expressions(uses: &Vec<SsaVar>, inline: &TextMap) -> (r: Vec<Vec<char>>)
    ensures
        deep(r@) == expressions(uses@, inline@, uses@.len() as int),
{
    let mut r = new_items();
    let mut i: usize = 0;
    while i < uses.len()
        invariant
            i <= uses@.len(),
            deep(r@) == expressions(uses@, inline@, i as int),
        decreases uses@.len() - i,
    {
        if let Some(e) = inline.get(&uses[i]) {
            push_item(&mut r, e);
        }
        i += 1;
    }
    r
}

fn any_tiny(uses: &Vec<SsaVar>) -> (r: bool)
    ensures
        r == exists|i: int| 0 <= i < uses@.len() && #[trigger] tiny(uses@[i]),
{
    let mut i: usize = 0;
    while i < uses.len()
        invariant
            i <= uses@.len(),
            forall|j: int| 0 <= j < i ==> !(#[trigger] tiny(uses@[j])),
        decreases uses@.len() - i,
    {
        if let Location::Unique { size, .. } = uses[i].location {
            if size == 1 {
                assert(tiny(uses@[i as int]));
                return true;
            }
        }
        i += 1;
    }
    false
}

fn any_probe(uses: &Vec<SsaVar>, inline: &TextMap) -> (r: bool)
    ensures
        r == exists|i: int| 0 <= i < uses@.len() && #[trigger] probes_char(uses@[i], inline@),
{
    let mut i: usize = 0;
    while i < uses.len()
        invariant
            i <= uses@.len(),
            forall|j: int| 0 <= j < i ==> !(#[trigger] probes_char(uses@[j], inline@)),
        decreases uses@.len() - i,
    {
        if let Some(e) = inline.get(&uses[i]) {
            if has_lit(&e, "*(char") || has_lit(&e, "char *") || has_lit(&e, "uint8") {
                assert(probes_char(uses@[i as int], inline@));
                return true;
            }
        }
        i += 1;
    }
    false
}

fn any_byte(uses: &Vec<SsaVar>, inline: &TextMap) -> (r: bool)
    ensures
        r == exists|i: int| 0 <= i < uses@.len() && #[trigger] reads_byte(uses@[i], inline@),
{
    let mut i: usize = 0;
    while i < uses.len()
        invariant
            i <= uses@.len(),
            forall|j: int| 0 <= j < i ==> !(#[trigger] reads_byte(uses@[j], inline@)),
        decreases uses@.len() - i,
    {
        if let Location::Unique { size, .. } = uses[i].location {
            if size == 1 {
                assert(reads_byte(uses@[i as int], inline@));
                return true;
            }
        }
        if let Some(e) = inline.get(&uses[i]) {
            if has_lit(&e, "char") || has_lit(&e, "uint8") || has_lit(&e, "*(mem") {
                assert(reads_byte(uses@[i as int], inline@));
                return true;
            }
        }
        i += 1;
    }
    false
}

fn is_null_character(size: u32, uses: &Vec<SsaVar>, inline: &TextMap) -> (r: bool)
    ensures
        r == null_character(size, uses@, inline@),
{
    let beside = join_items(&render_expressions(uses, inline), " ");
    if is_byte_test(&beside) || any_probe(uses, inline) {
        return true;
    }
    let small = size <= 1 || any_tiny(uses);
    if !small {
        return false;
    }
    has_lit(&beside, "&") || (beside.len() > 0 && any_byte(uses, inline))
}

pub fn render_compared(v: Varnode, uses: &Vec<SsaVar>, inline: &TextMap, names: &NameCtx<'_>, va: u64) -> (r: Vec<char>)
    ensures
        r@ == compared_text(v, uses@, inline@, names@, va),
{
    if in_const(&v) && v.offset == 0 && is_null_character(v.size, uses, inline) {
        return chars_of("'\\0'");
    }
    render_varnode(v, uses, inline, names, va)
}

// ─── Operations ─────────────────────────────────────────────────────────────

/// Two operands around an operator, in parentheses.
pub open spec fn paired(l: Seq<char>, op: Seq<char>, r: Seq<char>) -> Seq<char> {
    "("@ + l + op + r + ")"@
}

/// An operand behind a prefix.
pub open spec fn prefixed(prefix: Seq<char>, t: Seq<char>, suffix: Seq<char>) -> Seq<char> {
    prefix + t + suffix
}

/// The arguments of a phi, the first `n`.
pub open spec fn phi_names(args: Seq<Option<SsaVar>>, names: Names, va: u64, n: int) -> Seq<Seq<char>>
    decreases n,
{
    if n <= 0 {
        Seq::empty()
    } else {
        phi_names(args, names, va, n - 1).push(
            match args[n - 1] {
                Some(v) => name_text(v, names, va),
                None => "_"@,
            },
        )
    }
}

/// The first `n` operands that an operation reads.
pub open spec fn read_texts(reads: Seq<Varnode>, uses: Seq<SsaVar>, inline: Map<SsaVar, Seq<char>>, names: Names, va: u64, n: int) -> Seq<Seq<char>>
    decreases n,
{
    if n <= 0 {
        Seq::empty()
    } else {
        read_texts(reads, uses, inline, names, va, n - 1).push(
            operand_text(reads[n - 1], uses, inline, names, va),
        )
    }
}

/// The text that the derived `Debug` of `pcode_ir::PcodeOp` gives.
pub uninterp spec fn debug_of(op: PcodeView) -> Seq<char>;

/// Formats an operation with the derived `Debug` of `pcode_ir::PcodeOp`. The text
/// depends on the variant and its fields alone.
#[verifier::external_body]
fn debug_text(op: &PcodeOp) -> (r: String)
    ensures
        r@ == debug_of(op_view(*op)),
{
    format!("{:?}", op)
}

/// A load: through its first use.
pub open spec fn load_text(out: Varnode, uses: Seq<SsaVar>, inline: Map<SsaVar, Seq<char>>, names: Names, va: u64) -> Seq<char> {
    if uses.len() == 0 {
        "*(/*ptr*/)"@
    } else {
        let ptr = match uses[0].location {
            Location::StackSlot { disp, .. } => slot_text(disp, names),
            _ => value_text(uses[0], inline, names, va),
        };
        if out.size == 1 {
            prefixed("*(char *)("@, ptr, ")"@)
        } else {
            prefixed("*("@, ptr, ")"@)
        }
    }
}

/// What is known of an operation, in a comment, and what it reads.
pub open spec fn commented_reads(known: Seq<char>, reads: Seq<Varnode>, uses: Seq<SsaVar>, inline: Map<SsaVar, Seq<char>>, names: Names, va: u64) -> Seq<char> {
    "/*("@ + known + ")*/ "@ + join(read_texts(reads, uses, inline, names, va, reads.len() as int), ","@)
}

/// An operation without a form of its own: its debug text and what it reads.
pub open spec fn opaque_text(p: PcodeOp, uses: Seq<SsaVar>, inline: Map<SsaVar, Seq<char>>, names: Names, va: u64) -> Seq<char> {
    commented_reads(debug_of(op_view(p)), op_reads(p), uses, inline, names, va)
}

/// An operation as an expression.
pub open spec fn op_text(op: SsaOp, inline: Map<SsaVar, Seq<char>>, names: Names) -> Seq<char> {
    let uses = op.uses@;
    match op.kind {
        SsaOpKind::Phi(phi) => "phi("@ + join(
            phi_names(phi.args@, names, op.va, phi.args@.len() as int),
            ", "@,
        ) + ")"@,
        SsaOpKind::Pcode(p) => match p {
            PcodeOp::Copy { input, .. } => operand_text(input, uses, inline, names, op.va),
            PcodeOp::IntAdd { left, right, .. } => paired(
                operand_text(left, uses, inline, names, op.va),
                " + "@,
                operand_text(right, uses, inline, names, op.va),
            ),
            PcodeOp::IntSub { left, right, .. } => paired(
                operand_text(left, uses, inline, names, op.va),
                " - "@,
                operand_text(right, uses, inline, names, op.va),
            ),
            PcodeOp::IntMult { left, right, .. } => paired(
                operand_text(left, uses, inline, names, op.va),
                " * "@,
                operand_text(right, uses, inline, names, op.va),
            ),
            PcodeOp::IntOr { left, right, .. } => paired(
                operand_text(left, uses, inline, names, op.va),
                " | "@,
                operand_text(right, uses, inline, names, op.va),
            ),
            PcodeOp::IntXor { left, right, .. } => paired(
                operand_text(left, uses, inline, names, op.va),
                " ^ "@,
                operand_text(right, uses, inline, names, op.va),
            ),
            PcodeOp::IntLsl { left, right, .. } => paired(
                operand_text(left, uses, inline, names, op.va),
                " << "@,
                operand_text(right, uses, inline, names, op.va),
            ),
            PcodeOp::IntLsr { left, right, .. } => paired(
                operand_text(left, uses, inline, names, op.va),
                " >> "@,
                operand_text(right, uses, inline, names, op.va),
            ),
            PcodeOp::IntEq { left, right, .. } => paired(
                compared_text(left, uses, inline, names, op.va),
                " == "@,
                compared_text(right, uses, inline, names, op.va),
            ),
            PcodeOp::IntNotEq { left, right, .. } => paired(
                compared_text(left, uses, inline, names, op.va),
                " != "@,
                compared_text(right, uses, inline, names, op.va),
            ),
            PcodeOp::IntLess { left, right, .. } => paired(
                operand_text(left, uses, inline, names, op.va),
                " < "@,
                operand_text(right, uses, inline, names, op.va),
            ),
            PcodeOp::IntLessEq { left, right, .. } => paired(
                operand_text(left, uses, inline, names, op.va),
                " <= "@,
                operand_text(right, uses, inline, names, op.va),
            ),
            PcodeOp::IntSLess { left, right, .. } => paired(
                compared_text(left, uses, inline, names, op.va),
                " < "@,
                compared_text(right, uses, inline, names, op.va),
            ),
            PcodeOp::IntSLessEq { left, right, .. } => paired(
                compared_text(left, uses, inline, names, op.va),
                " <= "@,
                compared_text(right, uses, inline, names, op.va),
            ),
            PcodeOp::IntSBorrow { left, right, .. } => paired(
                compared_text(left, uses, inline, names, op.va),
                " < "@,
                compared_text(right, uses, inline, names, op.va),
            ),
            PcodeOp::IntAnd { left, right, .. } => {
                let l = operand_text(left, uses, inline, names, op.va);
                let r = operand_text(right, uses, inline, names, op.va);
                if l == r {
                    l
                } else {
                    paired(l, " & "@, r)
                }
            },
            PcodeOp::IntNeg { input, .. } => prefixed(
                "(-"@,
                operand_text(input, uses, inline, names, op.va),
                ")"@,
            ),
            PcodeOp::IntNot { input, .. } => prefixed(
                "(~"@,
                operand_text(input, uses, inline, names, op.va),
                ")"@,
            ),
            PcodeOp::BoolNot { input, .. } => prefixed(
                "(!"@,
                operand_text(input, uses, inline, names, op.va),
                ")"@,
            ),
            PcodeOp::Load { out, .. } => load_text(out, uses, inline, names, op.va),
            PcodeOp::IntZext { input, .. } | PcodeOp::IntSext { input, .. } => "(u64)"@ + operand_text(
                input,
                uses,
                inline,
                names,
                op.va,
            ),
            PcodeOp::Subpiece { input, .. } => "(u32)"@ + operand_text(
                input,
                uses,
                inline,
                names,
                op.va,
            ),
            _ => opaque_text(p, uses, inline, names, op.va),
        },
    }
}

fn pair(l: &Vec<char>, op: &str, r: &Vec<char>) -> (t: Vec<char>)
    ensures
        t@ == paired(l@, op@, r@),
{
    let mut t = chars_of("(");
    push_text(&mut t, l);
    push_lit(&mut t, op);
    push_text(&mut t, r);
    push_lit(&mut t, ")");
    t
}

fn prefix_with(prefix: &str, x: &Vec<char>, suffix: &str) -> (t: Vec<char>)
    ensures
        t@ == prefixed(prefix@, x@, suffix@),
{
    let mut t = chars_of(prefix);
    push_text(&mut t, x);
    push_lit(&mut t, suffix);
    t
}

fn cast_text(prefix: &str, x: &Vec<char>) -> (t: Vec<char>)
    ensures
        t@ == prefix@ + x@,
{
    let mut t = chars_of(prefix);
    push_text(&mut t, x);
    t
}

fn render_phi(phi: &PhiNode, names: &NameCtx<'_>, va: u64) -> (r: Vec<char>)
    ensures
        r@ == "phi("@ + join(phi_names(phi.args@, names@, va, phi.args@.len() as int), ", "@) + ")"@,
{
    let mut items = new_items();
    let mut i: usize = 0;
    while i < phi.args.len()
        invariant
            i <= phi.args@.len(),
            deep(items@) == phi_names(phi.args@, names@, va, i as int),
        decreases phi.args@.len() - i,
    {
        let item = match phi.args[i] {
            Some(v) => name_of(&v, names, va),
            None => chars_of("_"),
        };
        push_item(&mut items, item);
        i += 1;
    }
    prefix_with("phi(", &join_items(&items, ", "), ")")
}

fn render_load(out: &Varnode, uses: &Vec<SsaVar>, inline: &TextMap, names: &NameCtx<'_>, va: u64) -> (r: Vec<char>)
    ensures
        r@ == load_text(*out, uses@, inline@, names@, va),
{
    if uses.len() == 0 {
        return chars_of("*(/*ptr*/)");
    }
    let u = uses[0];
    let ptr = match u.location {
        Location::StackSlot { disp, .. } => stack_slot_name(disp, names),
        _ => render_value(&u, inline, names, va),
    };
    if out.size == 1 {
        prefix_with("*(char *)(", &ptr, ")")
    } else {
        prefix_with("*(", &ptr, ")")
    }
}

/// Prints what is known of an operation in a comment, and what it reads behind it.
pub fn render_commented(known: &str, reads: &Vec<Varnode>, uses: &Vec<SsaVar>, inline: &TextMap, names: &NameCtx<'_>, va: u64) -> (r: Vec<char>)
    ensures
        r@ == commented_reads(known@, reads@, uses@, inline@, names@, va),
{
    let mut items = new_items();
    let mut i: usize = 0;
    while i < reads.len()
        invariant
            i <= reads@.len(),
            deep(items@) == read_texts(reads@, uses@, inline@, names@, va, i as int),
        decreases reads@.len() - i,
    {
        push_item(&mut items, render_varnode(reads[i], uses, inline, names, va));
        i += 1;
    }
    let mut t = chars_of("/*(");
    push_lit(&mut t, known);
    push_lit(&mut t, ")*/ ");
    push_text(&mut t, &join_items(&items, ","));
    t
}

fn render_opaque(p: &PcodeOp, uses: &Vec<SsaVar>, inline: &TextMap, names: &NameCtx<'_>, va: u64) -> (r: Vec<char>)
    ensures
        r@ == opaque_text(*p, uses@, inline@, names@, va),
{
    render_commented(debug_text(p).as_str(), &reads_of(p), uses, inline, names, va)
}

pub fn render_op_expr(op: &SsaOp, inline: &TextMap, names: &NameCtx<'_>) -> (r: Vec<char>)
    ensures
        r@ == op_text(*op, inline@, names@),
{
    let uses = &op.uses;
    match &op.kind {
        SsaOpKind::Phi(phi) => render_phi(phi, names, op.va),
        SsaOpKind::Pcode(PcodeOp::Copy { input, .. }) => render_varnode(
            *input,
            uses,
            inline,
            names,
            op.va,
        ),
        SsaOpKind::Pcode(PcodeOp::IntAdd { left, right, .. }) => pair(
            &render_varnode(*left, uses, inline, names, op.va),
            " + ",
            &render_varnode(*right, uses, inline, names, op.va),
        ),
        SsaOpKind::Pcode(PcodeOp::IntSub { left, right, .. }) => pair(
            &render_varnode(*left, uses, inline, names, op.va),
            " - ",
            &render_varnode(*right, uses, inline, names, op.va),
        ),
        SsaOpKind::Pcode(PcodeOp::IntMult { left, right, .. }) => pair(
            &render_varnode(*left, uses, inline, names, op.va),
            " * ",
            &render_varnode(*right, uses, inline, names, op.va),
        ),
        SsaOpKind::Pcode(PcodeOp::IntOr { left, right, .. }) => pair(
            &render_varnode(*left, uses, inline, names, op.va),
            " | ",
            &render_varnode(*right, uses, inline, names, op.va),
        ),
        SsaOpKind::Pcode(PcodeOp::IntXor { left, right, .. }) => pair(
            &render_varnode(*left, uses, inline, names, op.va),
            " ^ ",
            &render_varnode(*right, uses, inline, names, op.va),
        ),
        SsaOpKind::Pcode(PcodeOp::IntLsl { left, right, .. }) => pair(
            &render_varnode(*left, uses, inline, names, op.va),
            " << ",
            &render_varnode(*right, uses, inline, names, op.va),
        ),
        SsaOpKind::Pcode(PcodeOp::IntLsr { left, right, .. }) => pair(
            &render_varnode(*left, uses, inline, names, op.va),
            " >> ",
            &render_varnode(*right, uses, inline, names, op.va),
        ),
        SsaOpKind::Pcode(PcodeOp::IntEq { left, right, .. }) => pair(
            &render_compared(*left, uses, inline, names, op.va),
            " == ",
            &render_compared(*right, uses, inline, names, op.va),
        ),
        SsaOpKind::Pcode(PcodeOp::IntNotEq { left, right, .. }) => pair(
            &render_compared(*left, uses, inline, names, op.va),
            " != ",
            &render_compared(*right, uses, inline, names, op.va),
        ),
        SsaOpKind::Pcode(PcodeOp::IntLess { left, right, .. }) => pair(
            &render_varnode(*left, uses, inline, names, op.va),
            " < ",
            &render_varnode(*right, uses, inline, names, op.va),
        ),
        SsaOpKind::Pcode(PcodeOp::IntLessEq { left, right, .. }) => pair(
            &render_varnode(*left, uses, inline, names, op.va),
            " <= ",
            &render_varnode(*right, uses, inline, names, op.va),
        ),
        SsaOpKind::Pcode(PcodeOp::IntSLess { left, right, .. }) => pair(
            &render_compared(*left, uses, inline, names, op.va),
            " < ",
            &render_compared(*right, uses, inline, names, op.va),
        ),
        SsaOpKind::Pcode(PcodeOp::IntSLessEq { left, right, .. }) => pair(
            &render_compared(*left, uses, inline, names, op.va),
            " <= ",
            &render_compared(*right, uses, inline, names, op.va),
        ),
        SsaOpKind::Pcode(PcodeOp::IntSBorrow { left, right, .. }) => pair(
            &render_compared(*left, uses, inline, names, op.va),
            " < ",
            &render_compared(*right, uses, inline, names, op.va),
        ),
        SsaOpKind::Pcode(PcodeOp::IntAnd { left, right, .. }) => {
            let l = render_varnode(*left, uses, inline, names, op.va);
            let r = render_varnode(*right, uses, inline, names, op.va);
            if same(&l, &r) {
                l
            } else {
                pair(&l, " & ", &r)
            }
        },
        SsaOpKind::Pcode(PcodeOp::IntNeg { input, .. }) => prefix_with(
            "(-",
            &render_varnode(*input, uses, inline, names, op.va),
            ")",
        ),
        SsaOpKind::Pcode(PcodeOp::IntNot { input, .. }) => prefix_with(
            "(~",
            &render_varnode(*input, uses, inline, names, op.va),
            ")",
        ),
        SsaOpKind::Pcode(PcodeOp::BoolNot { input, .. }) => prefix_with(
            "(!",
            &render_varnode(*input, uses, inline, names, op.va),
            ")",
        ),
        SsaOpKind::Pcode(PcodeOp::Load { out, .. }) => render_load(
            out,
            uses,
            inline,
            names,
            op.va,
        ),
        SsaOpKind::Pcode(PcodeOp::IntZext { input, .. })
        | SsaOpKind::Pcode(PcodeOp::IntSext { input, .. }) => cast_text(
            "(u64)",
            &render_varnode(*input, uses, inline, names, op.va),
        ),
        SsaOpKind::Pcode(PcodeOp::Subpiece { input, .. }) => cast_text(
            "(u32)",
            &render_varnode(*input, uses, inline, names, op.va),
        ),
        SsaOpKind::Pcode(p) => render_opaque(p, uses, inline, names, op.va),
    }
}

// ─── Pointers and call targets ──────────────────────────────────────────────

/// The first stack slot among `uses` from `i` on.
pub open spec fn slot_from(uses: Seq<SsaVar>, i: int) -> Option<i64>
    decreases uses.len() - i,
{
    if i < 0 || i >= uses.len() {
        None
    } else {
        match uses[i].location {
            Location::StackSlot { disp, .. } => Some(disp),
            _ => slot_from(uses, i + 1),
        }
    }
}

/// The pointer of a store: a stack slot by name, and no raw stack-pointer register.
pub open spec fn pointer_text(v: Varnode, uses: Seq<SsaVar>, inline: Map<SsaVar, Seq<char>>, names: Names, va: u64) -> Seq<char> {
    match slot_from(uses, 0) {
        Some(disp) => slot_text(disp, names),
        None => replace(
            replace(
                replace(operand_text(v, uses, inline, names, va), "rsp"@, "fp"@),
                "esp"@,
                "fp"@,
            ),
            "sp_"@,
            "fp_"@,
        ),
    }
}

pub fn render_stack_ptr(v: Varnode, uses: &Vec<SsaVar>, inline: &TextMap, names: &NameCtx<'_>, va: u64) -> (r: Vec<char>)
    ensures
        r@ == pointer_text(v, uses@, inline@, names@, va),
{
    let mut i: usize = 0;
    while i < uses.len()
        invariant
            i <= uses@.len(),
            slot_from(uses@, i as int) == slot_from(uses@, 0),
        decreases uses@.len() - i,
    {
        if let Location::StackSlot { disp, .. } = uses[i].location {
            return stack_slot_name(disp, names);
        }
        i += 1;
    }
    let raw = render_varnode(v, uses, inline, names, va);
    replace_lit(&replace_lit(&replace_lit(&raw, "rsp", "fp"), "esp", "fp"), "sp_", "fp_")
}

/// A function's symbol, with generated names in their usual form.
pub open spec fn function_symbol(n: Seq<char>) -> Seq<char> {
    match cut_prefix(bare_symbol(n), "sub_"@) {
        Some(rest) => "FUN_"@ + rest,
        None => bare_symbol(n),
    }
}

/// The function at an address.
pub open spec fn function_text(va: u64, names: Names) -> Seq<char> {
    match lookup(names.globals, va) {
        Some(n) => function_symbol(n),
        None => "FUN_"@ + padded_hex(va as nat),
    }
}

/// The target of a call.
pub open spec fn target_text(dest: Varnode, uses: Seq<SsaVar>, inline: Map<SsaVar, Seq<char>>, names: Names, va: u64) -> Seq<char> {
    match dest.space {
        AddressSpaceId::Const | AddressSpaceId::Ram => function_text(dest.offset, names),
        _ => {
            let t = operand_text(dest, uses, inline, names, va);
            match cut_prefix(t, "sub_"@) {
                Some(rest) => "FUN_"@ + rest,
                None => match cut_prefix(t, "*0x"@) {
                    Some(rest) => match read_unsigned(rest, 16) {
                        Some(n) => function_text(n as u64, names),
                        None => t,
                    },
                    None => t,
                },
            }
        },
    }
}

fn render_function(va: u64, names: &NameCtx<'_>) -> (r: Vec<char>)
    ensures
        r@ == function_text(va, names@),
{
    match names.global(va) {
        Some(n) => {
            let bare = first_piece_lit(&n, ":");
            match cut_prefix_lit(&bare, "sub_") {
                Some(rest) => cast_text("FUN_", &rest),
                None => bare,
            }
        },
        None => cast_text("FUN_", &padded_hex_text(va)),
    }
}

pub fn render_call_target(dest: Varnode, uses: &Vec<SsaVar>, inline: &TextMap, names: &NameCtx<'_>, va: u64) -> (r: Vec<char>)
    ensures
        r@ == target_text(dest, uses@, inline@, names@, va),
{
    match dest.space {
        AddressSpaceId::Const | AddressSpaceId::Ram => render_function(dest.offset, names),
        _ => {
            let t = render_varnode(dest, uses, inline, names, va);
            if let Some(rest) = cut_prefix_lit(&t, "sub_") {
                return cast_text("FUN_", &rest);
            }
            if let Some(rest) = cut_prefix_lit(&t, "*0x") {
                if let Some(n) = read_u64(&rest, 16) {
                    return render_function(n, names);
                }
            }
            t
        },
    }
}

} // verus!
