//! What printed expressions mean.
//!
//! A small tree stands for the form of an expression. It has a text, as C would write it, and
//! a value, where its atoms have values.

use vstd::prelude::*;
use pcode_ir::{PcodeOp, Varnode};
use vstd::arithmetic::div_mod::{lemma_mod_add_multiples_vanish, lemma_mod_twice};
use vstd::arithmetic::power2::{lemma2_to64, lemma_pow2_pos, pow2};
use crate::maps::lookup;
use crate::numbers::{law_numbers_read_back, digits_value, hex, prefixed_hex};
use crate::ssa::reach::used_from;
use crate::ssa::{Location, SsaOp, SsaOpKind, SsaVar};
use crate::structure::expr::{compared_text, op_text, operand_text, temporary_from, value_text};
use crate::structure::names::{name_text, Names};

verus! {

/// An operator between two operands.
pub ghost enum Sign {
    Plus,
    Minus,
    Times,
    And,
    Or,
    Xor,
    ShiftLeft,
    ShiftRight,
    Equal,
    Unequal,
    Less,
    AtMost,
}

/// The form of an expression over atoms.
pub ghost enum Phrase {
    Atom(Seq<char>),
    Pair(Seq<char>, Sign, Seq<char>),
    Negative(Seq<char>),
    Complement(Seq<char>),
    Not(Seq<char>),
    /// A cast to 64 bits.
    Wide(Seq<char>),
    /// A cast to 32 bits.
    Narrow(Seq<char>),
    /// What a pointer points at.
    Target(Seq<char>),
    /// The byte that a pointer points at.
    Byte(Seq<char>),
}

/// How C writes an operator.
pub open spec fn spelled(s: Sign) -> Seq<char> {
    match s {
        Sign::Plus => "+"@,
        Sign::Minus => "-"@,
        Sign::Times => "*"@,
        Sign::And => "&"@,
        Sign::Or => "|"@,
        Sign::Xor => "^"@,
        Sign::ShiftLeft => "<<"@,
        Sign::ShiftRight => ">>"@,
        Sign::Equal => "=="@,
        Sign::Unequal => "!="@,
        Sign::Less => "<"@,
        Sign::AtMost => "<="@,
    }
}

/// How C writes an expression.
pub open spec fn written(p: Phrase) -> Seq<char> {
    match p {
        Phrase::Atom(t) => t,
        Phrase::Pair(l, s, r) => "("@ + l + " "@ + spelled(s) + " "@ + r + ")"@,
        Phrase::Negative(t) => "(-"@ + t + ")"@,
        Phrase::Complement(t) => "(~"@ + t + ")"@,
        Phrase::Not(t) => "(!"@ + t + ")"@,
        Phrase::Wide(t) => "(u64)"@ + t,
        Phrase::Narrow(t) => "(u32)"@ + t,
        Phrase::Target(t) => "*("@ + t + ")"@,
        Phrase::Byte(t) => "*(char *)("@ + t + ")"@,
    }
}

/// The truth of a condition as a number.
pub open spec fn flag(b: bool) -> int {
    if b {
        1
    } else {
        0
    }
}

/// The numbers that so many bytes hold.
pub open spec fn span(size: u32) -> int {
    pow2((8 * size) as nat) as int
}

/// A number of so many bytes, read with or without a sign.
pub open spec fn reading(a: u64, size: u32, signed: bool) -> int {
    if signed && 2 * a >= span(size) {
        a - span(size)
    } else {
        a as int
    }
}

/// How an expression is to be read: the bytes of its operands and whether they have a sign,
/// the bytes that a pointer points at, and memory.
pub ghost struct Typing {
    pub size: u32,
    pub signed: bool,
    pub pointee: u32,
    pub memory: spec_fn(u64, u32) -> u64,
}

/// The value of an expression, where `v` gives the values of its atoms.
pub open spec fn evaluate(p: Phrase, v: spec_fn(Seq<char>) -> u64, t: Typing) -> int {
    match p {
        Phrase::Atom(a) => v(a) as int,
        Phrase::Pair(l, s, r) => match s {
            Sign::Plus => v(l) + v(r),
            Sign::Minus => v(l) - v(r),
            Sign::Times => v(l) * v(r),
            Sign::And => (v(l) & v(r)) as int,
            Sign::Or => (v(l) | v(r)) as int,
            Sign::Xor => (v(l) ^ v(r)) as int,
            Sign::ShiftLeft => v(l) * pow2(v(r) as nat),
            Sign::ShiftRight => v(l) as int / pow2(v(r) as nat) as int,
            Sign::Equal => flag(v(l) == v(r)),
            Sign::Unequal => flag(v(l) != v(r)),
            Sign::Less => flag(reading(v(l), t.size, t.signed) < reading(v(r), t.size, t.signed)),
            Sign::AtMost => flag(reading(v(l), t.size, t.signed) <= reading(v(r), t.size, t.signed)),
        },
        Phrase::Negative(a) => -(v(a) as int),
        Phrase::Complement(a) => -(v(a) as int) - 1,
        Phrase::Not(a) => flag(v(a) == 0),
        Phrase::Wide(a) => reading(v(a), t.size, t.signed),
        Phrase::Narrow(a) => v(a) as int % 0x1_0000_0000,
        Phrase::Target(a) => (t.memory)(v(a), t.pointee) as int,
        Phrase::Byte(a) => (t.memory)(v(a), 1) as int,
    }
}

/// What a P-code operation computes from its operands: the result, and the bytes of the result.
/// An operation that changes something other than its output computes nothing here.
pub open spec fn computed(p: PcodeOp, x: spec_fn(Varnode) -> u64, memory: spec_fn(u64, u32) -> u64) -> Option<(int, u32)> {
    match p {
        PcodeOp::Copy { out, input } => Some((x(input) as int, out.size)),
        PcodeOp::IntAdd { out, left, right } => Some((x(left) + x(right), out.size)),
        PcodeOp::IntSub { out, left, right } => Some((x(left) - x(right), out.size)),
        PcodeOp::IntMult { out, left, right } => Some((x(left) * x(right), out.size)),
        PcodeOp::IntAnd { out, left, right } => Some(((x(left) & x(right)) as int, out.size)),
        PcodeOp::IntOr { out, left, right } => Some(((x(left) | x(right)) as int, out.size)),
        PcodeOp::IntXor { out, left, right } => Some(((x(left) ^ x(right)) as int, out.size)),
        PcodeOp::IntLsl { out, left, right } => Some((x(left) * pow2(x(right) as nat), out.size)),
        PcodeOp::IntLsr { out, left, right } => Some((x(left) as int / pow2(x(right) as nat) as int, out.size)),
        PcodeOp::IntEq { out, left, right } => Some((flag(x(left) == x(right)), out.size)),
        PcodeOp::IntNotEq { out, left, right } => Some((flag(!(x(left) == x(right))), out.size)),
        PcodeOp::IntLess { out, left, right } => Some((flag(x(left) < x(right)), out.size)),
        PcodeOp::IntLessEq { out, left, right } => Some((flag(x(left) <= x(right)), out.size)),
        PcodeOp::IntSLess { out, left, right } => Some(
            (flag(reading(x(left), left.size, true) < reading(x(right), left.size, true)), out.size),
        ),
        PcodeOp::IntSLessEq { out, left, right } => Some(
            (flag(reading(x(left), left.size, true) <= reading(x(right), left.size, true)), out.size),
        ),
        PcodeOp::IntNeg { out, input } => Some((0 - x(input), out.size)),
        PcodeOp::IntNot { out, input } => Some((span(out.size) - 1 - x(input), out.size)),
        PcodeOp::BoolNot { out, input } => Some((1 - flag(x(input) != 0), out.size)),
        PcodeOp::IntZext { out, input } => Some((x(input) as int, out.size)),
        PcodeOp::IntSext { out, input } => Some((reading(x(input), input.size, true), out.size)),
        PcodeOp::Subpiece { out, input, lsb } => if lsb == 0 && out.size == 4 {
            Some((x(input) as int, out.size))
        } else {
            None
        },
        PcodeOp::Load { out, ptr, .. } => Some((memory(x(ptr), out.size) as int, out.size)),
        _ => None,
    }
}

/// The bytes of the operands of an operation, and whether it reads a sign.
pub open spec fn typing(p: PcodeOp, memory: spec_fn(u64, u32) -> u64) -> Typing {
    match p {
        PcodeOp::IntSLess { left, .. } => Typing { size: left.size, signed: true, pointee: 0, memory },
        PcodeOp::IntSLessEq { left, .. } => Typing { size: left.size, signed: true, pointee: 0, memory },
        PcodeOp::IntSext { input, .. } => Typing { size: input.size, signed: true, pointee: 0, memory },
        PcodeOp::Load { out, .. } => Typing { size: 8, signed: false, pointee: out.size, memory },
        _ => Typing { size: 8, signed: false, pointee: 0, memory },
    }
}

/// `v` gives the texts of the operands the values that `x` gives the operands. Constants have
/// their values, and the null character is zero.
pub open spec fn agrees(op: SsaOp, inline: Map<SsaVar, Seq<char>>, names: Names, v: spec_fn(Seq<char>) -> u64, x: spec_fn(Varnode) -> u64) -> bool {
    &&& forall|n: Varnode| #[trigger] x(n) == v(operand_text(n, op.uses@, inline, names, op.va))
    &&& forall|n: Varnode| n.space is Const ==> #[trigger] x(n) == n.offset
    &&& v("'\\0'"@) == 0
    &&& op.kind matches SsaOpKind::Pcode(PcodeOp::Load { ptr, .. }) ==> op.uses@.len() > 0 && !(op.uses@[0].location is StackSlot)
        && x(ptr) == v(value_text(op.uses@[0], inline, names, op.va))
}

/// The text prints an expression that has the value of the operation, for all values of the
/// operands.
pub open spec fn expresses(op: SsaOp, inline: Map<SsaVar, Seq<char>>, names: Names, p: PcodeOp, ph: Phrase) -> bool {
    &&& written(ph) == op_text(op, inline, names)
    &&& forall|v: spec_fn(Seq<char>) -> u64, x: spec_fn(Varnode) -> u64, memory: spec_fn(u64, u32) -> u64|
        #![trigger agrees(op, inline, names, v, x), computed(p, x, memory)]
        agrees(op, inline, names, v, x) ==> (computed(p, x, memory) matches Some((result, size)) ==> evaluate(
            ph,
            v,
            typing(p, memory),
        ) % span(size) == result % span(size))
}

/// The form in which an operation is printed.
pub open spec fn form_of(op: SsaOp, inline: Map<SsaVar, Seq<char>>, names: Names, p: PcodeOp) -> Phrase {
    let text = |n: Varnode| operand_text(n, op.uses@, inline, names, op.va);
    let side = |n: Varnode| compared_text(n, op.uses@, inline, names, op.va);
    match p {
        PcodeOp::IntAdd { left, right, .. } => Phrase::Pair(text(left), Sign::Plus, text(right)),
        PcodeOp::IntSub { left, right, .. } => Phrase::Pair(text(left), Sign::Minus, text(right)),
        PcodeOp::IntMult { left, right, .. } => Phrase::Pair(text(left), Sign::Times, text(right)),
        PcodeOp::IntAnd { left, right, .. } => if text(left) == text(right) {
            Phrase::Atom(text(left))
        } else {
            Phrase::Pair(text(left), Sign::And, text(right))
        },
        PcodeOp::IntOr { left, right, .. } => Phrase::Pair(text(left), Sign::Or, text(right)),
        PcodeOp::IntXor { left, right, .. } => Phrase::Pair(text(left), Sign::Xor, text(right)),
        PcodeOp::IntLsl { left, right, .. } => Phrase::Pair(text(left), Sign::ShiftLeft, text(right)),
        PcodeOp::IntLsr { left, right, .. } => Phrase::Pair(text(left), Sign::ShiftRight, text(right)),
        PcodeOp::IntEq { left, right, .. } => Phrase::Pair(side(left), Sign::Equal, side(right)),
        PcodeOp::IntNotEq { left, right, .. } => Phrase::Pair(side(left), Sign::Unequal, side(right)),
        PcodeOp::IntLess { left, right, .. } => Phrase::Pair(text(left), Sign::Less, text(right)),
        PcodeOp::IntLessEq { left, right, .. } => Phrase::Pair(text(left), Sign::AtMost, text(right)),
        PcodeOp::IntSLess { left, right, .. } => Phrase::Pair(side(left), Sign::Less, side(right)),
        PcodeOp::IntSLessEq { left, right, .. } => Phrase::Pair(side(left), Sign::AtMost, side(right)),
        PcodeOp::IntNeg { input, .. } => Phrase::Negative(text(input)),
        PcodeOp::IntNot { input, .. } => Phrase::Complement(text(input)),
        PcodeOp::BoolNot { input, .. } => Phrase::Not(text(input)),
        PcodeOp::IntZext { input, .. } => Phrase::Wide(text(input)),
        PcodeOp::IntSext { input, .. } => Phrase::Wide(text(input)),
        PcodeOp::Subpiece { input, .. } => Phrase::Narrow(text(input)),
        PcodeOp::Load { out, .. } => if op.uses@.len() > 0 && !(op.uses@[0].location is StackSlot) {
            if out.size == 1 {
                Phrase::Byte(value_text(op.uses@[0], inline, names, op.va))
            } else {
                Phrase::Target(value_text(op.uses@[0], inline, names, op.va))
            }
        } else {
            Phrase::Atom(op_text(op, inline, names))
        },
        _ => Phrase::Atom(op_text(op, inline, names)),
    }
}

proof fn lemma_spelling(s: Sign, l: Seq<char>, r: Seq<char>)
    ensures
        written(Phrase::Pair(l, s, r)) == "("@ + l + (match s {
            Sign::Plus => " + "@,
            Sign::Minus => " - "@,
            Sign::Times => " * "@,
            Sign::And => " & "@,
            Sign::Or => " | "@,
            Sign::Xor => " ^ "@,
            Sign::ShiftLeft => " << "@,
            Sign::ShiftRight => " >> "@,
            Sign::Equal => " == "@,
            Sign::Unequal => " != "@,
            Sign::Less => " < "@,
            Sign::AtMost => " <= "@,
        }) + r + ")"@,
{
    reveal_strlit(" ");
    reveal_strlit("+");
    reveal_strlit("-");
    reveal_strlit("*");
    reveal_strlit("&");
    reveal_strlit("|");
    reveal_strlit("^");
    reveal_strlit("<<");
    reveal_strlit(">>");
    reveal_strlit("==");
    reveal_strlit("!=");
    reveal_strlit("<");
    reveal_strlit("<=");
    reveal_strlit(" + ");
    reveal_strlit(" - ");
    reveal_strlit(" * ");
    reveal_strlit(" & ");
    reveal_strlit(" | ");
    reveal_strlit(" ^ ");
    reveal_strlit(" << ");
    reveal_strlit(" >> ");
    reveal_strlit(" == ");
    reveal_strlit(" != ");
    reveal_strlit(" < ");
    reveal_strlit(" <= ");
    let mid = match s {
        Sign::Plus => " + "@,
        Sign::Minus => " - "@,
        Sign::Times => " * "@,
        Sign::And => " & "@,
        Sign::Or => " | "@,
        Sign::Xor => " ^ "@,
        Sign::ShiftLeft => " << "@,
        Sign::ShiftRight => " >> "@,
        Sign::Equal => " == "@,
        Sign::Unequal => " != "@,
        Sign::Less => " < "@,
        Sign::AtMost => " <= "@,
    };
    assert(" "@ + spelled(s) + " "@ =~= mid);
    assert("("@ + l + " "@ + spelled(s) + " "@ + r + ")"@ =~= "("@ + l + (" "@ + spelled(s) + " "@) + r + ")"@);
}

proof fn lemma_written(op: SsaOp, inline: Map<SsaVar, Seq<char>>, names: Names, p: PcodeOp)
    requires
        op.kind == SsaOpKind::Pcode(p),
    ensures
        written(form_of(op, inline, names, p)) == op_text(op, inline, names),
{
    let ph = form_of(op, inline, names, p);
    if let Phrase::Pair(l, s, r) = ph {
        lemma_spelling(s, l, r);
    }
}

proof fn lemma_side(op: SsaOp, inline: Map<SsaVar, Seq<char>>, names: Names, v: spec_fn(Seq<char>) -> u64, x: spec_fn(Varnode) -> u64, n: Varnode)
    requires
        agrees(op, inline, names, v, x),
    ensures
        v(operand_text(n, op.uses@, inline, names, op.va)) == x(n),
        v(compared_text(n, op.uses@, inline, names, op.va)) == x(n),
{
    assert(x(n) == v(operand_text(n, op.uses@, inline, names, op.va)));
}

proof fn lemma_and_self(a: u64)
    ensures
        a & a == a,
{
    assert(a & a == a) by (bit_vector);
}

proof fn lemma_span(size: u32)
    ensures
        span(size) > 0,
        span(4) == 0x1_0000_0000,
{
    lemma_pow2_pos((8 * size) as nat);
    lemma2_to64();
}

proof fn lemma_value(op: SsaOp, inline: Map<SsaVar, Seq<char>>, names: Names, p: PcodeOp, v: spec_fn(Seq<char>) -> u64, x: spec_fn(Varnode) -> u64, memory: spec_fn(u64, u32) -> u64)
    requires
        op.kind == SsaOpKind::Pcode(p),
        agrees(op, inline, names, v, x),
        computed(p, x, memory) is Some,
    ensures
        ({
            let (result, size) = computed(p, x, memory)->0;
            evaluate(form_of(op, inline, names, p), v, typing(p, memory)) % span(size) == result % span(size)
        }),
{
    let (result, size) = computed(p, x, memory)->0;
    lemma_span(size);
    match p {
        PcodeOp::IntAdd { left, right, .. }
        | PcodeOp::IntSub { left, right, .. }
        | PcodeOp::IntMult { left, right, .. }
        | PcodeOp::IntAnd { left, right, .. }
        | PcodeOp::IntOr { left, right, .. }
        | PcodeOp::IntXor { left, right, .. }
        | PcodeOp::IntLsl { left, right, .. }
        | PcodeOp::IntLsr { left, right, .. }
        | PcodeOp::IntEq { left, right, .. }
        | PcodeOp::IntNotEq { left, right, .. }
        | PcodeOp::IntLess { left, right, .. }
        | PcodeOp::IntLessEq { left, right, .. }
        | PcodeOp::IntSLess { left, right, .. }
        | PcodeOp::IntSLessEq { left, right, .. } => {
            lemma_side(op, inline, names, v, x, left);
            lemma_side(op, inline, names, v, x, right);
            lemma_and_self(x(left));
        },
        PcodeOp::Copy { input, .. }
        | PcodeOp::IntNeg { input, .. }
        | PcodeOp::BoolNot { input, .. }
        | PcodeOp::IntZext { input, .. }
        | PcodeOp::IntSext { input, .. }
        | PcodeOp::Subpiece { input, .. } => {
            lemma_side(op, inline, names, v, x, input);
            lemma_mod_twice(x(input) as int, 0x1_0000_0000);
        },
        PcodeOp::IntNot { input, out } => {
            lemma_side(op, inline, names, v, x, input);
            lemma_mod_add_multiples_vanish(-(x(input) as int) - 1, span(out.size));
        },
        _ => {},
    }
}

/// The text of an operation prints an expression whose value is what the operation computes
/// from the values of its operands, modulo the size of the result. The text of a subtraction,
/// where the left operand is `a` and the right one `b`, has the value `a - b`.
pub proof fn law_text_has_the_value(op: SsaOp, inline: Map<SsaVar, Seq<char>>, names: Names, p: PcodeOp)
    requires
        op.kind == SsaOpKind::Pcode(p),
    ensures
        exists|ph: Phrase| #[trigger] expresses(op, inline, names, p, ph),
{
    let ph = form_of(op, inline, names, p);
    lemma_written(op, inline, names, p);
    assert forall|v: spec_fn(Seq<char>) -> u64, x: spec_fn(Varnode) -> u64, memory: spec_fn(u64, u32) -> u64|
        #![trigger agrees(op, inline, names, v, x), computed(p, x, memory)]
        agrees(op, inline, names, v, x) implies (computed(p, x, memory) matches Some((result, size)) ==> evaluate(
        ph,
        v,
        typing(p, memory),
    ) % span(size) == result % span(size)) by {
        if computed(p, x, memory) is Some {
            lemma_value(op, inline, names, p, v, x, memory);
        }
    }
    assert(expresses(op, inline, names, p, ph));
}

// ─── Operands ───────────────────────────────────────────────────────────────

proof fn lemma_used(uses: Seq<SsaVar>, reg: u64, k: int, i: int)
    requires
        0 <= i <= k < uses.len(),
        uses[k].location == (Location::Register { base_offset: reg }),
        forall|j: int| i <= j < k ==> (#[trigger] uses[j]).location != (Location::Register { base_offset: reg }),
    ensures
        used_from(uses, reg, i) == Some(uses[k]),
    decreases k - i,
{
    if i < k {
        assert(uses[i].location != (Location::Register { base_offset: reg }));
        lemma_used(uses, reg, k, i + 1);
    }
}

proof fn lemma_temporary(uses: Seq<SsaVar>, n: Varnode, va: u64, k: int, i: int)
    requires
        0 <= i <= k < uses.len(),
        uses[k].location == (Location::Unique { instruction_va: va, offset: n.offset, size: n.size }),
        forall|j: int|
            i <= j < k ==> (#[trigger] uses[j]).location != (Location::Unique {
                instruction_va: va,
                offset: n.offset,
                size: n.size,
            }),
    ensures
        temporary_from(uses, n, va, i) == Some(uses[k]),
    decreases k - i,
{
    if i < k {
        assert(uses[i].location != (Location::Unique { instruction_va: va, offset: n.offset, size: n.size }));
        lemma_temporary(uses, n, va, k, i + 1);
    }
}

/// Where the operand is stored: a register, or a temporary of the instruction.
pub open spec fn storage(n: Varnode, va: u64) -> Location {
    if n.space is Register {
        Location::Register { base_offset: n.offset }
    } else {
        Location::Unique { instruction_va: va, offset: n.offset, size: n.size }
    }
}

/// An operand in a register or a temporary is printed as the first use that is stored there:
/// as its expression where it has one, else by its name.
pub proof fn law_operand_is_its_use(n: Varnode, uses: Seq<SsaVar>, inline: Map<SsaVar, Seq<char>>, names: Names, va: u64, k: int)
    requires
        n.space is Register || n.space is Unique,
        0 <= k < uses.len(),
        uses[k].location == storage(n, va),
        forall|j: int| 0 <= j < k ==> (#[trigger] uses[j]).location != storage(n, va),
    ensures
        inline.dom().contains(uses[k]) ==> operand_text(n, uses, inline, names, va) == inline[uses[k]],
        !inline.dom().contains(uses[k]) ==> operand_text(n, uses, inline, names, va) == name_text(uses[k], names, va),
{
    if n.space is Register {
        lemma_used(uses, n.offset, k, 0);
    } else {
        lemma_temporary(uses, n, va, k, 0);
    }
}

/// A constant that has no symbol is printed as its number: behind `0x` stand digits that read
/// as its value. Constants are the same text only if they are the same number.
pub proof fn law_constant_is_its_number(n: Varnode, m: Varnode, uses: Seq<SsaVar>, inline: Map<SsaVar, Seq<char>>, names: Names, va: u64)
    requires
        n.space is Const,
        m.space is Const,
        lookup(names.globals, n.offset) is None,
        lookup(names.globals, m.offset) is None,
    ensures
        ({
            let t = operand_text(n, uses, inline, names, va);
            &&& t.len() > 2
            &&& t[0] == '0'
            &&& t[1] == 'x'
            &&& digits_value(t.skip(2), 16) == Some(n.offset as int)
            &&& t == operand_text(m, uses, inline, names, va) ==> n.offset == m.offset
        }),
{
    reveal_strlit("0x");
    law_numbers_read_back(n.offset as nat, 0);
    law_numbers_read_back(m.offset as nat, 0);
    assert(prefixed_hex(n.offset as nat).skip(2) =~= hex(n.offset as nat));
    assert(prefixed_hex(m.offset as nat).skip(2) =~= hex(m.offset as nat));
}

} // verus!
