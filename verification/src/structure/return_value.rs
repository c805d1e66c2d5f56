//! The value that a return block gives back, as text.

use vstd::prelude::*;
use pcode_ir::{PcodeOp, Varnode};
use crate::lines::{byte_len, compact, compact_text, count, count_lit, is_text_lt, shorter_than, text_lt};
use crate::maps::{entries_map, lookup, TextMap};
use crate::normalize::{is_return_op, op_is_return};
use crate::numbers::{prefixed_hex, prefixed_hex_text};
use crate::pcode::{in_const, in_register, is_const, is_register, same_space};
use crate::ssa::reach::used_from;
use crate::ssa::{Location, SsaBlock, SsaFunction, SsaOp, SsaOpKind, SsaVar};
use crate::structure::expr::{find_register, op_text, operand_text, render_op_expr, render_value, render_varnode, value_text};
use crate::structure::names::{name_of, name_text, NameCtx, Names};
use crate::structure::predicate::{frame_arithmetic, guard_text, guarded, is_frame_epilogue_expr, normalize_text, normalized_class};
use crate::text::{after, before, chars_of, copy_text, find_any, find_any_lit, has, has_lit, lacks, opt_text, push_lit, push_text, same, starts, starts_lit, text_after, text_before};

verus! {

/// `v` is a value of the accumulator.
pub open spec fn in_rax(v: SsaVar) -> bool {
    v.location == Location::Register { base_offset: 0 }
}

fn is_rax(v: &SsaVar) -> (r: bool)
    ensures
        r == in_rax(*v),
{
    v.location == (Location::Register { base_offset: 0 })
}

/// The expression of a definition: as composed, as folded, or as its operation.
pub open spec fn composed(op: SsaOp, v: SsaVar, inline: Map<SsaVar, Seq<char>>, sink: Map<SsaVar, Seq<char>>, names: Names) -> Seq<char> {
    match lookup(sink, v) {
        Some(e) => e,
        None => match lookup(inline, v) {
            Some(e) => e,
            None => op_text(op, inline, names),
        },
    }
}

fn compose(op: &SsaOp, v: &SsaVar, inline: &TextMap, sink: &TextMap, names: &NameCtx<'_>) -> (r: Vec<char>)
    ensures
        r@ == composed(*op, *v, inline@, sink@, names@),
{
    if let Some(e) = sink.get(v) {
        return e;
    }
    if let Some(e) = inline.get(v) {
        return e;
    }
    render_op_expr(op, inline, names)
}

/// The expression of a value: as composed, as folded, or its name.
pub open spec fn composed_value(v: SsaVar, va: u64, inline: Map<SsaVar, Seq<char>>, sink: Map<SsaVar, Seq<char>>, names: Names) -> Seq<char> {
    match lookup(sink, v) {
        Some(e) => e,
        None => value_text(v, inline, names, va),
    }
}

fn compose_value(v: &SsaVar, va: u64, inline: &TextMap, sink: &TextMap, names: &NameCtx<'_>) -> (r: Vec<char>)
    ensures
        r@ == composed_value(*v, va, inline@, sink@, names@),
{
    if let Some(e) = sink.get(v) {
        return e;
    }
    render_value(v, inline, names, va)
}

/// The text holds a comma or a comparison.
pub open spec fn predicate_soup(e: Seq<char>) -> bool {
    has(e, ","@) || has(e, "=="@) || has(e, "!="@)
}

fn is_predicate_soup(e: &Vec<char>) -> (r: bool)
    ensures
        r == predicate_soup(e@),
{
    has_lit(e, ",") || has_lit(e, "==") || has_lit(e, "!=")
}

/// The text names the checksum mixing constant.
pub open spec fn mixes(e: Seq<char>) -> bool {
    has(e, "0x45d9"@) || has(e, "45d9f3b"@)
}

fn is_mixing(e: &Vec<char>) -> (r: bool)
    ensures
        r == mixes(e@),
{
    has_lit(e, "0x45d9") || has_lit(e, "45d9f3b")
}

// ─── Comparison with a constant ─────────────────────────────────────────────

/// What has been seen of a comparison that ends in the accumulator.
pub ghost struct Compared {
    pub last: Option<(Seq<char>, u64)>,
    pub from_flag: bool,
    pub defs: int,
}

/// The left side of a subtraction from which a constant beyond a byte is taken.
pub open spec fn large_difference(op: SsaOp, inline: Map<SsaVar, Seq<char>>, names: Names) -> Option<(Seq<char>, u64)> {
    match op.kind {
        SsaOpKind::Pcode(PcodeOp::IntSub { left, right, .. }) => {
            let lhs = operand_text(left, op.uses@, inline, names, op.va);
            if is_const(right) && right.offset > 0xff && lhs.len() > 0 && !frame_arithmetic(lhs) {
                Some((lhs, right.offset))
            } else {
                None
            }
        },
        _ => None,
    }
}

/// The operation is a subtraction into `v`.
pub open spec fn subtracts_into(op: SsaOp, v: Varnode) -> bool {
    match op.kind {
        SsaOpKind::Pcode(PcodeOp::IntSub { out, .. }) => out.space == v.space && out.offset == v.offset,
        _ => false,
    }
}

/// Position of the last subtraction into `v` among the `k` operations before `n`.
pub open spec fn subtraction_before(ops: Seq<SsaOp>, v: Varnode, n: int, k: nat) -> Option<int>
    decreases k,
{
    if k == 0 || n <= 0 {
        None
    } else if subtracts_into(ops[n - 1], v) {
        Some(n - 1)
    } else {
        subtraction_before(ops, v, n - 1, (k - 1) as nat)
    }
}

/// The subtraction writes outside the registers.
pub open spec fn hidden_difference(op: SsaOp) -> bool {
    match op.kind {
        SsaOpKind::Pcode(PcodeOp::IntSub { out, .. }) => !is_register(out),
        _ => false,
    }
}

/// The operand that operation `op` tests for zero into the zero flag.
pub open spec fn zero_tested(op: SsaOp) -> Option<Varnode> {
    match op.kind {
        SsaOpKind::Pcode(PcodeOp::IntEq { left, right, out }) => if is_register(out) && out.offset
            == 518 && is_const(right) && right.offset == 0 {
            Some(left)
        } else {
            None
        },
        _ => None,
    }
}

/// The operation copies a flag or a byte.
pub open spec fn copies_flag(op: SsaOp) -> bool {
    match op.kind {
        SsaOpKind::Pcode(PcodeOp::Copy { input, .. })
        | SsaOpKind::Pcode(PcodeOp::IntZext { input, .. }) => is_register(input) && (input.offset == 518
            || input.offset == 8 || (input.offset == 0 && input.size <= 1)),
        _ => false,
    }
}

/// What operation `i` adds.
pub open spec fn compare_step(ops: Seq<SsaOp>, i: int, st: Compared, inline: Map<SsaVar, Seq<char>>, names: Names) -> Compared {
    let op = ops[i];
    let a = if hidden_difference(op) && large_difference(op, inline, names) is Some {
        large_difference(op, inline, names)
    } else {
        st.last
    };
    let b = match zero_tested(op) {
        Some(v) => match subtraction_before(ops, v, i, 12) {
            Some(j) => if large_difference(ops[j], inline, names) is Some {
                large_difference(ops[j], inline, names)
            } else {
                a
            },
            None => a,
        },
        None => a,
    };
    let rax = op.def matches Some(d) && in_rax(d);
    Compared {
        last: b,
        from_flag: if rax {
            copies_flag(op)
        } else {
            st.from_flag
        },
        defs: if rax {
            st.defs + 1
        } else {
            st.defs
        },
    }
}

/// What the operations from `i` on add, up to the return.
pub open spec fn compared_from(ops: Seq<SsaOp>, i: int, st: Compared, inline: Map<SsaVar, Seq<char>>, names: Names) -> Compared
    decreases ops.len() - i,
{
    if i < 0 || i >= ops.len() || is_return_op(ops[i]) {
        st
    } else {
        compared_from(ops, i + 1, compare_step(ops, i, st, inline, names), inline, names)
    }
}

/// The operation is a call of any kind.
pub open spec fn any_call(op: SsaOp) -> bool {
    match op.kind {
        SsaOpKind::Pcode(p) => p is Call || p is CallInd || p is CallOther,
        SsaOpKind::Phi(_) => false,
    }
}

/// A small block without calls returns whether a value equals a constant.
pub open spec fn equality_return(block: SsaBlock, inline: Map<SsaVar, Seq<char>>, names: Names) -> Option<Seq<char>> {
    let ops = block.ops@;
    let st = compared_from(
        ops,
        0,
        Compared { last: None, from_flag: false, defs: 0 },
        inline,
        names,
    );
    if ops.len() > 24 || (exists|i: int| 0 <= i < ops.len() && #[trigger] any_call(ops[i]))
        || !st.from_flag || st.defs > 4 {
        None
    } else {
        match st.last {
            Some((lhs, imm)) => Some("("@ + lhs + " == "@ + prefixed_hex(imm as nat) + ")"@),
            None => None,
        }
    }
}

fn find_large_difference(op: &SsaOp, inline: &TextMap, names: &NameCtx<'_>) -> (r: Option<(Vec<char>, u64)>)
    ensures
        match r {
            Some((t, n)) => large_difference(*op, inline@, names@) == Some((t@, n)),
            None => large_difference(*op, inline@, names@) is None,
        },
{
    match &op.kind {
        SsaOpKind::Pcode(PcodeOp::IntSub { left, right, .. }) => {
            if in_const(right) && right.offset > 0xff {
                let lhs = render_varnode(*left, &op.uses, inline, names, op.va);
                if lhs.len() > 0 && !is_frame_epilogue_expr(&lhs) {
                    return Some((lhs, right.offset));
                }
            }
            None
        },
        _ => None,
    }
}

fn find_subtraction(ops: &Vec<SsaOp>, v: Varnode, i: usize) -> (r: Option<usize>)
    requires
        i <= ops@.len(),
    ensures
        match r {
            Some(j) => j < i && subtraction_before(ops@, v, i as int, 12) == Some(j as int),
            None => subtraction_before(ops@, v, i as int, 12) is None,
        },
{
    let mut n: usize = i;
    let mut k: u8 = 12;
    while n > 0 && k > 0
        invariant
            n <= i <= ops@.len(),
            subtraction_before(ops@, v, n as int, k as nat) == subtraction_before(
                ops@,
                v,
                i as int,
                12,
            ),
        decreases n,
    {
        n -= 1;
        k -= 1;
        if let SsaOpKind::Pcode(PcodeOp::IntSub { out, .. }) = &ops[n].kind {
            if same_space(&out.space, &v.space) && out.offset == v.offset {
                return Some(n);
            }
        }
    }
    None
}

fn recover_equality(block: &SsaBlock, inline: &TextMap, names: &NameCtx<'_>) -> (r: Option<Vec<char>>)
    ensures
        opt_text(r) == equality_return(*block, inline@, names@),
{
    if block.ops.len() > 24 {
        return None;
    }
    let mut c: usize = 0;
    while c < block.ops.len()
        invariant
            c <= block.ops@.len(),
            forall|j: int| 0 <= j < c ==> !(#[trigger] any_call(block.ops@[j])),
        decreases block.ops@.len() - c,
    {
        if matches!(
            block.ops[c].kind,
            SsaOpKind::Pcode(PcodeOp::Call { .. }) | SsaOpKind::Pcode(PcodeOp::CallInd { .. })
            | SsaOpKind::Pcode(PcodeOp::CallOther { .. })
        ) {
            assert(any_call(block.ops@[c as int]));
            return None;
        }
        c += 1;
    }
    let ghost ops = block.ops@;
    let ghost start = Compared { last: None, from_flag: false, defs: 0 };
    let mut last: Option<(Vec<char>, u64)> = None;
    let mut from_flag = false;
    let mut defs: usize = 0;
    let ghost mut st = start;
    let mut i: usize = 0;
    while i < block.ops.len() && !op_is_return(&block.ops[i])
        invariant
            i <= block.ops@.len(),
            block.ops@.len() <= 24,
            ops == block.ops@,
            defs <= i,
            st.from_flag == from_flag,
            st.defs == defs,
            match last {
                Some((t, n)) => st.last == Some((t@, n)),
                None => st.last is None,
            },
            compared_from(ops, i as int, st, inline@, names@) == compared_from(
                ops,
                0,
                start,
                inline@,
                names@,
            ),
        decreases block.ops@.len() - i,
    {
        let op = &block.ops[i];
        if let SsaOpKind::Pcode(PcodeOp::IntSub { out, .. }) = &op.kind {
            if !in_register(out) {
                let found = find_large_difference(op, inline, names);
                if found.is_some() {
                    last = found;
                }
            }
        }
        if let SsaOpKind::Pcode(PcodeOp::IntEq { left, right, out }) = &op.kind {
            if in_register(out) && out.offset == 518 && in_const(right) && right.offset == 0 {
                if let Some(j) = find_subtraction(&block.ops, *left, i) {
                    let found = find_large_difference(&block.ops[j], inline, names);
                    if found.is_some() {
                        last = found;
                    }
                }
            }
        }
        if let Some(d) = op.def {
            if is_rax(&d) {
                defs += 1;
                from_flag = match &op.kind {
                    SsaOpKind::Pcode(PcodeOp::Copy { input, .. })
                    | SsaOpKind::Pcode(PcodeOp::IntZext { input, .. }) => in_register(input) && (
                    input.offset == 518 || input.offset == 8 || (input.offset == 0 && input.size <= 1)),
                    _ => false,
                };
            }
        }
        proof {
            st = compare_step(ops, i as int, st, inline@, names@);
        }
        i += 1;
    }
    if !from_flag || defs > 4 {
        return None;
    }
    match last {
        Some((lhs, imm)) => {
            let mut t = chars_of("(");
            push_text(&mut t, &lhs);
            push_lit(&mut t, " == ");
            push_text(&mut t, &prefixed_hex_text(imm));
            push_lit(&mut t, ")");
            Some(t)
        },
        None => None,
    }
}

// ─── Status codes ───────────────────────────────────────────────────────────

/// The failure code in the low half of a constant, if it is one.
pub open spec fn failure_code(v: Varnode) -> Option<u64> {
    let low = (v.offset % 0x1_0000_0000) as u64;
    if is_const(v) && 0x8000_0000 <= low < 0x8001_0000 {
        Some(low)
    } else {
        None
    }
}

fn find_failure_code(v: &Varnode) -> (r: Option<u64>)
    ensures
        r == failure_code(*v),
{
    let low: u64 = v.offset % 0x1_0000_0000;
    if in_const(v) && 0x8000_0000 <= low && low < 0x8001_0000 {
        Some(low)
    } else {
        None
    }
}

/// The failure code that a copy from `i` on sets, before the return.
pub open spec fn copied_code(ops: Seq<SsaOp>, i: int) -> Option<u64>
    decreases ops.len() - i,
{
    if i < 0 || i >= ops.len() || is_return_op(ops[i]) {
        None
    } else {
        match ops[i].kind {
            SsaOpKind::Pcode(PcodeOp::Copy { input, .. }) => match failure_code(input) {
                Some(c) => Some(c),
                None => copied_code(ops, i + 1),
            },
            _ => copied_code(ops, i + 1),
        }
    }
}

fn find_copied_code(block: &SsaBlock) -> (r: Option<u64>)
    ensures
        r == copied_code(block.ops@, 0),
{
    let mut i: usize = 0;
    while i < block.ops.len() && !op_is_return(&block.ops[i])
        invariant
            i <= block.ops@.len(),
            copied_code(block.ops@, i as int) == copied_code(block.ops@, 0),
        decreases block.ops@.len() - i,
    {
        if let SsaOpKind::Pcode(PcodeOp::Copy { input, .. }) = &block.ops[i].kind {
            let c = find_failure_code(input);
            if c.is_some() {
                return c;
            }
        }
        i += 1;
    }
    None
}

/// The codes with that of `v`.
pub open spec fn with_code(s: Set<u64>, v: Varnode) -> Set<u64> {
    match failure_code(v) {
        Some(c) => s.insert(c),
        None => s,
    }
}

/// The codes with those that the operation holds.
pub open spec fn with_op_codes(s: Set<u64>, op: SsaOp) -> Set<u64> {
    match op.kind {
        SsaOpKind::Pcode(p) => match p {
            PcodeOp::Copy { input, .. } => with_code(s, input),
            PcodeOp::IntEq { left, right, .. }
            | PcodeOp::IntNotEq { left, right, .. }
            | PcodeOp::IntAdd { left, right, .. }
            | PcodeOp::IntXor { left, right, .. }
            | PcodeOp::IntOr { left, right, .. }
            | PcodeOp::IntAnd { left, right, .. } => with_code(with_code(s, left), right),
            PcodeOp::IntZext { input, .. }
            | PcodeOp::IntSext { input, .. }
            | PcodeOp::IntNeg { input, .. } => with_code(s, input),
            _ => s,
        },
        SsaOpKind::Phi(_) => s,
    }
}

/// The codes with those of the first `n` operations.
pub open spec fn with_ops_codes(s: Set<u64>, ops: Seq<SsaOp>, n: int) -> Set<u64>
    decreases n,
{
    if n <= 0 {
        s
    } else {
        with_op_codes(with_ops_codes(s, ops, n - 1), ops[n - 1])
    }
}

/// The codes of the first `n` blocks.
pub open spec fn block_codes(ssa: SsaFunction, n: int) -> Set<u64>
    decreases n,
{
    if n <= 0 {
        Set::empty()
    } else {
        with_ops_codes(
            block_codes(ssa, n - 1),
            ssa.blocks@[n - 1].ops@,
            ssa.blocks@[n - 1].ops@.len() as int,
        )
    }
}

/// The block writes no memory and makes no call.
pub open spec fn thin(block: SsaBlock) -> bool {
    forall|i: int| 0 <= i < block.ops@.len() ==> !(#[trigger] acts(block.ops@[i]))
}

/// The operation writes memory or makes a call.
pub open spec fn acts(op: SsaOp) -> bool {
    match op.kind {
        SsaOpKind::Pcode(p) => p is Store || p is Call || p is CallInd,
        SsaOpKind::Phi(_) => false,
    }
}

/// The failure code of a thin block: the only one of the function, or the null-pointer
/// code if the function has it.
pub open spec fn function_code(ssa: SsaFunction, block: SsaBlock) -> Option<u64> {
    let s = block_codes(ssa, ssa.blocks@.len() as int);
    if !thin(block) {
        None
    } else if s.len() == 1 {
        Some(s.choose())
    } else if s.contains(0x8000_4003) {
        Some(0x8000_4003)
    } else {
        None
    }
}

fn add_code(v: &mut Vec<u64>, n: &Varnode, Ghost(s): Ghost<Set<u64>>)
    requires
        old(v)@.no_duplicates(),
        old(v)@.to_set() == s,
    ensures
        final(v)@.no_duplicates(),
        final(v)@.to_set() == with_code(s, *n),
{
    if let Some(c) = find_failure_code(n) {
        let mut i: usize = 0;
        let ghost v0 = v@;
        while i < v.len()
            invariant
                i <= v@.len(),
                v@ == v0,
                v0 == old(v)@,
                v0.no_duplicates(),
                v0.to_set() == s,
                failure_code(*n) == Some(c),
                forall|j: int| 0 <= j < i ==> v@[j] != c,
            decreases v@.len() - i,
        {
            if v[i] == c {
                assert(v@.contains(c));
                assert(s.insert(c) =~= s);
                return;
            }
            i += 1;
        }
        v.push(c);
        proof {
            assert(v@[v0.len() as int] == c);
            assert forall|x: u64| v@.to_set().contains(x) <==> s.insert(c).contains(x) by {
                if s.contains(x) {
                    assert(v0.contains(x));
                    let j = choose|j: int| 0 <= j < v0.len() && v0[j] == x;
                    assert(v@[j] == x);
                }
            }
            assert(v@.to_set() =~= s.insert(c));
        }
    }
}

fn add_op_codes(v: &mut Vec<u64>, op: &SsaOp, Ghost(s): Ghost<Set<u64>>)
    requires
        old(v)@.no_duplicates(),
        old(v)@.to_set() == s,
    ensures
        final(v)@.no_duplicates(),
        final(v)@.to_set() == with_op_codes(s, *op),
{
    match &op.kind {
        SsaOpKind::Pcode(PcodeOp::Copy { input, .. }) => {
            add_code(v, input, Ghost(s));
        },
        SsaOpKind::Pcode(PcodeOp::IntEq { left, right, .. })
        | SsaOpKind::Pcode(PcodeOp::IntNotEq { left, right, .. })
        | SsaOpKind::Pcode(PcodeOp::IntAdd { left, right, .. })
        | SsaOpKind::Pcode(PcodeOp::IntXor { left, right, .. })
        | SsaOpKind::Pcode(PcodeOp::IntOr { left, right, .. })
        | SsaOpKind::Pcode(PcodeOp::IntAnd { left, right, .. }) => {
            add_code(v, left, Ghost(s));
            add_code(v, right, Ghost(with_code(s, *left)));
        },
        SsaOpKind::Pcode(PcodeOp::IntZext { input, .. })
        | SsaOpKind::Pcode(PcodeOp::IntSext { input, .. })
        | SsaOpKind::Pcode(PcodeOp::IntNeg { input, .. }) => {
            add_code(v, input, Ghost(s));
        },
        _ => {},
    }
}

fn find_function_code(ssa: &SsaFunction, block: &SsaBlock) -> (r: Option<u64>)
    ensures
        r == function_code(*ssa, *block),
{
    let mut k: usize = 0;
    while k < block.ops.len()
        invariant
            k <= block.ops@.len(),
            forall|i: int| 0 <= i < k ==> !(#[trigger] acts(block.ops@[i])),
        decreases block.ops@.len() - k,
    {
        if matches!(
            block.ops[k].kind,
            SsaOpKind::Pcode(PcodeOp::Store { .. }) | SsaOpKind::Pcode(PcodeOp::Call { .. })
            | SsaOpKind::Pcode(PcodeOp::CallInd { .. })
        ) {
            assert(acts(block.ops@[k as int]));
            return None;
        }
        k += 1;
    }
    let mut codes: Vec<u64> = Vec::new();
    assert(codes@.to_set() =~= Set::empty());
    let mut b: usize = 0;
    while b < ssa.blocks.len()
        invariant
            b <= ssa.blocks@.len(),
            codes@.no_duplicates(),
            codes@.to_set() == block_codes(*ssa, b as int),
        decreases ssa.blocks@.len() - b,
    {
        let ops = &ssa.blocks[b].ops;
        let ghost s = block_codes(*ssa, b as int);
        let mut i: usize = 0;
        while i < ops.len()
            invariant
                i <= ops@.len(),
                codes@.no_duplicates(),
                codes@.to_set() == with_ops_codes(s, ops@, i as int),
            decreases ops@.len() - i,
        {
            add_op_codes(&mut codes, &ops[i], Ghost(with_ops_codes(s, ops@, i as int)));
            i += 1;
        }
        b += 1;
    }
    let ghost s = codes@.to_set();
    proof {
        codes@.unique_seq_to_set();
    }
    if codes.len() == 1 {
        proof {
            assert(s.contains(s.choose()));
            assert(codes@.contains(s.choose()));
        }
        return Some(codes[0]);
    }
    let mut i: usize = 0;
    while i < codes.len()
        invariant
            i <= codes@.len(),
            s == codes@.to_set(),
            s == block_codes(*ssa, ssa.blocks@.len() as int),
            s.len() == codes@.len(),
            codes@.len() != 1,
            thin(*block),
            forall|j: int| 0 <= j < i ==> codes@[j] != 0x8000_4003,
        decreases codes@.len() - i,
    {
        if codes[i] == 0x8000_4003 {
            assert(codes@.contains(0x8000_4003));
            return Some(0x8000_4003);
        }
        i += 1;
    }
    assert(!codes@.contains(0x8000_4003));
    None
}

// ─── The richest arithmetic of the block ────────────────────────────────────

/// Sums, products and exclusive ors in the text.
pub open spec fn operators(e: Seq<char>) -> int {
    (count(e, "+"@) + count(e, "*"@) + count(e, "^"@)) as int
}

/// What the operation itself is worth; nothing if it is not arithmetic.
pub open spec fn arithmetic_worth(op: SsaOp) -> Option<int> {
    match op.kind {
        SsaOpKind::Pcode(p) => match p {
            PcodeOp::IntMult { .. } | PcodeOp::IntXor { .. } => Some(3),
            PcodeOp::IntAdd { .. } => Some(2),
            PcodeOp::IntSub { .. } | PcodeOp::IntSDiv { .. } | PcodeOp::IntDiv { .. } => Some(1),
            _ => None,
        },
        SsaOpKind::Phi(_) => None,
    }
}

/// The better of `best` and `e`: a strictly higher score wins.
pub open spec fn better(best: Option<(int, Seq<char>)>, score: int, e: Seq<char>) -> Option<(int, Seq<char>)> {
    match best {
        Some((s, _)) => if score > s {
            Some((score, e))
        } else {
            best
        },
        None => Some((score, e)),
    }
}

/// The richest arithmetic definition from `i` on, before the return.
pub open spec fn arithmetic_from(ops: Seq<SsaOp>, i: int, best: Option<(int, Seq<char>)>, inline: Map<SsaVar, Seq<char>>, sink: Map<SsaVar, Seq<char>>, names: Names) -> Option<(int, Seq<char>)>
    decreases ops.len() - i,
{
    if i < 0 || i >= ops.len() || is_return_op(ops[i]) {
        best
    } else {
        let next = match (arithmetic_worth(ops[i]), ops[i].def) {
            (Some(w), Some(d)) => {
                let e = composed(ops[i], d, inline, sink, names);
                if frame_arithmetic(e) || predicate_soup(e) {
                    best
                } else {
                    better(best, w + operators(e), e)
                }
            },
            _ => best,
        };
        arithmetic_from(ops, i + 1, next, inline, sink, names)
    }
}

/// The text of a candidate that is not empty.
pub open spec fn chosen(best: Option<(int, Seq<char>)>) -> Option<Seq<char>> {
    match best {
        Some((_, e)) => if e.len() > 0 {
            Some(e)
        } else {
            None
        },
        None => None,
    }
}

/// The score of a candidate as a number.
spec fn scored(best: Option<(i128, Vec<char>)>) -> Option<(int, Seq<char>)> {
    match best {
        Some((s, e)) => Some((s as int, e@)),
        None => None,
    }
}

fn count_operators(e: &Vec<char>) -> (r: i128)
    ensures
        r == operators(e@),
        0 <= r <= 3 * usize::MAX,
{
    let a: usize = count_lit(e, "+");
    let b: usize = count_lit(e, "*");
    let c: usize = count_lit(e, "^");
    a as i128 + b as i128 + c as i128
}

fn find_worth(op: &SsaOp) -> (r: Option<i128>)
    ensures
        match r {
            Some(w) => arithmetic_worth(*op) == Some(w as int) && 1 <= w <= 3,
            None => arithmetic_worth(*op) is None,
        },
{
    match &op.kind {
        SsaOpKind::Pcode(PcodeOp::IntMult { .. }) | SsaOpKind::Pcode(PcodeOp::IntXor { .. }) => Some(
            3,
        ),
        SsaOpKind::Pcode(PcodeOp::IntAdd { .. }) => Some(2),
        SsaOpKind::Pcode(PcodeOp::IntSub { .. }) | SsaOpKind::Pcode(PcodeOp::IntSDiv { .. })
        | SsaOpKind::Pcode(PcodeOp::IntDiv { .. }) => Some(1),
        _ => None,
    }
}

fn take_better(best: &mut Option<(i128, Vec<char>)>, score: i128, e: Vec<char>)
    ensures
        scored(*final(best)) == better(scored(*old(best)), score as int, e@),
{
    let wins = match best {
        Some((s, _)) => score > *s,
        None => true,
    };
    if wins {
        *best = Some((score, e));
    }
}

fn find_chosen(best: Option<(i128, Vec<char>)>) -> (r: Option<Vec<char>>)
    ensures
        opt_text(r) == chosen(scored(best)),
{
    match best {
        Some((_, e)) => if e.len() > 0 {
            Some(e)
        } else {
            None
        },
        None => None,
    }
}

fn find_arithmetic(block: &SsaBlock, inline: &TextMap, sink: &TextMap, names: &NameCtx<'_>) -> (r: Option<Vec<char>>)
    ensures
        opt_text(r) == chosen(arithmetic_from(block.ops@, 0, None, inline@, sink@, names@)),
{
    let mut best: Option<(i128, Vec<char>)> = None;
    let mut i: usize = 0;
    while i < block.ops.len() && !op_is_return(&block.ops[i])
        invariant
            i <= block.ops@.len(),
            arithmetic_from(block.ops@, i as int, scored(best), inline@, sink@, names@)
                == arithmetic_from(block.ops@, 0, None, inline@, sink@, names@),
        decreases block.ops@.len() - i,
    {
        let op = &block.ops[i];
        if let Some(w) = find_worth(op) {
            if let Some(d) = op.def {
                let e = compose(op, &d, inline, sink, names);
                if !is_frame_epilogue_expr(&e) && !is_predicate_soup(&e) {
                    let n = count_operators(&e);
                    take_better(&mut best, w + n, e);
                }
            }
        }
        i += 1;
    }
    find_chosen(best)
}

// ─── The accumulator of another block ───────────────────────────────────────

/// The block computes a sum, difference, product or exclusive or.
pub open spec fn computes(op: SsaOp) -> bool {
    match op.kind {
        SsaOpKind::Pcode(p) => p is IntXor || p is IntAdd || p is IntMult || p is IntSub,
        SsaOpKind::Phi(_) => false,
    }
}

/// The operand that is mixed with the checksum constant.
pub open spec fn mixed_operand(op: SsaOp) -> Option<Varnode> {
    match op.kind {
        SsaOpKind::Pcode(PcodeOp::IntXor { left, right, .. }) => if is_const(right) && right.offset
            == 0x045d_9f3b {
            Some(left)
        } else if is_const(left) && left.offset == 0x045d_9f3b {
            Some(right)
        } else {
            None
        },
        _ => None,
    }
}

/// An exclusive or of a text with itself.
pub open spec fn self_xor(e: Seq<char>) -> bool {
    let c = compact(e);
    match find_any(c, "^"@) {
        Some(i) => before(c, i) == after(c, i + 1),
        None => false,
    }
}

/// What an expression of another block is worth as the returned value; nothing if it
/// is noise.
pub open spec fn accumulator_worth(op: SsaOp, e: Seq<char>) -> Option<int> {
    let xors = count(e, "^"@) as int;
    let score = xors * 3 + count(e, "+"@) as int + count(e, "*"@) as int + (if op.kind matches SsaOpKind::Pcode(
        PcodeOp::IntXor { .. },
    ) {
        2int
    } else {
        0int
    }) + (if mixes(e) {
        40int
    } else {
        0int
    }) + (if xors >= 1 {
        4int
    } else {
        0int
    });
    if e.len() == 0 || frame_arithmetic(e) || predicate_soup(e) || self_xor(e) || (has(e, "fp"@)
        && !mixes(e)) || (!mixes(e) && xors < 2 && lacks(e, "arg"@)) || score <= 0 {
        None
    } else {
        Some(score)
    }
}

/// The better candidate after operation `op` of another block.
pub open spec fn accumulator_step(op: SsaOp, best: Option<(int, Seq<char>)>, inline: Map<SsaVar, Seq<char>>, sink: Map<SsaVar, Seq<char>>, names: Names) -> Option<(int, Seq<char>)> {
    let eligible = match op.kind {
        SsaOpKind::Pcode(p) => p is IntXor || p is IntAdd || p is IntMult,
        SsaOpKind::Phi(_) => false,
    };
    match op.def {
        Some(d) => if in_rax(d) && eligible {
            match mixed_operand(op) {
                Some(v) => better(
                    best,
                    100,
                    "("@ + operand_text(v, op.uses@, inline, names, op.va) + " ^ 0x45d9f3b)"@,
                ),
                None => {
                    let e = composed(op, d, inline, sink, names);
                    match accumulator_worth(op, e) {
                        Some(s) => better(best, s, e),
                        None => best,
                    }
                },
            }
        } else {
            best
        },
        None => best,
    }
}

/// The best candidate after the first `n` operations.
pub open spec fn accumulator_ops(ops: Seq<SsaOp>, n: int, best: Option<(int, Seq<char>)>, inline: Map<SsaVar, Seq<char>>, sink: Map<SsaVar, Seq<char>>, names: Names) -> Option<(int, Seq<char>)>
    decreases n,
{
    if n <= 0 {
        best
    } else {
        accumulator_step(
            ops[n - 1],
            accumulator_ops(ops, n - 1, best, inline, sink, names),
            inline,
            sink,
            names,
        )
    }
}

/// The best candidate of the first `n` blocks, the return block left out.
pub open spec fn accumulator_blocks(ssa: SsaFunction, own: u32, n: int, inline: Map<SsaVar, Seq<char>>, sink: Map<SsaVar, Seq<char>>, names: Names) -> Option<(int, Seq<char>)>
    decreases n,
{
    if n <= 0 {
        None
    } else {
        let done = accumulator_blocks(ssa, own, n - 1, inline, sink, names);
        let b = ssa.blocks@[n - 1];
        if b.id == own {
            done
        } else {
            accumulator_ops(b.ops@, b.ops@.len() as int, done, inline, sink, names)
        }
    }
}

/// The value that another block leaves in the accumulator, for a return block that
/// computes nothing.
pub open spec fn accumulator_return(ssa: SsaFunction, block: SsaBlock, inline: Map<SsaVar, Seq<char>>, sink: Map<SsaVar, Seq<char>>, names: Names) -> Option<Seq<char>> {
    if exists|i: int| 0 <= i < block.ops@.len() && #[trigger] computes(block.ops@[i]) {
        None
    } else {
        match accumulator_blocks(ssa, block.id, ssa.blocks@.len() as int, inline, sink, names) {
            Some((_, e)) => Some(e),
            None => None,
        }
    }
}

fn is_self_xor(e: &Vec<char>) -> (r: bool)
    ensures
        r == self_xor(e@),
{
    let c = compact_text(e);
    let n: usize = c.len();
    match find_any_lit(&c, "^") {
        Some(i) => i < n && same(&text_before(&c, i), &text_after(&c, i + 1)),
        None => false,
    }
}

fn find_accumulator_worth(op: &SsaOp, e: &Vec<char>) -> (r: Option<i128>)
    ensures
        match r {
            Some(w) => accumulator_worth(*op, e@) == Some(w as int),
            None => accumulator_worth(*op, e@) is None,
        },
{
    if e.len() == 0 || is_frame_epilogue_expr(e) || is_predicate_soup(e) || is_self_xor(e) {
        return None;
    }
    let mixed = is_mixing(e);
    if has_lit(e, "fp") && !mixed {
        return None;
    }
    let xors: usize = count_lit(e, "^");
    if !mixed && xors < 2 && !has_lit(e, "arg") {
        return None;
    }
    let plus: usize = count_lit(e, "+");
    let times: usize = count_lit(e, "*");
    let mut score: i128 = xors as i128 * 3 + plus as i128 + times as i128;
    if matches!(op.kind, SsaOpKind::Pcode(PcodeOp::IntXor { .. })) {
        score += 2;
    }
    if mixed {
        score += 40;
    }
    if xors >= 1 {
        score += 4;
    }
    if score <= 0 {
        return None;
    }
    Some(score)
}

fn find_mixed_operand(op: &SsaOp) -> (r: Option<Varnode>)
    ensures
        r == mixed_operand(*op),
{
    match &op.kind {
        SsaOpKind::Pcode(PcodeOp::IntXor { left, right, .. }) => if in_const(right) && right.offset
            == 0x045d_9f3b {
            Some(*left)
        } else if in_const(left) && left.offset == 0x045d_9f3b {
            Some(*right)
        } else {
            None
        },
        _ => None,
    }
}

fn step_accumulator(op: &SsaOp, best: &mut Option<(i128, Vec<char>)>, inline: &TextMap, sink: &TextMap, names: &NameCtx<'_>)
    ensures
        scored(*final(best)) == accumulator_step(
            *op,
            scored(*old(best)),
            inline@,
            sink@,
            names@,
        ),
{
    let eligible = matches!(
        op.kind,
        SsaOpKind::Pcode(PcodeOp::IntXor { .. }) | SsaOpKind::Pcode(PcodeOp::IntAdd { .. })
        | SsaOpKind::Pcode(PcodeOp::IntMult { .. })
    );
    if let Some(d) = op.def {
        if is_rax(&d) && eligible {
            match find_mixed_operand(op) {
                Some(v) => {
                    let mut t = chars_of("(");
                    push_text(&mut t, &render_varnode(v, &op.uses, inline, names, op.va));
                    push_lit(&mut t, " ^ 0x45d9f3b)");
                    take_better(best, 100, t);
                },
                None => {
                    let e = compose(op, &d, inline, sink, names);
                    if let Some(s) = find_accumulator_worth(op, &e) {
                        take_better(best, s, e);
                    }
                },
            }
        }
    }
}

fn recover_pred_rax_return(ssa: &SsaFunction, block: &SsaBlock, inline: &TextMap, sink: &TextMap, names: &NameCtx<'_>) -> (r: Option<Vec<char>>)
    ensures
        opt_text(r) == accumulator_return(*ssa, *block, inline@, sink@, names@),
{
    let mut k: usize = 0;
    while k < block.ops.len()
        invariant
            k <= block.ops@.len(),
            forall|i: int| 0 <= i < k ==> !(#[trigger] computes(block.ops@[i])),
        decreases block.ops@.len() - k,
    {
        if matches!(
            block.ops[k].kind,
            SsaOpKind::Pcode(PcodeOp::IntXor { .. }) | SsaOpKind::Pcode(PcodeOp::IntAdd { .. })
            | SsaOpKind::Pcode(PcodeOp::IntMult { .. }) | SsaOpKind::Pcode(PcodeOp::IntSub { .. })
        ) {
            assert(computes(block.ops@[k as int]));
            return None;
        }
        k += 1;
    }
    let mut best: Option<(i128, Vec<char>)> = None;
    let mut b: usize = 0;
    while b < ssa.blocks.len()
        invariant
            b <= ssa.blocks@.len(),
            scored(best) == accumulator_blocks(
                *ssa,
                block.id,
                b as int,
                inline@,
                sink@,
                names@,
            ),
        decreases ssa.blocks@.len() - b,
    {
        let other = &ssa.blocks[b];
        if other.id != block.id {
            let ghost done = scored(best);
            let mut i: usize = 0;
            while i < other.ops.len()
                invariant
                    i <= other.ops@.len(),
                    scored(best) == accumulator_ops(
                        other.ops@,
                        i as int,
                        done,
                        inline@,
                        sink@,
                        names@,
                    ),
                decreases other.ops@.len() - i,
            {
                step_accumulator(&other.ops[i], &mut best, inline, sink, names);
                i += 1;
            }
        }
        b += 1;
    }
    match best {
        Some((_, e)) => Some(e),
        None => None,
    }
}

// ─── The best composed expression of the function ───────────────────────────

/// What a composed expression is worth as the returned value; nothing if it is noise.
pub open spec fn composed_worth(e: Seq<char>) -> Option<int> {
    let xors = count(e, "^"@) as int;
    let base = count(e, "+"@) as int + count(e, "*"@) as int + xors * 2;
    if frame_arithmetic(e) || predicate_soup(e) || (has(e, "fp"@) && !mixes(e)) || base <= 0 {
        None
    } else {
        Some(
            base + (if has(e, "arg"@) || has(e, "mem_"@) {
                3int
            } else {
                0int
            }) + (if xors >= 2 {
                8int
            } else {
                0int
            }) + (if mixes(e) {
                10int
            } else {
                0int
            }),
        )
    }
}

/// `e` is a candidate that no expression of the map beats: none has a higher score,
/// and none of the same score stands before it.
pub open spec fn best_composed(sink: Map<SsaVar, Seq<char>>, e: Seq<char>) -> bool {
    &&& composed_worth(e) is Some
    &&& exists|v: SsaVar| #[trigger] sink.dom().contains(v) && sink[v] == e
    &&& forall|v: SsaVar| #[trigger]
        sink.dom().contains(v) ==> match composed_worth(sink[v]) {
            Some(s) => s < composed_worth(e)->0 || (s == composed_worth(e)->0 && !text_lt(sink[v], e)),
            None => true,
        }
}

/// The best composed expression, if there is a candidate.
pub open spec fn composed_return(sink: Map<SsaVar, Seq<char>>) -> Option<Seq<char>> {
    if exists|e: Seq<char>| #[trigger] best_composed(sink, e) {
        Some(choose|e: Seq<char>| #[trigger] best_composed(sink, e))
    } else {
        None
    }
}

proof fn lemma_best_composed_unique(sink: Map<SsaVar, Seq<char>>, a: Seq<char>, b: Seq<char>)
    requires
        best_composed(sink, a),
        best_composed(sink, b),
    ensures
        a == b,
{
    let v = choose|v: SsaVar| #[trigger] sink.dom().contains(v) && sink[v] == a;
    let w = choose|v: SsaVar| #[trigger] sink.dom().contains(v) && sink[v] == b;
    assert(sink.dom().contains(v) && sink.dom().contains(w));
    crate::structure::predicate::lemma_lt_total(a, b);
}

fn find_composed_worth(e: &Vec<char>) -> (r: Option<i128>)
    ensures
        match r {
            Some(w) => composed_worth(e@) == Some(w as int),
            None => composed_worth(e@) is None,
        },
{
    if is_frame_epilogue_expr(e) || is_predicate_soup(e) {
        return None;
    }
    let mixed = is_mixing(e);
    if has_lit(e, "fp") && !mixed {
        return None;
    }
    let xors: usize = count_lit(e, "^");
    let plus: usize = count_lit(e, "+");
    let times: usize = count_lit(e, "*");
    let mut score: i128 = plus as i128 + times as i128 + xors as i128 * 2;
    if score <= 0 {
        return None;
    }
    if has_lit(e, "arg") || has_lit(e, "mem_") {
        score += 3;
    }
    if xors >= 2 {
        score += 8;
    }
    if mixed {
        score += 10;
    }
    Some(score)
}

proof fn lemma_text_entry(e: Seq<(SsaVar, Vec<char>)>, v: SsaVar)
    requires
        entries_map(e).dom().contains(v),
    ensures
        exists|k: int| 0 <= k < e.len() && (#[trigger] e[k]).0 == v,
    decreases e.len(),
{
    if e.len() > 0 {
        if e.last().0 == v {
            assert(e[e.len() - 1].0 == v);
        } else {
            lemma_text_entry(e.drop_last(), v);
            let k = choose|k: int| 0 <= k < e.drop_last().len() && (#[trigger] e.drop_last()[k]).0 == v;
            assert(e[k].0 == v);
        }
    }
}

/// No entry of the first `n` beats `best`.
spec fn unbeaten(entries: Seq<(SsaVar, Vec<char>)>, sink: Map<SsaVar, Seq<char>>, n: int, best: Option<(int, Seq<char>)>) -> bool {
    forall|k: int|
        0 <= k < n && sink.dom().contains((#[trigger] entries[k]).0) ==> match composed_worth(
            sink[entries[k].0],
        ) {
            Some(s) => match best {
                Some((t, e)) => s < t || (s == t && !text_lt(sink[entries[k].0], e)),
                None => false,
            },
            None => true,
        }
}

fn find_composed(sink: &TextMap) -> (r: Option<Vec<char>>)
    ensures
        opt_text(r) == composed_return(sink@),
{
    let ghost entries = sink.map.entries@;
    let mut best: Option<(i128, Vec<char>)> = None;
    let mut i: usize = 0;
    while i < sink.map.entries.len()
        invariant
            i <= entries.len(),
            entries == sink.map.entries@,
            unbeaten(entries, sink@, i as int, scored(best)),
            match best {
                Some((s, e)) => composed_worth(e@) == Some(s as int) && exists|v: SsaVar| #[trigger]
                    sink@.dom().contains(v) && sink@[v] == e@,
                None => true,
            },
        decreases entries.len() - i,
    {
        let v = sink.map.entries[i].0;
        let ghost before = scored(best);
        if let Some(e) = sink.get(&v) {
            assert(sink@.dom().contains(v) && sink@[v] == e@);
            if let Some(s) = find_composed_worth(&e) {
                let wins = match &best {
                    Some((t, cur)) => s > *t || (s == *t && is_text_lt(&e, cur)),
                    None => true,
                };
                proof {
                    if let Some((t, cur)) = before {
                        crate::structure::predicate::lemma_lt_total(e@, cur);
                        assert forall|k: int| 0 <= k < i && sink@.dom().contains(
                            (#[trigger] entries[k]).0,
                        ) && text_lt(e@, cur) && text_lt(sink@[entries[k].0], e@) implies text_lt(
                            sink@[entries[k].0],
                            cur,
                        ) by {
                            crate::structure::predicate::lemma_lt_transitive(
                                sink@[entries[k].0],
                                e@,
                                cur,
                            );
                        }
                    }
                    crate::structure::predicate::lemma_lt_irreflexive(e@);
                }
                if wins {
                    best = Some((s, e));
                }
            }
        }
        i += 1;
    }
    match best {
        Some((s, e)) => {
            proof {
                assert forall|v: SsaVar| #[trigger] sink@.dom().contains(v) implies match composed_worth(
                    sink@[v],
                ) {
                    Some(t) => t < s || (t == s && !text_lt(sink@[v], e@)),
                    None => true,
                } by {
                    lemma_text_entry(entries, v);
                    let k = choose|k: int| 0 <= k < entries.len() && (#[trigger] entries[k]).0 == v;
                    assert(sink@.dom().contains(entries[k].0));
                }
                assert(best_composed(sink@, e@));
                let picked = choose|x: Seq<char>| #[trigger] best_composed(sink@, x);
                lemma_best_composed_unique(sink@, picked, e@);
            }
            Some(e)
        },
        None => {
            proof {
                assert forall|x: Seq<char>| !(#[trigger] best_composed(sink@, x)) by {
                    if best_composed(sink@, x) {
                        let v = choose|v: SsaVar| #[trigger] sink@.dom().contains(v) && sink@[v] == x;
                        lemma_text_entry(entries, v);
                        let k = choose|k: int| 0 <= k < entries.len() && (#[trigger] entries[k]).0 == v;
                        assert(sink@.dom().contains(entries[k].0));
                    }
                }
            }
            None
        },
    }
}

// ─── The accumulator, a comparison or a local of the block ──────────────────

/// What the operations up to the return leave: the accumulator, the last comparison,
/// the last stack local.
pub ghost struct Left {
    pub rax: Option<Seq<char>>,
    pub equality: Option<Seq<char>>,
    pub local: Option<Seq<char>>,
}

/// Operators and comparisons in the text.
pub open spec fn richness(e: Seq<char>) -> int {
    operators(e) + count(e, "=="@) as int + count(e, "!="@) as int
}

/// The expression of the accumulator: the richer of the composed and the folded one.
pub open spec fn accumulator_text(v: SsaVar, va: u64, inline: Map<SsaVar, Seq<char>>, sink: Map<SsaVar, Seq<char>>, names: Names) -> Seq<char> {
    match (lookup(sink, v), lookup(inline, v)) {
        (Some(s), Some(i)) => if richness(i) > richness(s) {
            i
        } else if richness(s) > 0 {
            s
        } else if !frame_arithmetic(i) {
            i
        } else {
            s
        },
        (Some(s), None) => s,
        (None, Some(i)) => i,
        (None, None) => name_text(v, names, va),
    }
}

/// The text names a stack local, and is no frame arithmetic and no comparison.
pub open spec fn local_like(n: Seq<char>) -> bool {
    !frame_arithmetic(n) && !predicate_soup(n) && lacks(n, "fp"@) && (has(n, "arg_"@) || starts(
        n,
        "var_"@,
    ) || starts(n, "*("@))
}

/// What operation `op` leaves.
pub open spec fn left_step(op: SsaOp, st: Left, inline: Map<SsaVar, Seq<char>>, sink: Map<SsaVar, Seq<char>>, names: Names) -> Left {
    match op.def {
        None => st,
        Some(d) => {
            let equality = match op.kind {
                SsaOpKind::Pcode(p) => if p is IntEq || p is IntNotEq {
                    let e = composed(op, d, inline, sink, names);
                    if e.len() > 0 && !frame_arithmetic(e) && lacks(e, ","@) {
                        Some(e)
                    } else {
                        st.equality
                    }
                } else {
                    st.equality
                },
                SsaOpKind::Phi(_) => st.equality,
            };
            let loads = match op.kind {
                SsaOpKind::Pcode(p) => p is Load,
                SsaOpKind::Phi(_) => false,
            };
            let name = composed_value(d, op.va, inline, sink, names);
            Left {
                rax: if in_rax(d) {
                    Some(accumulator_text(d, op.va, inline, sink, names))
                } else {
                    st.rax
                },
                equality,
                local: if (d.location is StackSlot || loads) && local_like(name) {
                    Some(name)
                } else {
                    st.local
                },
            }
        },
    }
}

/// What the operations from `i` on leave, up to and with the return.
pub open spec fn left_from(ops: Seq<SsaOp>, i: int, st: Left, inline: Map<SsaVar, Seq<char>>, sink: Map<SsaVar, Seq<char>>, names: Names) -> Left
    decreases ops.len() - i,
{
    if i < 0 || i >= ops.len() {
        st
    } else {
        let next = left_step(ops[i], st, inline, sink, names);
        if is_return_op(ops[i]) {
            next
        } else {
            left_from(ops, i + 1, next, inline, sink, names)
        }
    }
}

/// The text is short and says nothing by itself.
pub open spec fn insignificant(e: Seq<char>) -> bool {
    lacks(e, "arg"@) && lacks(e, "mem_"@) && lacks(e, "0x"@) && lacks(e, "=="@) && lacks(e, "!="@)
        && lacks(e, "+"@) && lacks(e, "^"@) && lacks(e, "*"@) && byte_len(e) < 12
}

/// A text that can be returned.
pub open spec fn returnable(e: Option<Seq<char>>) -> bool {
    e matches Some(t) && t.len() > 0 && !frame_arithmetic(t)
}

/// The value among what the operations leave.
pub open spec fn left_return(st: Left) -> Option<Seq<char>> {
    let soup = st.rax matches Some(e) && (has(e, ","@) || count(e, "=="@) + count(e, "!="@) > 1);
    if returnable(st.rax) && lacks(st.rax->0, ","@) {
        if insignificant(st.rax->0) && st.equality is Some {
            st.equality
        } else {
            st.rax
        }
    } else if returnable(st.equality) {
        st.equality
    } else if (soup || !returnable(st.rax)) && returnable(st.local) {
        st.local
    } else {
        None
    }
}

/// Position of the last return among the first `n` operations.
pub open spec fn last_return(ops: Seq<SsaOp>, n: int) -> Option<int>
    decreases n,
{
    if n <= 0 {
        None
    } else if is_return_op(ops[n - 1]) {
        Some(n - 1)
    } else {
        last_return(ops, n - 1)
    }
}

/// The first register among `uses` from `i` on.
pub open spec fn register_from(uses: Seq<SsaVar>, i: int) -> Option<SsaVar>
    decreases uses.len() - i,
{
    if i < 0 || i >= uses.len() {
        None
    } else if uses[i].location is Register {
        Some(uses[i])
    } else {
        register_from(uses, i + 1)
    }
}

/// What the last return itself uses: the accumulator, or else any register.
pub open spec fn used_return(block: SsaBlock, inline: Map<SsaVar, Seq<char>>, sink: Map<SsaVar, Seq<char>>, names: Names) -> Option<Seq<char>> {
    match last_return(block.ops@, block.ops@.len() as int) {
        Some(k) => {
            let op = block.ops@[k];
            let used = match used_from(op.uses@, 0, 0) {
                Some(u) => Some(u),
                None => register_from(op.uses@, 0),
            };
            match used {
                Some(u) => Some(composed_value(u, op.va, inline, sink, names)),
                None => None,
            }
        },
        None => None,
    }
}

fn count_richness(e: &Vec<char>) -> (r: i128)
    ensures
        r == richness(e@),
{
    let a: usize = count_lit(e, "==");
    let b: usize = count_lit(e, "!=");
    count_operators(e) + a as i128 + b as i128
}

fn find_accumulator_text(v: &SsaVar, va: u64, inline: &TextMap, sink: &TextMap, names: &NameCtx<'_>) -> (r: Vec<char>)
    ensures
        r@ == accumulator_text(*v, va, inline@, sink@, names@),
{
    match (sink.get(v), inline.get(v)) {
        (Some(s), Some(i)) => {
            let sr = count_richness(&s);
            let ir = count_richness(&i);
            if ir > sr {
                i
            } else if sr > 0 {
                s
            } else if !is_frame_epilogue_expr(&i) {
                i
            } else {
                s
            }
        },
        (Some(s), None) => s,
        (None, Some(i)) => i,
        (None, None) => name_of(v, names, va),
    }
}

fn is_local_like(n: &Vec<char>) -> (r: bool)
    ensures
        r == local_like(n@),
{
    !is_frame_epilogue_expr(n) && !is_predicate_soup(n) && !has_lit(n, "fp") && (has_lit(n, "arg_")
        || starts_lit(n, "var_") || starts_lit(n, "*("))
}

struct Leavings {
    rax: Option<Vec<char>>,
    equality: Option<Vec<char>>,
    local: Option<Vec<char>>,
}

impl Leavings {
    spec fn left(&self) -> Left {
        Left {
            rax: opt_text(self.rax),
            equality: opt_text(self.equality),
            local: opt_text(self.local),
        }
    }
}

fn leave(op: &SsaOp, st: &mut Leavings, inline: &TextMap, sink: &TextMap, names: &NameCtx<'_>)
    ensures
        final(st).left() == left_step(*op, old(st).left(), inline@, sink@, names@),
{
    if let Some(d) = op.def {
        if is_rax(&d) {
            st.rax = Some(find_accumulator_text(&d, op.va, inline, sink, names));
        }
        if matches!(
            op.kind,
            SsaOpKind::Pcode(PcodeOp::IntEq { .. }) | SsaOpKind::Pcode(PcodeOp::IntNotEq { .. })
        ) {
            let e = compose(op, &d, inline, sink, names);
            if e.len() > 0 && !is_frame_epilogue_expr(&e) && !has_lit(&e, ",") {
                st.equality = Some(e);
            }
        }
        if matches!(d.location, Location::StackSlot { .. }) || matches!(
            op.kind,
            SsaOpKind::Pcode(PcodeOp::Load { .. })
        ) {
            let name = compose_value(&d, op.va, inline, sink, names);
            if is_local_like(&name) {
                st.local = Some(name);
            }
        }
    }
}

fn is_insignificant(e: &Vec<char>) -> (r: bool)
    ensures
        r == insignificant(e@),
{
    !has_lit(e, "arg") && !has_lit(e, "mem_") && !has_lit(e, "0x") && !has_lit(e, "==") && !has_lit(
        e,
        "!=",
    ) && !has_lit(e, "+") && !has_lit(e, "^") && !has_lit(e, "*") && shorter_than(e, 12)
}

fn is_returnable(e: &Option<Vec<char>>) -> (r: bool)
    ensures
        r == returnable(opt_text(*e)),
{
    match e {
        Some(t) => t.len() > 0 && !is_frame_epilogue_expr(t),
        None => false,
    }
}

fn pick_left(st: Leavings) -> (r: Option<Vec<char>>)
    ensures
        opt_text(r) == left_return(st.left()),
{
    let clean = is_returnable(&st.rax);
    if let Some(e) = &st.rax {
        let comma = has_lit(e, ",");
        if clean && !comma {
            if is_insignificant(e) && st.equality.is_some() {
                return st.equality;
            }
            return st.rax;
        }
        if is_returnable(&st.equality) {
            return st.equality;
        }
        let a: usize = count_lit(e, "==");
        let b: usize = count_lit(e, "!=");
        let soup = comma || a as u128 + b as u128 > 1;
        if (soup || !clean) && is_returnable(&st.local) {
            return st.local;
        }
        return None;
    }
    if is_returnable(&st.equality) {
        return st.equality;
    }
    if is_returnable(&st.local) {
        return st.local;
    }
    None
}

fn find_left(block: &SsaBlock, inline: &TextMap, sink: &TextMap, names: &NameCtx<'_>) -> (r: Option<Vec<char>>)
    ensures
        opt_text(r) == left_return(
            left_from(
                block.ops@,
                0,
                Left { rax: None, equality: None, local: None },
                inline@,
                sink@,
                names@,
            ),
        ),
{
    let mut st = Leavings { rax: None, equality: None, local: None };
    let ghost start = st.left();
    let ghost want = left_from(block.ops@, 0, start, inline@, sink@, names@);
    let mut done = false;
    let mut i: usize = 0;
    while i < block.ops.len() && !done
        invariant
            i <= block.ops@.len(),
            !done ==> left_from(block.ops@, i as int, st.left(), inline@, sink@, names@) == want,
            done ==> st.left() == want,
        decreases block.ops@.len() - i + (if done {
                0int
            } else {
                1int
            }),
    {
        let op = &block.ops[i];
        leave(op, &mut st, inline, sink, names);
        if op_is_return(op) {
            done = true;
        } else {
            i += 1;
        }
    }
    assert(start == (Left { rax: None, equality: None, local: None }));
    pick_left(st)
}

fn find_used_return(block: &SsaBlock, inline: &TextMap, sink: &TextMap, names: &NameCtx<'_>) -> (r: Option<Vec<char>>)
    ensures
        opt_text(r) == used_return(*block, inline@, sink@, names@),
{
    let mut n: usize = block.ops.len();
    while n > 0
        invariant
            n <= block.ops@.len(),
            last_return(block.ops@, n as int) == last_return(block.ops@, block.ops@.len() as int),
        decreases n,
    {
        n -= 1;
        let op = &block.ops[n];
        if op_is_return(op) {
            if let Some(u) = find_register(&op.uses, 0) {
                return Some(compose_value(&u, op.va, inline, sink, names));
            }
            let mut i: usize = 0;
            while i < op.uses.len()
                invariant
                    i <= op.uses@.len(),
                    n < block.ops@.len(),
                    *op == block.ops@[n as int],
                    last_return(block.ops@, block.ops@.len() as int) == Some(n as int),
                    used_from(op.uses@, 0, 0) is None,
                    register_from(op.uses@, i as int) == register_from(op.uses@, 0),
                decreases op.uses@.len() - i,
            {
                if matches!(op.uses[i].location, Location::Register { .. }) {
                    return Some(compose_value(&op.uses[i], op.va, inline, sink, names));
                }
                i += 1;
            }
            return None;
        }
    }
    None
}

// ─── The return statement ───────────────────────────────────────────────────

/// An expression as it is returned.
pub open spec fn finished(e: Seq<char>) -> Seq<char> {
    guarded(normalized_class(e), e)
}

/// The returned text of an optional expression.
pub open spec fn finish_some(e: Option<Seq<char>>) -> Option<Seq<char>> {
    match e {
        Some(t) => Some(finished(t)),
        None => None,
    }
}

/// The returned text of an optional code.
pub open spec fn code_text(c: Option<u64>) -> Option<Seq<char>> {
    match c {
        Some(n) => Some(prefixed_hex(n as nat)),
        None => None,
    }
}

/// `a`, or else `b`.
pub open spec fn or_else(a: Option<Seq<char>>, b: Option<Seq<char>>) -> Option<Seq<char>> {
    match a {
        Some(_) => a,
        None => b,
    }
}

/// What a block returns: a comparison with a constant, a failure code, the richest
/// arithmetic of the block, the accumulator of another block, the best composed
/// expression, what the block leaves in the accumulator, or what the return uses.
pub open spec fn return_text(ssa: SsaFunction, block: SsaBlock, inline: Map<SsaVar, Seq<char>>, sink: Map<SsaVar, Seq<char>>, names: Names) -> Option<Seq<char>> {
    let used = used_return(block, inline, sink, names);
    or_else(
        finish_some(equality_return(block, inline, names)),
        or_else(
            code_text(copied_code(block.ops@, 0)),
            or_else(
                code_text(function_code(ssa, block)),
                or_else(
                    finish_some(chosen(arithmetic_from(block.ops@, 0, None, inline, sink, names))),
                    or_else(
                        finish_some(accumulator_return(ssa, block, inline, sink, names)),
                        or_else(
                            finish_some(composed_return(sink)),
                            or_else(
                                finish_some(
                                    left_return(
                                        left_from(
                                            block.ops@,
                                            0,
                                            Left { rax: None, equality: None, local: None },
                                            inline,
                                            sink,
                                            names,
                                        ),
                                    ),
                                ),
                                if returnable(used) {
                                    finish_some(used)
                                } else {
                                    None
                                },
                            ),
                        ),
                    ),
                ),
            ),
        ),
    )
}

/// The return statement of a block.
pub open spec fn return_line(ssa: SsaFunction, block: SsaBlock, inline: Map<SsaVar, Seq<char>>, sink: Map<SsaVar, Seq<char>>, names: Names, pad: Seq<char>) -> Seq<char> {
    match return_text(ssa, block, inline, sink, names) {
        Some(t) => pad + "return "@ + t + ";\n"@,
        None => pad + "return;\n"@,
    }
}

fn finish(e: &Vec<char>) -> (r: Vec<char>)
    ensures
        r@ == finished(e@),
{
    guard_text(&normalize_text(e), e)
}

fn find_return_text(ssa: &SsaFunction, block: &SsaBlock, inline: &TextMap, sink: &TextMap, names: &NameCtx<'_>) -> (r: Option<Vec<char>>)
    ensures
        opt_text(r) == return_text(*ssa, *block, inline@, sink@, names@),
{
    if let Some(e) = recover_equality(block, inline, names) {
        return Some(finish(&e));
    }
    if let Some(c) = find_copied_code(block) {
        return Some(prefixed_hex_text(c));
    }
    if let Some(c) = find_function_code(ssa, block) {
        return Some(prefixed_hex_text(c));
    }
    if let Some(e) = find_arithmetic(block, inline, sink, names) {
        return Some(finish(&e));
    }
    if let Some(e) = recover_pred_rax_return(ssa, block, inline, sink, names) {
        return Some(finish(&e));
    }
    if let Some(e) = find_composed(sink) {
        return Some(finish(&e));
    }
    if let Some(e) = find_left(block, inline, sink, names) {
        return Some(finish(&e));
    }
    let used = find_used_return(block, inline, sink, names);
    if is_returnable(&used) {
        if let Some(e) = &used {
            return Some(finish(e));
        }
    }
    None
}

pub fn emit_return(out: &mut Vec<char>, ssa: &SsaFunction, block: &SsaBlock, inline: &TextMap, sink: &TextMap, names: &NameCtx<'_>, pad: &Vec<char>)
    ensures
        final(out)@ == old(out)@ + return_line(*ssa, *block, inline@, sink@, names@, pad@),
{
    let mut line = copy_text(pad);
    match find_return_text(ssa, block, inline, sink, names) {
        Some(t) => {
            push_lit(&mut line, "return ");
            push_text(&mut line, &t);
            push_lit(&mut line, ";\n");
        },
        None => {
            push_lit(&mut line, "return;\n");
        },
    }
    push_text(out, &line);
}

} // verus!
