//! What a reader sees of each operation.

use vstd::prelude::*;
use pcode_ir::PcodeOp;
use crate::hir::arguments::{container, passed_in};
use crate::hir::register::Gpr;
use crate::normalize::{home_disp, param_home_store, param_rank};
use crate::numbers::{dec, hex, law_numbers_read_back};
use crate::ssa::lower::reg_text;
use crate::ssa::storage::{law_register_names, law_register_names_are_apart};
use crate::ssa::{Location, SsaOp, SsaOpKind, SsaVar};
use crate::structure::expr::{op_text, operand_text, pointer_text, target_text};
use crate::structure::names::{name_text, slot_text, versioned, Names};
use crate::structure::statements::{op_line, op_lines, silent, Scene};

verus! {

/// `t` begins with `a` and ends with `b`, and they do not overlap.
pub open spec fn framed(t: Seq<char>, a: Seq<char>, b: Seq<char>) -> bool {
    t.len() >= a.len() + b.len() && t.take(a.len() as int) == a && t.skip(t.len() - b.len()) == b
}

/// `t` holds `x` somewhere.
pub open spec fn mentions(t: Seq<char>, x: Seq<char>) -> bool {
    exists|i: int| 0 <= i <= t.len() - x.len() && #[trigger] t.subrange(i, i + x.len()) == x
}

proof fn lemma_mentions(a: Seq<char>, x: Seq<char>, b: Seq<char>)
    ensures
        mentions(a + x + b, x),
{
    let t = a + x + b;
    assert(t.subrange(a.len() as int, a.len() as int + x.len()) =~= x);
}

proof fn lemma_framed(a: Seq<char>, x: Seq<char>, b: Seq<char>)
    ensures
        framed(a + x + b, a, b),
{
    let t = a + x + b;
    assert(t.take(a.len() as int) =~= a);
    assert(t.skip(t.len() - b.len()) =~= b);
}

/// Every call leaves a line, which names its target: no direct or computed call is lost.
pub proof fn law_calls_are_seen(sc: Scene, block_id: u32, i: int, op: SsaOp, p: Seq<char>)
    requires
        op.kind matches SsaOpKind::Pcode(q) && (q matches PcodeOp::Call { .. } || q matches PcodeOp::CallInd { .. }),
    ensures
        framed(op_line(sc, block_id, i, op, p), p, ");\n"@),
        op.kind matches SsaOpKind::Pcode(PcodeOp::Call { dest }) ==> mentions(
            op_line(sc, block_id, i, op, p),
            target_text(dest, op.uses@, sc.inline, sc.names, op.va),
        ),
        op.kind matches SsaOpKind::Pcode(PcodeOp::CallInd { dest }) ==> mentions(
            op_line(sc, block_id, i, op, p),
            target_text(dest, op.uses@, sc.inline, sc.names, op.va),
        ),
{
    assert(!silent(sc, op));
    let dest = match op.kind {
        SsaOpKind::Pcode(PcodeOp::Call { dest }) => dest,
        SsaOpKind::Pcode(PcodeOp::CallInd { dest }) => dest,
        _ => arbitrary(),
    };
    let key = crate::hir::lowering::SsaOperationKey { block_id, operation_index: i as u32 };
    let target = target_text(dest, op.uses@, sc.inline, sc.names, op.va);
    let line = op_line(sc, block_id, i, op, p);
    match crate::structure::statements::call_arguments(sc.ssa, sc.low, key) {
        Some(v) => {
            let args = crate::lines::join(
                crate::structure::statements::value_texts(v, sc, op.va, v.len() as int),
                ", "@,
            );
            assert(line == p + target + "("@ + args + ");\n"@);
            assert(line =~= p + (target + "("@ + args) + ");\n"@);
            lemma_framed(p, target + "("@ + args, ");\n"@);
            assert(line =~= p + target + ("("@ + args + ");\n"@));
            lemma_mentions(p, target, "("@ + args + ");\n"@);
        },
        None => {
            assert(line == p + "call("@ + target + ");\n"@);
            assert(line =~= p + ("call("@ + target) + ");\n"@);
            lemma_framed(p, "call("@ + target, ");\n"@);
            lemma_mentions(p + "call("@, target, ");\n"@);
        },
    }
}

/// Every store leaves a line that assigns its value, but one that puts a parameter into its
/// home.
pub proof fn law_stores_are_seen(sc: Scene, block_id: u32, i: int, op: SsaOp, p: Seq<char>)
    requires
        op.kind matches SsaOpKind::Pcode(PcodeOp::Store { .. }),
        !param_home_store(op),
    ensures
        op.kind matches SsaOpKind::Pcode(PcodeOp::Store { ptr, val, .. }) && {
            let value = operand_text(val, op.uses@, sc.inline, sc.names, op.va);
            let line = op_line(sc, block_id, i, op, p);
            match op.def {
                Some(SsaVar { location: Location::StackSlot { disp, .. }, .. }) => framed(
                    line,
                    p + slot_text(disp, sc.names),
                    " = "@ + value + ";\n"@,
                ),
                _ => framed(
                    line,
                    p + "*("@ + pointer_text(ptr, op.uses@, sc.inline, sc.names, op.va),
                    ") = "@ + value + ";\n"@,
                ),
            }
        },
{
    assert(!silent(sc, op));
    if let SsaOpKind::Pcode(PcodeOp::Store { ptr, val, .. }) = op.kind {
        let value = operand_text(val, op.uses@, sc.inline, sc.names, op.va);
        let line = op_line(sc, block_id, i, op, p);
        match op.def {
            Some(SsaVar { location: Location::StackSlot { disp, .. }, .. }) => {
                let a = p + slot_text(disp, sc.names);
                assert(line =~= a + Seq::<char>::empty() + (" = "@ + value + ";\n"@));
                lemma_framed(a, Seq::empty(), " = "@ + value + ";\n"@);
            },
            _ => {
                let a = p + "*("@ + pointer_text(ptr, op.uses@, sc.inline, sc.names, op.va);
                assert(line =~= a + Seq::<char>::empty() + (") = "@ + value + ";\n"@));
                lemma_framed(a, Seq::empty(), ") = "@ + value + ";\n"@);
            },
        }
    }
}

/// The operation only computes a value from its operands.
pub open spec fn only_computes(op: SsaOp) -> bool {
    op.kind matches SsaOpKind::Pcode(q) && match q {
        PcodeOp::Store { .. }
        | PcodeOp::Load { .. }
        | PcodeOp::Branch { .. }
        | PcodeOp::CBranch { .. }
        | PcodeOp::BranchInd { .. }
        | PcodeOp::Call { .. }
        | PcodeOp::CallInd { .. }
        | PcodeOp::Return { .. }
        | PcodeOp::CallOther { .. } => false,
        _ => true,
    }
}

/// A line for a value assigns the text of its operation to its name, and a value has no line
/// only where its text stands in its uses, nobody uses it, or it moves the stack pointer or
/// the frame pointer, or copies a name.
pub proof fn law_values_are_seen(sc: Scene, block_id: u32, i: int, op: SsaOp, p: Seq<char>, d: SsaVar)
    requires
        only_computes(op),
        op.def == Some(d),
    ensures
        ({
            let line = op_line(sc, block_id, i, op, p);
            let end = name_text(d, sc.names, op.va) + " = "@ + op_text(op, sc.inline, sc.names) + ";\n"@;
            ||| framed(line, p, end)
            ||| line.len() == 0 && {
                ||| sc.inline.dom().contains(d)
                ||| crate::structure::folding::use_count(sc.ssa, d) == 0
                ||| d.location == (Location::Register { base_offset: container(Gpr::Rsp) })
                ||| d.location == (Location::Register { base_offset: container(Gpr::Rbp) })
                ||| crate::structure::predicate::bare_name(op_text(op, sc.inline, sc.names))
            }
        }),
{
    reveal_strlit(";\n");
    let line = op_line(sc, block_id, i, op, p);
    let e = op_text(op, sc.inline, sc.names);
    let end = name_text(d, sc.names, op.va) + " = "@ + e + ";\n"@;
    if line.len() > 0 {
        let left = crate::structure::statements::typed_name(d, sc.types, sc.names, op.va);
        assert(line == p + left + " = "@ + e + ";\n"@);
        let name = name_text(d, sc.names, op.va);
        if left == name {
            assert(line =~= p + Seq::<char>::empty() + end);
            lemma_framed(p, Seq::empty(), end);
        } else {
            let t = crate::structure::statements::guess_text(sc.types[d])->0;
            assert(left == t + " "@ + name);
            assert(line =~= p + (t + " "@) + end);
            lemma_framed(p, t + " "@, end);
        }
    }
}

/// `t` is `line` with `before` before it and `behind` behind it.
pub open spec fn stands_in(t: Seq<char>, before: Seq<char>, line: Seq<char>, behind: Seq<char>) -> bool {
    t == before + line + behind
}

/// The lines of a block are those of its operations, one after the other.
pub proof fn law_lines_are_in_order(sc: Scene, block_id: u32, ops: Seq<SsaOp>, n: int, k: int, p: Seq<char>)
    requires
        0 <= k < n <= ops.len(),
    ensures
        exists|behind: Seq<char>| #[trigger]
            stands_in(
                op_lines(sc, block_id, ops, n, p),
                op_lines(sc, block_id, ops, k, p),
                op_line(sc, block_id, k, ops[k], p),
                behind,
            ),
    decreases n,
{
    let l = op_line(sc, block_id, k, ops[k], p);
    let before = op_lines(sc, block_id, ops, k, p);
    let all = op_lines(sc, block_id, ops, n, p);
    if k == n - 1 {
        assert(all =~= before + l + Seq::<char>::empty());
        assert(stands_in(all, before, l, Seq::empty()));
    } else {
        law_lines_are_in_order(sc, block_id, ops, n - 1, k, p);
        let less = op_lines(sc, block_id, ops, n - 1, p);
        let last = op_line(sc, block_id, n - 1, ops[n - 1], p);
        let behind = choose|behind: Seq<char>| #[trigger] stands_in(less, before, l, behind);
        assert(all == less + last);
        assert(less + last =~= before + l + (behind + last));
        assert(stands_in(all, before, l, behind + last));
    }
}

// ─── Parameters and homes ───────────────────────────────────────────────────

/// The registers that pass parameters have the ranks of their positions, no other register
/// has one, and the home of the parameter at a position is as far up the stack.
pub proof fn law_parameters(g: Gpr, disp: i64)
    ensures
        param_rank(container(g)) == (if g == passed_in(0) {
            Some(0usize)
        } else if g == passed_in(1) {
            Some(1usize)
        } else if g == passed_in(2) {
            Some(2usize)
        } else if g == passed_in(3) {
            Some(3usize)
        } else {
            None
        }),
        home_disp(disp) <==> exists|p: int| 0 <= p < 4 && disp == 8 * #[trigger] (p + 1),
{
    if home_disp(disp) {
        assert(disp == 8 * (0int + 1) || disp == 8 * (1int + 1) || disp == 8 * (2int + 1) || disp == 8 * (3int + 1));
    }
}

// ─── Names ──────────────────────────────────────────────────────────────────

/// Without names for the frame, a slot below the frame is a local and any other an argument,
/// and no two slots have one name.
pub proof fn law_slot_names(a: i64, b: i64, names: Names)
    requires
        names.frame is None,
    ensures
        a < 0 ==> framed(slot_text(a, names), "local_"@, Seq::empty()),
        a >= 0 ==> framed(slot_text(a, names), "arg_"@, Seq::empty()),
        slot_text(a, names) == slot_text(b, names) ==> a == b,
{
    reveal_strlit("local_");
    reveal_strlit("arg_");
    let ma = (if a < 0 {
        -a
    } else {
        a as int
    }) as nat;
    let mb = (if b < 0 {
        -b
    } else {
        b as int
    }) as nat;
    law_numbers_read_back(ma, 0);
    law_numbers_read_back(mb, 0);
    lemma_framed("local_"@, hex(ma), Seq::empty());
    lemma_framed("arg_"@, hex(ma), Seq::empty());
    assert("local_"@ + hex(ma) + Seq::<char>::empty() =~= "local_"@ + hex(ma));
    assert("arg_"@ + hex(ma) + Seq::<char>::empty() =~= "arg_"@ + hex(ma));
    if slot_text(a, names) == slot_text(b, names) {
        assert(slot_text(a, names)[0] == slot_text(b, names)[0]);
        if a < 0 {
            assert(b < 0);
            assert(slot_text(a, names).skip(6) =~= hex(ma));
            assert(slot_text(b, names).skip(6) =~= hex(mb));
        } else {
            assert(b >= 0);
            assert(slot_text(a, names).skip(4) =~= hex(ma));
            assert(slot_text(b, names).skip(4) =~= hex(mb));
        }
    }
}

proof fn lemma_register_name(g: Gpr)
    ensures
        forall|i: int| 0 <= i < reg_text(container(g)).len() ==> #[trigger] reg_text(container(g))[i] != '_',
        reg_text(container(g)).len() > 0,
{
    law_register_names(g);
    reveal_strlit("Rax");
    reveal_strlit("Rcx");
    reveal_strlit("Rdx");
    reveal_strlit("Rbx");
    reveal_strlit("Rsp");
    reveal_strlit("Rbp");
    reveal_strlit("Rsi");
    reveal_strlit("Rdi");
    reveal_strlit("R8");
    reveal_strlit("R9");
    reveal_strlit("R10");
    reveal_strlit("R11");
    reveal_strlit("R12");
    reveal_strlit("R13");
    reveal_strlit("R14");
    reveal_strlit("R15");
}

/// Where the version of a versioned name begins.
proof fn lemma_versioned(base: Seq<char>, v: u32, other: Seq<char>, w: u32)
    requires
        forall|i: int| 0 <= i < base.len() ==> #[trigger] base[i] != '_',
        forall|i: int| 0 <= i < other.len() ==> #[trigger] other[i] != '_',
        v >= 1,
        w >= 1,
        versioned(base, v) == versioned(other, w),
    ensures
        base == other,
        v == w,
{
    reveal_strlit("_");
    let a = versioned(base, v);
    let b = versioned(other, w);
    law_numbers_read_back(v as nat, 0);
    law_numbers_read_back(w as nat, 0);
    if v > 1 {
        assert(a[base.len() as int] == '_');
        if w > 1 {
            assert(b[other.len() as int] == '_');
            if base.len() < other.len() {
                assert(b[base.len() as int] == other[base.len() as int]);
            } else if other.len() < base.len() {
                assert(a[other.len() as int] == base[other.len() as int]);
            }
            assert(a.take(base.len() as int) =~= base);
            assert(b.take(other.len() as int) =~= other);
            assert(a.skip(base.len() as int + 1) =~= dec(v as nat));
            assert(b.skip(other.len() as int + 1) =~= dec(w as nat));
        } else {
            assert(b[base.len() as int] == other[base.len() as int]);
        }
    } else if w > 1 {
        assert(b[other.len() as int] == '_');
        assert(a[other.len() as int] == base[other.len() as int]);
    }
}

/// Where no parameter has a name, two versions of registers other than the stack pointer and the
/// frame pointer have one name only if register and version are the same.
pub proof fn law_register_versions_are_apart(g: Gpr, h: Gpr, v: u32, w: u32, names: Names, va: u64, vb: u64)
    requires
        names.sig is None,
        v >= 1,
        w >= 1,
        g != Gpr::Rsp && g != Gpr::Rbp,
        h != Gpr::Rsp && h != Gpr::Rbp,
        name_text(SsaVar { location: Location::Register { base_offset: container(g) }, version: v }, names, va)
            == name_text(SsaVar { location: Location::Register { base_offset: container(h) }, version: w }, names, vb),
    ensures
        g == h,
        v == w,
{
    lemma_register_name(g);
    lemma_register_name(h);
    lemma_versioned(reg_text(container(g)), v, reg_text(container(h)), w);
    law_register_names_are_apart(g, h);
}

} // verus!
