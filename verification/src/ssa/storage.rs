//! What the locations of SSA form stand for.

use vstd::prelude::*;
use pcode_ir::{PcodeOp, Varnode};
use crate::hir::arguments::container;
use crate::hir::register::{gpr_label, Gpr};
use crate::lines::lower_all;
use crate::pcode::{is_const, is_register, is_unique, op_output, op_reads};
use crate::ssa::lower::{base_register, container_base, defined, locations, pointee, reg_text, used, used_with_inputs, with_inputs, writer};
use crate::ssa::Location;
use crate::structure::meaning::computed;

verus! {

// ─── Registers ──────────────────────────────────────────────────────────────

/// Every byte of a general-purpose register belongs to that register, and no other offset
/// is taken for one.
pub proof fn law_containers(offset: u64)
    ensures
        forall|g: Gpr| container(g) <= offset < container(g) + 8 ==> container_base(offset) == #[trigger] container(g),
        (forall|g: Gpr| !(#[trigger] container(g) <= offset < container(g) + 8)) ==> container_base(offset) == offset,
        container_base(container_base(offset)) == container_base(offset),
{
    if forall|g: Gpr| !(#[trigger] container(g) <= offset < container(g) + 8) {
        assert(!(container(Gpr::Rax) <= offset < container(Gpr::Rax) + 8));
        assert(!(container(Gpr::Rcx) <= offset < container(Gpr::Rcx) + 8));
        assert(!(container(Gpr::Rdx) <= offset < container(Gpr::Rdx) + 8));
        assert(!(container(Gpr::Rbx) <= offset < container(Gpr::Rbx) + 8));
        assert(!(container(Gpr::Rsp) <= offset < container(Gpr::Rsp) + 8));
        assert(!(container(Gpr::Rbp) <= offset < container(Gpr::Rbp) + 8));
        assert(!(container(Gpr::Rsi) <= offset < container(Gpr::Rsi) + 8));
        assert(!(container(Gpr::Rdi) <= offset < container(Gpr::Rdi) + 8));
        assert(!(container(Gpr::R8) <= offset < container(Gpr::R8) + 8));
        assert(!(container(Gpr::R9) <= offset < container(Gpr::R9) + 8));
        assert(!(container(Gpr::R10) <= offset < container(Gpr::R10) + 8));
        assert(!(container(Gpr::R11) <= offset < container(Gpr::R11) + 8));
        assert(!(container(Gpr::R12) <= offset < container(Gpr::R12) + 8));
        assert(!(container(Gpr::R13) <= offset < container(Gpr::R13) + 8));
        assert(!(container(Gpr::R14) <= offset < container(Gpr::R14) + 8));
        assert(!(container(Gpr::R15) <= offset < container(Gpr::R15) + 8));
    }
}

/// A register container has the name of its register, in small letters.
pub proof fn law_register_names(g: Gpr)
    ensures
        reg_text(container(g)) == lower_all(gpr_label(g)),
{
    reveal_strlit("rax");
    reveal_strlit("rcx");
    reveal_strlit("rdx");
    reveal_strlit("rbx");
    reveal_strlit("rsp");
    reveal_strlit("rbp");
    reveal_strlit("rsi");
    reveal_strlit("rdi");
    reveal_strlit("r8");
    reveal_strlit("r9");
    reveal_strlit("r10");
    reveal_strlit("r11");
    reveal_strlit("r12");
    reveal_strlit("r13");
    reveal_strlit("r14");
    reveal_strlit("r15");
    reveal_strlit("Rax");
    reveal_strlit("Rcx");
    reveal_strlit("Rdx");
    reveal_strlit("Rbx");
    reveal_strlit("Rsp");
    reveal_strlit("Rbp");
    reveal_strlit("Rsi");
    reveal_strlit("Rdi");
    reveal_strlit("R8");
    reveal_strlit("R9");
    reveal_strlit("R10");
    reveal_strlit("R11");
    reveal_strlit("R12");
    reveal_strlit("R13");
    reveal_strlit("R14");
    reveal_strlit("R15");
    assert(reg_text(container(g)) =~= lower_all(gpr_label(g)));
}

/// No two registers have one name.
pub proof fn law_register_names_are_apart(g: Gpr, h: Gpr)
    requires
        reg_text(container(g)) == reg_text(container(h)),
    ensures
        g == h,
{
    reveal_strlit("rax");
    reveal_strlit("rcx");
    reveal_strlit("rdx");
    reveal_strlit("rbx");
    reveal_strlit("rsp");
    reveal_strlit("rbp");
    reveal_strlit("rsi");
    reveal_strlit("rdi");
    reveal_strlit("r8");
    reveal_strlit("r9");
    reveal_strlit("r10");
    reveal_strlit("r11");
    reveal_strlit("r12");
    reveal_strlit("r13");
    reveal_strlit("r14");
    reveal_strlit("r15");
    let a = reg_text(container(g));
    let b = reg_text(container(h));
    assert(a.len() == b.len());
    assert(a[1] == b[1]);
    if a.len() == 3 {
        assert(a[2] == b[2]);
    }
}

// ─── Pointers ───────────────────────────────────────────────────────────────

/// Operation `k` of an instruction holds under the values `x`: a copy copies, and a sum adds.
pub open spec fn obeyed(op: PcodeOp, x: spec_fn(Varnode) -> int) -> bool {
    match op {
        PcodeOp::Copy { out, input } => x(out) == x(input),
        PcodeOp::IntAdd { out, left, right } => x(out) == (x(left) + x(right)) % 0x1_0000_0000_0000_0000,
        _ => true,
    }
}

/// `x` gives every varnode of an instruction the value that it has there. Constants have their
/// own values.
pub open spec fn runs(ops: Seq<PcodeOp>, x: spec_fn(Varnode) -> int) -> bool {
    &&& forall|k: int| 0 <= k < ops.len() ==> obeyed(#[trigger] ops[k], x)
    &&& forall|n: Varnode| n.space is Const ==> #[trigger] x(n) == n.offset
    &&& forall|n: Varnode| 0 <= #[trigger] x(n) < 0x1_0000_0000_0000_0000
}

/// The varnode is in the stack pointer or the frame pointer.
pub open spec fn frame_register(n: Varnode) -> bool {
    is_register(n) && (container(Gpr::Rsp) <= n.offset < container(Gpr::Rsp) + 8 || container(Gpr::Rbp) <= n.offset
        < container(Gpr::Rbp) + 8)
}

proof fn lemma_writer(ops: Seq<PcodeOp>, n: int, v: Varnode)
    requires
        0 <= n <= ops.len(),
    ensures
        match writer(ops, n, v) {
            Some(op) => op_output(op) == Some(v) && exists|k: int| 0 <= k < n && #[trigger] ops[k] == op,
            None => forall|k: int| 0 <= k < n ==> op_output(#[trigger] ops[k]) != Some(v),
        },
    decreases n,
{
    if n > 0 {
        lemma_writer(ops, n - 1, v);
        if writer(ops, n, v) is Some {
            if op_output(ops[n - 1]) == Some(v) {
                assert(ops[n - 1] == writer(ops, n, v)->0);
            } else {
                let k = choose|k: int| 0 <= k < n - 1 && #[trigger] ops[k] == writer(ops, n - 1, v)->0;
                assert(ops[k] == writer(ops, n, v)->0);
            }
        }
    }
}

proof fn lemma_base_register(vn: Varnode, ops: Seq<PcodeOp>, fuel: nat, x: spec_fn(Varnode) -> int) -> (r: Varnode)
    requires
        runs(ops, x),
    ensures
        base_register(vn, ops, fuel) matches Some(o) ==> is_register(r) && r.offset == o && x(r) == x(vn),
    decreases fuel,
{
    if !is_register(vn) && fuel > 0 && is_unique(vn) {
        lemma_writer(ops, ops.len() as int, vn);
        match writer(ops, ops.len() as int, vn) {
            Some(PcodeOp::Copy { out, input }) => {
                let op = PcodeOp::Copy { out, input };
                let k = choose|k: int| 0 <= k < ops.len() && #[trigger] ops[k] == op;
                assert(obeyed(ops[k], x));
                lemma_base_register(input, ops, (fuel - 1) as nat, x)
            },
            _ => vn,
        }
    } else {
        vn
    }
}

proof fn lemma_signed(d: u64)
    ensures
        (d as i64) as int == d || (d as i64) as int == d - 0x1_0000_0000_0000_0000,
{
    assert((d as i64) as int == d || (d as i64) as int == d - 0x1_0000_0000_0000_0000) by (bit_vector);
}

/// A pointer that is taken for a stack slot has the address of the slot, however the
/// instruction runs: the stack pointer or the frame pointer and the displacement.
pub proof fn law_slots_are_addresses(ptr: Varnode, ops: Seq<PcodeOp>, x: spec_fn(Varnode) -> int)
    requires
        runs(ops, x),
    ensures
        match pointee(ptr, ops) {
            Location::StackSlot { base_reg, disp } => exists|r: Varnode|
                frame_register(r) && r.offset == base_reg && x(ptr) == (#[trigger] x(r) + disp) % 0x1_0000_0000_0000_0000,
            Location::RawRam => !frame_register(ptr),
            _ => false,
        },
{
    let n = ops.len() as int;
    assert(forall|o: u64| #![trigger container_base(o)] container_base(o) == 0x20 ==> 0x20 <= o < 0x28);
    assert(forall|o: u64| #![trigger container_base(o)] container_base(o) == 0x28 ==> 0x28 <= o < 0x30);
    if is_register(ptr) {
        assert(frame_register(ptr) == (container_base(ptr.offset) == 0x20 || container_base(ptr.offset) == 0x28));
        if pointee(ptr, ops) is StackSlot {
            assert(x(ptr) == (x(ptr) + 0) % 0x1_0000_0000_0000_0000);
        }
    } else if is_unique(ptr) {
        lemma_writer(ops, n, ptr);
        if let Some(op) = writer(ops, n, ptr) {
            let k = choose|k: int| 0 <= k < ops.len() && #[trigger] ops[k] == op;
            assert(obeyed(ops[k], x));
            if let PcodeOp::IntAdd { out, left, right } = op {
                let by_left = lemma_base_register(left, ops, ops.len(), x);
                let by_right = lemma_base_register(right, ops, ops.len(), x);
                lemma_signed(left.offset);
                lemma_signed(right.offset);
                if let Location::StackSlot { base_reg, disp } = pointee(ptr, ops) {
                    if is_const(right) {
                        let r = by_left;
                        assert(frame_register(r));
                        assert(x(right) == right.offset);
                        assert((x(left) + right.offset) % 0x1_0000_0000_0000_0000 == (x(r) + disp) % 0x1_0000_0000_0000_0000);
                    } else {
                        let r = by_right;
                        assert(frame_register(r));
                        assert(x(left) == left.offset);
                        assert((left.offset + x(right)) % 0x1_0000_0000_0000_0000 == (x(r) + disp) % 0x1_0000_0000_0000_0000);
                    }
                }
            }
            if let PcodeOp::Copy { out, input } = op {
                if pointee(ptr, ops) is StackSlot {
                    assert(frame_register(input));
                    assert(x(ptr) == (x(input) + 0) % 0x1_0000_0000_0000_0000);
                }
            }
        }
    }
}

// ─── Uses and definitions ───────────────────────────────────────────────────

/// Where the varnode is stored, if it is in a register or a temporary.
pub open spec fn stored(n: Varnode, va: u64, l: Location) -> bool {
    match l {
        Location::Register { base_offset } => is_register(n) && base_offset == container_base(n.offset),
        Location::Unique { instruction_va, offset, size } => is_unique(n) && instruction_va == va && offset == n.offset
            && size == n.size,
        _ => false,
    }
}

proof fn lemma_locations(v: Seq<Varnode>, va: u64, n: int)
    requires
        0 <= n <= v.len(),
    ensures
        forall|l: Location| #[trigger]
            locations(v, va, n).contains(l) <==> exists|k: int| 0 <= k < n && stored(#[trigger] v[k], va, l),
    decreases n,
{
    if n > 0 {
        lemma_locations(v, va, n - 1);
        let less = locations(v, va, n - 1);
        let s = locations(v, va, n);
        assert forall|l: Location| #[trigger] s.contains(l) <==> exists|k: int|
            0 <= k < n && stored(#[trigger] v[k], va, l) by {
            if s.contains(l) {
                let i = choose|i: int| 0 <= i < s.len() && s[i] == l;
                if i < less.len() {
                    assert(less.contains(less[i]));
                } else {
                    assert(stored(v[n - 1], va, l));
                }
            }
            if exists|k: int| 0 <= k < n && stored(#[trigger] v[k], va, l) {
                let k = choose|k: int| 0 <= k < n && stored(#[trigger] v[k], va, l);
                if k < n - 1 {
                    assert(less.contains(l));
                    let i = choose|i: int| 0 <= i < less.len() && less[i] == l;
                    assert(s[i] == l);
                } else {
                    assert(s[s.len() - 1] == l);
                }
            }
        }
    }
}

/// An operation uses exactly the storage of what it reads. A store also uses a temporary
/// pointer, and a load the memory that it reads.
pub proof fn law_uses_are_reads(op: PcodeOp, va: u64, ops: Seq<PcodeOp>, l: Location)
    ensures
        match op {
            PcodeOp::Store { ptr, val, .. } => used(op, va, ops).contains(l) <==> stored(val, va, l) || is_unique(ptr)
                && stored(ptr, va, l),
            PcodeOp::Load { ptr, .. } => used(op, va, ops).contains(l) <==> l == pointee(ptr, ops) || is_unique(ptr)
                && stored(ptr, va, l),
            _ => used(op, va, ops).contains(l) <==> exists|k: int|
                0 <= k < op_reads(op).len() && stored(#[trigger] op_reads(op)[k], va, l),
        },
{
    let s = used(op, va, ops);
    match op {
        PcodeOp::Store { ptr, val, .. } => {
            if stored(val, va, l) {
                assert(s[0] == l);
            }
            if is_unique(ptr) && stored(ptr, va, l) {
                assert(s[s.len() - 1] == l);
            }
        },
        PcodeOp::Load { ptr, .. } => {
            assert(s[0] == pointee(ptr, ops));
            if is_unique(ptr) && stored(ptr, va, l) {
                assert(s[1] == l);
            }
        },
        _ => {
            lemma_locations(op_reads(op), va, op_reads(op).len() as int);
        },
    }
}

/// An operation defines the storage of what it writes, and a store the memory that it writes.
pub proof fn law_definition_is_the_output(op: PcodeOp, va: u64, ops: Seq<PcodeOp>)
    ensures
        match op {
            PcodeOp::Store { ptr, .. } => defined(op, va, ops) == Some(pointee(ptr, ops)),
            _ => match defined(op, va, ops) {
                Some(l) => op_output(op) matches Some(out) && stored(out, va, l),
                None => op_output(op) matches Some(out) ==> !is_register(out) && !is_unique(out),
            },
        },
{
}

proof fn lemma_with_inputs(uses: Seq<Location>, inputs: Seq<Location>, n: int)
    requires
        0 <= n <= inputs.len(),
    ensures
        ({
            let s = with_inputs(uses, inputs, n);
            &&& uses.is_prefix_of(s)
            &&& forall|k: int| 0 <= k < n ==> s.contains(#[trigger] inputs[k])
            &&& forall|i: int|
                uses.len() <= i < s.len() ==> inputs.contains(#[trigger] s[i]) && forall|j: int|
                    0 <= j < i ==> s[j] != s[i]
        }),
    decreases n,
{
    if n > 0 {
        lemma_with_inputs(uses, inputs, n - 1);
        let less = with_inputs(uses, inputs, n - 1);
        let s = with_inputs(uses, inputs, n);
        assert forall|k: int| 0 <= k < n implies s.contains(#[trigger] inputs[k]) by {
            if k < n - 1 {
                assert(less.contains(inputs[k]));
                let i = choose|i: int| 0 <= i < less.len() && less[i] == inputs[k];
                assert(s[i] == inputs[k]);
            } else if !less.contains(inputs[k]) {
                assert(s[s.len() - 1] == inputs[k]);
            }
        }
        assert forall|i: int| uses.len() <= i < s.len() implies inputs.contains(#[trigger] s[i]) && forall|j: int|
            0 <= j < i ==> s[j] != s[i] by {
            if i < less.len() {
                assert(less[i] == s[i]);
                assert forall|j: int| 0 <= j < i implies s[j] != s[i] by {
                    assert(less[j] == s[j]);
                }
            } else {
                assert(inputs.contains(inputs[n - 1]));
                assert forall|j: int| 0 <= j < i implies s[j] != s[i] by {
                    assert(less.contains(less[j]));
                }
            }
        }
    }
}

/// A call, direct or not, uses what it reads and all that its contract takes, each once; any
/// other operation uses what it reads.
pub proof fn law_calls_take_their_inputs(op: PcodeOp, va: u64, ops: Seq<PcodeOp>, inputs: Seq<Location>)
    ensures
        ({
            let s = used_with_inputs(op, va, ops, inputs);
            let calls = op matches PcodeOp::Call { .. } || op matches PcodeOp::CallInd { .. };
            &&& used(op, va, ops).is_prefix_of(s)
            &&& calls ==> forall|k: int| 0 <= k < inputs.len() ==> s.contains(#[trigger] inputs[k])
            &&& forall|i: int|
                used(op, va, ops).len() <= i < s.len() ==> calls && inputs.contains(#[trigger] s[i]) && forall|j: int|
                    0 <= j < i ==> s[j] != s[i]
        }),
{
    lemma_with_inputs(used(op, va, ops), inputs, inputs.len() as int);
}

/// What an operation computes depends on nothing but what it reads.
pub proof fn law_reads_suffice(p: PcodeOp, x: spec_fn(Varnode) -> u64, y: spec_fn(Varnode) -> u64, memory: spec_fn(u64, u32) -> u64)
    requires
        forall|k: int| 0 <= k < op_reads(p).len() ==> x(#[trigger] op_reads(p)[k]) == y(op_reads(p)[k]),
    ensures
        computed(p, x, memory) == computed(p, y, memory),
        computed(p, x, memory) matches Some((_, size)) ==> (op_output(p) matches Some(out) && out.size == size),
{
    let r = op_reads(p);
    if r.len() > 0 {
        assert(x(r[0]) == y(r[0]));
    }
    if r.len() > 1 {
        assert(x(r[1]) == y(r[1]));
    }
}

} // verus!
