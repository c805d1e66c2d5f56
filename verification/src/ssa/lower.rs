//! Lowering of per-instruction P-code to operations over storage locations.
//!
//! Register varnodes are normalised to their 8-byte container; a write of any
//! size defines the whole container. Loads and stores at a frame register plus a
//! constant become stack slots, any other memory is one opaque token. Temporaries
//! belong to the instruction that uses them.

use vstd::prelude::*;
use std::collections::{BTreeMap, HashMap};
use pcode_ir::{get_output, PcodeOp, Varnode};
use crate::numbers::{hex, hex_text};
use crate::pcode::{in_const, in_register, in_unique, is_call, is_const, is_register, is_unique, op_output, op_reads, op_view, reads_of, same_varnode, PcodeView};
use crate::program::{CodeIndex, Function};
use crate::ssa::{FlatOp, Location};
use crate::text::{chars_of, push_text, string_of};

verus! {

broadcast use vstd::std_specs::hash::group_hash_axioms;

/// Per-instruction locations that a call consumes by its calling convention.
///
/// P-code calls list a destination only; for a call with a known contract these
/// locations count as its uses.
pub type CallAbiInputs = BTreeMap<u64, Vec<Location>>;

// ─── Registers ──────────────────────────────────────────────────────────────

/// The name of a register container.
pub open spec fn reg_text(base_offset: u64) -> Seq<char> {
    if base_offset == 0x00 {
        "rax"@
    } else if base_offset == 0x08 {
        "rcx"@
    } else if base_offset == 0x10 {
        "rdx"@
    } else if base_offset == 0x18 {
        "rbx"@
    } else if base_offset == 0x20 {
        "rsp"@
    } else if base_offset == 0x28 {
        "rbp"@
    } else if base_offset == 0x30 {
        "rsi"@
    } else if base_offset == 0x38 {
        "rdi"@
    } else if base_offset == 0x80 {
        "r8"@
    } else if base_offset == 0x88 {
        "r9"@
    } else if base_offset == 0x90 {
        "r10"@
    } else if base_offset == 0x98 {
        "r11"@
    } else if base_offset == 0xa0 {
        "r12"@
    } else if base_offset == 0xa8 {
        "r13"@
    } else if base_offset == 0xb0 {
        "r14"@
    } else if base_offset == 0xb8 {
        "r15"@
    } else {
        "r"@ + hex(base_offset as nat)
    }
}

pub fn reg_chars(base_offset: u64) -> (r: Vec<char>)
    ensures
        r@ == reg_text(base_offset),
{
    match base_offset {
        0x00 => chars_of("rax"),
        0x08 => chars_of("rcx"),
        0x10 => chars_of("rdx"),
        0x18 => chars_of("rbx"),
        0x20 => chars_of("rsp"),
        0x28 => chars_of("rbp"),
        0x30 => chars_of("rsi"),
        0x38 => chars_of("rdi"),
        0x80 => chars_of("r8"),
        0x88 => chars_of("r9"),
        0x90 => chars_of("r10"),
        0x98 => chars_of("r11"),
        0xa0 => chars_of("r12"),
        0xa8 => chars_of("r13"),
        0xb0 => chars_of("r14"),
        0xb8 => chars_of("r15"),
        _ => {
            let mut r = chars_of("r");
            push_text(&mut r, &hex_text(base_offset));
            r
        },
    }
}

/// Human-readable name for a register container: `rax` to `r15`, else `r` and the
/// offset in hexadecimal.
pub fn reg_name(base_offset: u64) -> (r: String)
    ensures
        r@ == reg_text(base_offset),
{
    let t = reg_chars(base_offset);
    string_of(&t)
}

/// The base of the 8-byte general-purpose container that `offset` falls in, or
/// `offset` itself where it falls in none.
///
/// The sixteen containers lie at `0x00..0x40` and `0x80..0xc0`.
pub open spec fn container_base(offset: u64) -> u64 {
    if offset < 0x40 || 0x80 <= offset < 0xc0 {
        (offset / 8 * 8) as u64
    } else {
        offset
    }
}

/// Map a register varnode offset to its 8-byte container base.
///
/// EAX, AX, AL and AH all belong to RAX. Offsets outside the general-purpose
/// containers (flags, segment registers) stand for themselves.
pub fn register_container_base(offset: u64) -> (r: u64)
    ensures
        r == container_base(offset),
{
    if offset < 0x40 || (0x80 <= offset && offset < 0xc0) {
        offset / 8 * 8
    } else {
        offset
    }
}

/// The container is RSP or RBP.
pub open spec fn frame_base(base_offset: u64) -> bool {
    base_offset == 0x20 || base_offset == 0x28
}

fn is_frame_ptr(base_offset: u64) -> (r: bool)
    ensures
        r == frame_base(base_offset),
{
    base_offset == 0x20 || base_offset == 0x28
}

// ─── Locations ──────────────────────────────────────────────────────────────

/// The storage that a varnode names: a register container or a temporary of the
/// instruction. Constants are values, and memory is resolved by loads and stores.
pub open spec fn location_of(vn: Varnode, instruction_va: u64) -> Option<Location> {
    if is_register(vn) {
        Some(Location::Register { base_offset: container_base(vn.offset) })
    } else if is_unique(vn) {
        Some(Location::Unique { instruction_va, offset: vn.offset, size: vn.size })
    } else {
        None
    }
}

/// Turn a value-carrying varnode into a storage location.
pub fn value_location(vn: Varnode, instruction_va: u64) -> (r: Option<Location>)
    ensures
        r == location_of(vn, instruction_va),
{
    if in_register(&vn) {
        Some(Location::Register { base_offset: register_container_base(vn.offset) })
    } else if in_unique(&vn) {
        Some(Location::Unique { instruction_va, offset: vn.offset, size: vn.size })
    } else {
        None
    }
}

/// The last of the first `n` operations that writes `v`.
pub open spec fn writer(ops: Seq<PcodeOp>, n: int, v: Varnode) -> Option<PcodeOp>
    decreases n,
{
    if n <= 0 {
        None
    } else if op_output(ops[n - 1]) == Some(v) {
        Some(ops[n - 1])
    } else {
        writer(ops, n - 1, v)
    }
}

fn find_writer<'a>(ops: &'a [PcodeOp], v: &Varnode) -> (r: Option<&'a PcodeOp>)
    ensures
        match r {
            Some(op) => writer(ops@, ops@.len() as int, *v) == Some(*op),
            None => writer(ops@, ops@.len() as int, *v) is None,
        },
{
    let mut n: usize = ops.len();
    while n > 0
        invariant
            n <= ops@.len(),
            writer(ops@, n as int, *v) == writer(ops@, ops@.len() as int, *v),
        decreases n,
    {
        if let Some(out) = get_output(&ops[n - 1]) {
            if same_varnode(&out, v) {
                return Some(&ops[n - 1]);
            }
        }
        n -= 1;
    }
    None
}

/// The register at the end of the copies that lead to `vn`, looked for in at most
/// `fuel` steps.
pub open spec fn base_register(vn: Varnode, ops: Seq<PcodeOp>, fuel: nat) -> Option<u64>
    decreases fuel,
{
    if is_register(vn) {
        Some(vn.offset)
    } else if fuel > 0 && is_unique(vn) {
        match writer(ops, ops.len() as int, vn) {
            Some(PcodeOp::Copy { input, .. }) => base_register(input, ops, (fuel - 1) as nat),
            _ => None,
        }
    } else {
        None
    }
}

/// Follows copies to the register used as a pointer base. An instruction with
/// `n` operations has no longer chain than `n` copies.
fn resolve_base_register(vn: Varnode, ops: &[PcodeOp]) -> (r: Option<u64>)
    ensures
        r == base_register(vn, ops@, ops@.len()),
{
    let mut cur = vn;
    let mut fuel: usize = ops.len();
    loop
        invariant
            fuel <= ops@.len(),
            base_register(cur, ops@, fuel as nat) == base_register(vn, ops@, ops@.len()),
        decreases fuel,
    {
        if in_register(&cur) {
            return Some(cur.offset);
        }
        if fuel == 0 || !in_unique(&cur) {
            return None;
        }
        match find_writer(ops, &cur) {
            Some(PcodeOp::Copy { input, .. }) => {
                cur = *input;
            },
            _ => {
                return None;
            },
        }
        fuel -= 1;
    }
}

/// A slot at `disp` from the register at `offset`, if that is a frame register.
pub open spec fn slot_or_ram(offset: Option<u64>, disp: i64) -> Location {
    match offset {
        Some(o) => if frame_base(container_base(o)) {
            Location::StackSlot { base_reg: o, disp }
        } else {
            Location::RawRam
        },
        None => Location::RawRam,
    }
}

fn slot_at(offset: Option<u64>, disp: i64) -> (r: Location)
    ensures
        r == slot_or_ram(offset, disp),
{
    match offset {
        Some(o) => if is_frame_ptr(register_container_base(o)) {
            Location::StackSlot { base_reg: o, disp }
        } else {
            Location::RawRam
        },
        None => Location::RawRam,
    }
}

/// The memory that a pointer addresses: a stack slot where the pointer is a frame
/// register, a copy of one, or one plus a constant.
pub open spec fn pointee(ptr: Varnode, ops: Seq<PcodeOp>) -> Location {
    if is_register(ptr) {
        slot_or_ram(Some(ptr.offset), 0)
    } else if is_unique(ptr) {
        match writer(ops, ops.len() as int, ptr) {
            Some(PcodeOp::IntAdd { left, right, .. }) => if is_const(right) {
                slot_or_ram(base_register(left, ops, ops.len()), right.offset as i64)
            } else if is_const(left) {
                slot_or_ram(base_register(right, ops, ops.len()), left.offset as i64)
            } else {
                Location::RawRam
            },
            Some(PcodeOp::Copy { input, .. }) => if is_register(input) {
                slot_or_ram(Some(input.offset), 0)
            } else {
                Location::RawRam
            },
            _ => Location::RawRam,
        }
    } else {
        Location::RawRam
    }
}

/// Resolve a pointer to the memory it addresses. `ops` are the operations of the
/// instruction.
pub fn resolve_ptr(ptr: Varnode, ops: &[PcodeOp]) -> (r: Location)
    ensures
        r == pointee(ptr, ops@),
{
    if in_register(&ptr) {
        return slot_at(Some(ptr.offset), 0);
    }
    if !in_unique(&ptr) {
        return Location::RawRam;
    }
    match find_writer(ops, &ptr) {
        Some(PcodeOp::IntAdd { left, right, .. }) => {
            if in_const(right) {
                slot_at(resolve_base_register(*left, ops), right.offset as i64)
            } else if in_const(left) {
                slot_at(resolve_base_register(*right, ops), left.offset as i64)
            } else {
                Location::RawRam
            }
        },
        Some(PcodeOp::Copy { input, .. }) => if in_register(input) {
            slot_at(Some(input.offset), 0)
        } else {
            Location::RawRam
        },
        _ => Location::RawRam,
    }
}

// ─── Operations ─────────────────────────────────────────────────────────────

/// The locations among the first `n` varnodes, in order.
pub open spec fn locations(v: Seq<Varnode>, va: u64, n: int) -> Seq<Location>
    decreases n,
{
    if n <= 0 {
        Seq::empty()
    } else {
        match location_of(v[n - 1], va) {
            Some(l) => locations(v, va, n - 1).push(l),
            None => locations(v, va, n - 1),
        }
    }
}

/// `uses` with those of the first `n` inputs behind it that it lacks.
pub open spec fn with_inputs(uses: Seq<Location>, inputs: Seq<Location>, n: int) -> Seq<Location>
    decreases n,
{
    if n <= 0 {
        uses
    } else {
        let rest = with_inputs(uses, inputs, n - 1);
        if rest.contains(inputs[n - 1]) {
            rest
        } else {
            rest.push(inputs[n - 1])
        }
    }
}

/// `s` with `l` behind it, if there is one.
pub open spec fn with_location(s: Seq<Location>, l: Option<Location>) -> Seq<Location> {
    match l {
        Some(x) => s.push(x),
        None => s,
    }
}

/// What an operation defines: a store defines the memory it writes.
pub open spec fn defined(op: PcodeOp, va: u64, ops: Seq<PcodeOp>) -> Option<Location> {
    match op {
        PcodeOp::Store { ptr, .. } => Some(pointee(ptr, ops)),
        PcodeOp::Load { out, .. } => location_of(out, va),
        _ => match op_output(op) {
            Some(out) => location_of(out, va),
            None => None,
        },
    }
}

/// What an operation uses, in order: a store its value and a temporary pointer, a
/// load its memory and a temporary pointer, any other operation what it reads.
pub open spec fn used(op: PcodeOp, va: u64, ops: Seq<PcodeOp>) -> Seq<Location> {
    match op {
        PcodeOp::Store { ptr, val, .. } => {
            let s = with_location(Seq::empty(), location_of(val, va));
            if is_unique(ptr) {
                with_location(s, location_of(ptr, va))
            } else {
                s
            }
        },
        PcodeOp::Load { ptr, .. } => {
            let s = seq![pointee(ptr, ops)];
            if is_unique(ptr) {
                with_location(s, location_of(ptr, va))
            } else {
                s
            }
        },
        _ => locations(op_reads(op), va, op_reads(op).len() as int),
    }
}

/// What an operation uses, with the inputs of a call.
pub open spec fn used_with_inputs(op: PcodeOp, va: u64, ops: Seq<PcodeOp>, inputs: Seq<Location>) -> Seq<Location> {
    if is_call(op) {
        with_inputs(used(op, va, ops), inputs, inputs.len() as int)
    } else {
        used(op, va, ops)
    }
}

fn has_location(v: &Vec<Location>, l: &Location) -> (r: bool)
    ensures
        r == v@.contains(*l),
{
    let mut i: usize = 0;
    while i < v.len()
        invariant
            i <= v@.len(),
            forall|j: int| 0 <= j < i ==> v@[j] != *l,
        decreases v@.len() - i,
    {
        if v[i] == *l {
            return true;
        }
        i += 1;
    }
    false
}

fn push_value_use(uses: &mut Vec<Location>, vn: Varnode, va: u64)
    ensures
        final(uses)@ == with_location(old(uses)@, location_of(vn, va)),
{
    if let Some(l) = value_location(vn, va) {
        uses.push(l);
    }
}

/// Resolve the definition and uses of one operation. `ops` are the operations of
/// its instruction; `call_abi_inputs` count as uses of a call.
pub fn resolve_op(op: &PcodeOp, instruction_va: u64, ops: &[PcodeOp], call_abi_inputs: &[Location]) -> (r: (Option<Location>, Vec<Location>))
    ensures
        r.0 == defined(*op, instruction_va, ops@),
        r.1@ == used_with_inputs(*op, instruction_va, ops@, call_abi_inputs@),
{
    let mut uses: Vec<Location> = Vec::new();
    let def: Option<Location> = match op {
        PcodeOp::Store { ptr, val, .. } => {
            push_value_use(&mut uses, *val, instruction_va);
            if in_unique(ptr) {
                push_value_use(&mut uses, *ptr, instruction_va);
            }
            Some(resolve_ptr(*ptr, ops))
        },
        PcodeOp::Load { ptr, out, .. } => {
            let slot = resolve_ptr(*ptr, ops);
            uses.push(slot);
            assert(uses@ =~= seq![slot]);
            if in_unique(ptr) {
                push_value_use(&mut uses, *ptr, instruction_va);
            }
            value_location(*out, instruction_va)
        },
        _ => {
            let reads = reads_of(op);
            let mut k: usize = 0;
            while k < reads.len()
                invariant
                    k <= reads@.len(),
                    uses@ == locations(reads@, instruction_va, k as int),
                decreases reads@.len() - k,
            {
                push_value_use(&mut uses, reads[k], instruction_va);
                k += 1;
            }
            match get_output(op) {
                Some(out) => value_location(out, instruction_va),
                None => None,
            }
        },
    };
    let ghost base = uses@;
    assert(base == used(*op, instruction_va, ops@));
    let call = matches!(op, PcodeOp::Call { .. } | PcodeOp::CallInd { .. });
    if call {
        let mut i: usize = 0;
        while i < call_abi_inputs.len()
            invariant
                i <= call_abi_inputs@.len(),
                uses@ == with_inputs(base, call_abi_inputs@, i as int),
            decreases call_abi_inputs@.len() - i,
        {
            let l = call_abi_inputs[i];
            if !has_location(&uses, &l) {
                uses.push(l);
            }
            i += 1;
        }
    }
    (def, uses)
}

// ─── Functions ──────────────────────────────────────────────────────────────

/// A lowered operation as a value.
#[verifier::ext_equal]
pub ghost struct FlatView {
    pub va: u64,
    pub op: PcodeView,
    pub def: Option<Location>,
    pub uses: Seq<Location>,
}

impl View for FlatOp {
    type V = FlatView;

    open spec fn view(&self) -> FlatView {
        FlatView { va: self.va, op: op_view(self.op), def: self.def, uses: self.uses@ }
    }
}

/// Lowered operations as values.
pub open spec fn flat_views(v: Seq<FlatOp>) -> Seq<FlatView> {
    Seq::new(v.len(), |i: int| v[i]@)
}

/// Lowered blocks as values.
pub open spec fn block_views(v: Seq<Vec<FlatOp>>) -> Seq<Seq<FlatView>> {
    Seq::new(v.len(), |i: int| flat_views(v[i]@))
}

/// The inputs that a call at `va` consumes.
pub open spec fn inputs_at(inputs: Map<u64, Vec<Location>>, va: u64) -> Seq<Location> {
    if inputs.dom().contains(va) {
        inputs[va]@
    } else {
        Seq::empty()
    }
}

/// The lowered operations of the instruction at `va`.
pub open spec fn lowered(ops: Seq<PcodeOp>, va: u64, inputs: Seq<Location>) -> Seq<FlatView> {
    Seq::new(
        ops.len(),
        |i: int|
            FlatView {
                va,
                op: op_view(ops[i]),
                def: defined(ops[i], va, ops),
                uses: used_with_inputs(ops[i], va, ops, inputs),
            },
    )
}

/// The lowered operations at `va`, if the instruction has been lifted.
pub open spec fn lowered_at(pcode: Map<u64, Vec<PcodeOp>>, inputs: Map<u64, Vec<Location>>, va: u64) -> Seq<FlatView> {
    if pcode.dom().contains(va) {
        lowered(pcode[va]@, va, inputs_at(inputs, va))
    } else {
        Seq::empty()
    }
}

/// `acc` with the lowered operations from `va` to `exit` behind it.
pub open spec fn lowered_from(pcode: Map<u64, Vec<PcodeOp>>, index: CodeIndex, inputs: Map<u64, Vec<Location>>, va: u64, exit: u64, acc: Seq<FlatView>) -> Seq<FlatView>
    decreases u64::MAX - va,
{
    let here = acc + lowered_at(pcode, inputs, va);
    if va == exit {
        here
    } else {
        match index.next(va) {
            Some(next) => if next > va {
                lowered_from(pcode, index, inputs, next, exit, here)
            } else {
                here
            },
            None => here,
        }
    }
}

/// Flatten a function's P-code into one list of lowered operations per block.
/// Instructions follow each other as in the code index.
pub fn lower_function_with_call_abi_inputs(func: &Function, pcode: &HashMap<u64, Vec<PcodeOp>>, code_index: &CodeIndex, call_abi_inputs: &CallAbiInputs) -> (r: Vec<Vec<FlatOp>>)
    requires
        code_index.wf(),
    ensures
        block_views(r@) == Seq::new(
            func.blocks@.len(),
            |b: int|
                lowered_from(
                    pcode@,
                    *code_index,
                    call_abi_inputs@,
                    func.blocks@[b].entry_va,
                    func.blocks@[b].exit_va,
                    Seq::empty(),
                ),
        ),
{
    let mut out: Vec<Vec<FlatOp>> = Vec::new();
    let ghost want = Seq::new(
        func.blocks@.len(),
        |b: int|
            lowered_from(
                pcode@,
                *code_index,
                call_abi_inputs@,
                func.blocks@[b].entry_va,
                func.blocks@[b].exit_va,
                Seq::empty(),
            ),
    );
    let mut b: usize = 0;
    while b < func.blocks.len()
        invariant
            b <= func.blocks@.len(),
            want.len() == func.blocks@.len(),
            code_index.wf(),
            forall|k: int|
                0 <= k < func.blocks@.len() ==> #[trigger] want[k] == lowered_from(
                    pcode@,
                    *code_index,
                    call_abi_inputs@,
                    func.blocks@[k].entry_va,
                    func.blocks@[k].exit_va,
                    Seq::empty(),
                ),
            out@.len() == b,
            forall|k: int| 0 <= k < b ==> flat_views((#[trigger] out@[k])@) == want[k],
        decreases func.blocks@.len() - b,
    {
        let block = &func.blocks[b];
        let mut flat: Vec<FlatOp> = Vec::new();
        let mut va: u64 = block.entry_va;
        let exit: u64 = block.exit_va;
        assert(flat_views(flat@) =~= Seq::empty());
        loop
            invariant_except_break
                code_index.wf(),
                lowered_from(
                    pcode@,
                    *code_index,
                    call_abi_inputs@,
                    va,
                    exit,
                    flat_views(flat@),
                ) == want[b as int],
            ensures
                flat_views(flat@) == want[b as int],
            decreases u64::MAX - va,
        {
            let ghost acc = flat_views(flat@);
            if let Some(ops) = pcode.get(&va) {
                let none: Vec<Location> = Vec::new();
                let inputs: &Vec<Location> = match call_abi_inputs.get(&va) {
                    Some(v) => v,
                    None => &none,
                };
                assert(inputs@ =~= inputs_at(call_abi_inputs@, va));
                let mut i: usize = 0;
                assert(acc + lowered(ops@, va, inputs@).take(0) =~= acc);
                while i < ops.len()
                    invariant
                        i <= ops@.len(),
                        flat_views(flat@) == acc + lowered(ops@, va, inputs@).take(i as int),
                    decreases ops@.len() - i,
                {
                    let (def, uses) = resolve_op(&ops[i], va, ops, inputs);
                    let new = FlatOp { va, op: ops[i].clone(), def, uses };
                    let ghost f0 = flat@;
                    flat.push(new);
                    proof {
                        assert(flat_views(flat@) =~= flat_views(f0).push(new@));
                        assert(new@ == lowered(ops@, va, inputs@)[i as int]);
                        assert(acc + lowered(ops@, va, inputs@).take(i + 1) =~= (acc + lowered(
                            ops@,
                            va,
                            inputs@,
                        ).take(i as int)).push(lowered(ops@, va, inputs@)[i as int]));
                    }
                    i += 1;
                }
                assert(lowered(ops@, va, inputs@).take(ops@.len() as int) =~= lowered(
                    ops@,
                    va,
                    inputs@,
                ));
            } else {
                assert(acc + lowered_at(pcode@, call_abi_inputs@, va) =~= acc);
            }
            assert(flat_views(flat@) == acc + lowered_at(pcode@, call_abi_inputs@, va));
            if va == exit {
                break;
            }
            match code_index.at_va(va) {
                Some(dec) => {
                    va = dec.next_ip;
                },
                None => {
                    break;
                },
            }
        }
        out.push(flat);
        b += 1;
    }
    assert(block_views(out@) =~= want);
    out
}

} // verus!
