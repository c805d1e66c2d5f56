//! Where the pointer of each load and store leads: to a global, an import slot, the
//! stack, a parameter, or memory of which nothing is known.
//!
//! The SSA form keeps unresolved memory as one location; this map stands beside it.

use vstd::prelude::*;
use std::collections::HashMap;
use pcode_ir::{PcodeOp, Varnode};
use crate::analysis::evidence::law_slots_and_globals;
use crate::maps::{entries_map, lookup};
use crate::numbers::{prefixed_hex, prefixed_hex_text};
use crate::pcode::{in_const, in_ram, in_register, is_const, is_ram, is_register, PcodeView};
use crate::program::{AddressSpace, DecodedInstr, SymbolTable};
use crate::ssa::lower::{container_base, register_container_base};
use crate::ssa::reach::used_from;
use crate::ssa::{BlockView, FunctionView, KindView, Location, OpView, SsaFunction, SsaOp, SsaOpKind, SsaVar};
use crate::hir::lowering::target_temporary;
use crate::text::{chars_of, push_lit, string_of};

verus! {

broadcast use vstd::std_specs::hash::group_hash_axioms;

/// What a pointer leads to.
#[derive(Clone, Copy, Debug, PartialEq, Eq, Structural)]
pub enum PointsToKind {
    Global,
    IATSlot,
    StackRef,
    HeapUnknown,
    ParamPtr,
}

/// The target of one load or store.
#[derive(Clone, Debug, PartialEq, Eq)]
pub struct PointsToEntry {
    pub kind: PointsToKind,
    pub va: Option<u64>,
    pub symbol: Option<String>,
    /// Displacement from the frame, for a stack reference.
    pub stack_disp: Option<i64>,
}

/// A target as a value.
#[verifier::ext_equal]
pub ghost struct EntryView {
    pub kind: PointsToKind,
    pub va: Option<u64>,
    pub symbol: Option<Seq<char>>,
    pub stack_disp: Option<i64>,
}

/// The text of an optional string.
pub open spec fn symbol_text(s: Option<String>) -> Option<Seq<char>> {
    match s {
        Some(t) => Some(t@),
        None => None,
    }
}

impl View for PointsToEntry {
    type V = EntryView;

    open spec fn view(&self) -> EntryView {
        EntryView {
            kind: self.kind,
            va: self.va,
            symbol: symbol_text(self.symbol),
            stack_disp: self.stack_disp,
        }
    }
}

/// Targets by instruction and operand; the pointer is operand 0.
#[derive(Clone, Debug)]
pub struct PointsToMap {
    pub entries: Vec<((u64, u32), PointsToEntry)>,
}

impl View for PointsToMap {
    type V = Map<(u64, u32), EntryView>;

    open spec fn view(&self) -> Map<(u64, u32), EntryView> {
        entries_map(self.entries@).map_values(|e: PointsToEntry| e@)
    }
}

impl Default for PointsToMap {
    fn default() -> (r: PointsToMap)
        ensures
            r@ == Map::<(u64, u32), EntryView>::empty(),
    {
        let r = PointsToMap { entries: Vec::new() };
        assert(r@ =~= Map::empty());
        r
    }
}

/// `v` is the address of a global or an import slot that the map holds.
pub open spec fn holds_global(m: Map<(u64, u32), EntryView>, v: u64) -> bool {
    exists|k: (u64, u32)| #[trigger]
        m.dom().contains(k) && (m[k].kind == PointsToKind::Global || m[k].kind
            == PointsToKind::IATSlot) && m[k].va == Some(v)
}

fn insert_va(v: &mut Vec<u64>, x: u64)
    requires
        forall|i: int, j: int| 0 <= i < j < old(v)@.len() ==> old(v)@[i] < old(v)@[j],
    ensures
        forall|i: int, j: int| 0 <= i < j < final(v)@.len() ==> final(v)@[i] < final(v)@[j],
        forall|y: u64| #[trigger] final(v)@.contains(y) <==> old(v)@.contains(y) || y == x,
{
    let ghost before = v@;
    let mut i: usize = 0;
    while i < v.len() && v[i] < x
        invariant
            i <= v@.len(),
            v@ == before,
            forall|j: int| 0 <= j < i ==> v@[j] < x,
        decreases v@.len() - i,
    {
        i += 1;
    }
    if i < v.len() && v[i] == x {
        return;
    }
    v.insert(i, x);
    proof {
        assert(v@ =~= before.insert(i as int, x));
        assert(v@[i as int] == x);
        assert forall|y: u64| #[trigger] v@.contains(y) <==> before.contains(y) || y == x by {
            if before.contains(y) {
                let j = choose|j: int| 0 <= j < before.len() && before[j] == y;
                if j < i {
                    assert(v@[j] == y);
                } else {
                    assert(v@[j + 1] == y);
                }
            }
            if v@.contains(y) {
                let j = choose|j: int| 0 <= j < v@.len() && v@[j] == y;
                if j < i {
                    assert(before[j] == y);
                } else if j > i {
                    assert(before[j - 1] == y);
                }
            }
        }
    }
}

impl PointsToMap {
    /// The target of an operand.
    pub fn get(&self, va: u64, op_index: u32) -> (r: Option<&PointsToEntry>)
        ensures
            match r {
                Some(e) => lookup(self@, (va, op_index)) == Some(e@),
                None => lookup(self@, (va, op_index)) is None,
            },
    {
        let mut n: usize = self.entries.len();
        let ghost k = (va, op_index);
        assert(self.entries@.take(n as int) =~= self.entries@);
        while n > 0
            invariant
                n <= self.entries@.len(),
                k == (va, op_index),
                lookup(entries_map(self.entries@.take(n as int)), k) == lookup(
                    entries_map(self.entries@),
                    k,
                ),
            decreases n,
        {
            assert(self.entries@.take(n as int).drop_last() =~= self.entries@.take(n - 1));
            let key = self.entries[n - 1].0;
            if key.0 == va && key.1 == op_index {
                return Some(&self.entries[n - 1].1);
            }
            n -= 1;
        }
        None
    }

    /// The target of an instruction's pointer.
    pub fn by_instruction(&self, va: u64) -> (r: Option<&PointsToEntry>)
        ensures
            match r {
                Some(e) => lookup(self@, (va, 0u32)) == Some(e@),
                None => lookup(self@, (va, 0u32)) is None,
            },
    {
        self.get(va, 0)
    }

    fn insert(&mut self, va: u64, entry: PointsToEntry)
        ensures
            final(self)@ == old(self)@.insert((va, 0u32), entry@),
    {
        self.entries.push(((va, 0u32), entry));
        assert(self.entries@.drop_last() =~= old(self).entries@);
        assert(self@ =~= old(self)@.insert((va, 0u32), entry@));
    }

    /// All distinct addresses of globals and import slots, in ascending order.
    pub fn global_vas(&self) -> (r: Vec<u64>)
        ensures
            forall|i: int, j: int| 0 <= i < j < r@.len() ==> r@[i] < r@[j],
            forall|v: u64| #[trigger] r@.contains(v) <==> holds_global(self@, v),
    {
        let mut r: Vec<u64> = Vec::new();
        let mut i: usize = 0;
        while i < self.entries.len()
            invariant
                i <= self.entries@.len(),
                forall|i: int, j: int| 0 <= i < j < r@.len() ==> r@[i] < r@[j],
                forall|v: u64| #[trigger] r@.contains(v) ==> holds_global(self@, v),
                forall|k: int, v: u64|
                    0 <= k < i && #[trigger] global_at(self@, self.entries@[k].0, v)
                        ==> r@.contains(v),
            decreases self.entries@.len() - i,
        {
            let key = self.entries[i].0;
            let ghost before = r@;
            if let Some(e) = self.get(key.0, key.1) {
                if matches!(e.kind, PointsToKind::Global) || matches!(e.kind, PointsToKind::IATSlot) {
                    if let Some(v) = e.va {
                        assert(self@.dom().contains(key));
                        insert_va(&mut r, v);
                        assert(holds_global(self@, v));
                    }
                }
            }
            proof {
                assert forall|k: int, v: u64|
                    0 <= k < i + 1 && #[trigger] global_at(self@, self.entries@[k].0, v) implies r@.contains(
                    v,
                ) by {
                    if k < i {
                        assert(before.contains(v));
                    }
                }
            }
            i += 1;
        }
        proof {
            assert forall|v: u64| #[trigger] r@.contains(v) <==> holds_global(self@, v) by {
                if holds_global(self@, v) {
                    let k = choose|k: (u64, u32)| #[trigger]
                        self@.dom().contains(k) && (self@[k].kind == PointsToKind::Global || self@[k].kind
                            == PointsToKind::IATSlot) && self@[k].va == Some(v);
                    lemma_entry(self.entries@, k);
                    let i = choose|i: int| 0 <= i < self.entries@.len() && (#[trigger] self.entries@[i]).0 == k;
                    assert(global_at(self@, self.entries@[i].0, v));
                }
            }
        }
        r
    }
}

/// Key `k` holds the address `v` of a global or an import slot.
spec fn global_at(m: Map<(u64, u32), EntryView>, k: (u64, u32), v: u64) -> bool {
    m.dom().contains(k) && (m[k].kind == PointsToKind::Global || m[k].kind == PointsToKind::IATSlot)
        && m[k].va == Some(v)
}

proof fn lemma_entry(e: Seq<((u64, u32), PointsToEntry)>, k: (u64, u32))
    requires
        entries_map(e).dom().contains(k),
    ensures
        exists|i: int| 0 <= i < e.len() && (#[trigger] e[i]).0 == k,
    decreases e.len(),
{
    if e.len() > 0 {
        if e.last().0 == k {
            assert(e[e.len() - 1].0 == k);
        } else {
            lemma_entry(e.drop_last(), k);
            let i = choose|i: int| 0 <= i < e.drop_last().len() && (#[trigger] e.drop_last()[i]).0 == k;
            assert(e[i].0 == k);
        }
    }
}

// ─── Rows for a report ──────────────────────────────────────────────────────

/// One target as a report lists it: addresses as text, in hexadecimal.
#[derive(Clone, Debug, PartialEq, Eq)]
pub struct PointsToRow {
    pub instruction_va: String,
    pub operand_index: u32,
    pub kind: String,
    pub va: Option<String>,
    pub symbol: Option<String>,
    pub stack_disp: Option<i64>,
}

/// A row as a value.
#[verifier::ext_equal]
pub ghost struct RowView {
    pub instruction_va: Seq<char>,
    pub operand_index: u32,
    pub kind: Seq<char>,
    pub va: Option<Seq<char>>,
    pub symbol: Option<Seq<char>>,
    pub stack_disp: Option<i64>,
}

impl View for PointsToRow {
    type V = RowView;

    open spec fn view(&self) -> RowView {
        RowView {
            instruction_va: self.instruction_va@,
            operand_index: self.operand_index,
            kind: self.kind@,
            va: symbol_text(self.va),
            symbol: symbol_text(self.symbol),
            stack_disp: self.stack_disp,
        }
    }
}

/// The name of a kind of target.
pub open spec fn kind_name(k: PointsToKind) -> Seq<char> {
    match k {
        PointsToKind::Global => "Global"@,
        PointsToKind::IATSlot => "IATSlot"@,
        PointsToKind::StackRef => "StackRef"@,
        PointsToKind::HeapUnknown => "HeapUnknown"@,
        PointsToKind::ParamPtr => "ParamPtr"@,
    }
}

/// The row of a target.
pub open spec fn row_of(k: (u64, u32), e: EntryView) -> RowView {
    RowView {
        instruction_va: prefixed_hex(k.0 as nat),
        operand_index: k.1,
        kind: kind_name(e.kind),
        va: match e.va {
            Some(v) => Some(prefixed_hex(v as nat)),
            None => None,
        },
        symbol: e.symbol,
        stack_disp: e.stack_disp,
    }
}

/// No entry from `i` on has the key `k`.
pub open spec fn no_later(e: Seq<((u64, u32), PointsToEntry)>, k: (u64, u32), i: int) -> bool {
    forall|j: int| i <= j < e.len() ==> (#[trigger] e[j]).0 != k
}

/// The rows of the first `n` entries, each key where it was last given.
pub open spec fn rows_below(e: Seq<((u64, u32), PointsToEntry)>, n: int) -> Seq<RowView>
    decreases n,
{
    if n <= 0 {
        Seq::empty()
    } else if no_later(e, e[n - 1].0, n) {
        rows_below(e, n - 1).push(row_of(e[n - 1].0, e[n - 1].1@))
    } else {
        rows_below(e, n - 1)
    }
}

/// The rows as values.
pub open spec fn row_views(v: Seq<PointsToRow>) -> Seq<RowView> {
    Seq::new(v.len(), |i: int| v[i]@)
}

fn write_kind(k: PointsToKind) -> (r: String)
    ensures
        r@ == kind_name(k),
{
    let t = match k {
        PointsToKind::Global => chars_of("Global"),
        PointsToKind::IATSlot => chars_of("IATSlot"),
        PointsToKind::StackRef => chars_of("StackRef"),
        PointsToKind::HeapUnknown => chars_of("HeapUnknown"),
        PointsToKind::ParamPtr => chars_of("ParamPtr"),
    };
    string_of(&t)
}

fn write_row(k: (u64, u32), e: &PointsToEntry) -> (r: PointsToRow)
    ensures
        r@ == row_of(k, e@),
{
    let va: Option<String> = match e.va {
        Some(v) => Some(string_of(&prefixed_hex_text(v))),
        None => None,
    };
    let symbol: Option<String> = match &e.symbol {
        Some(s) => Some(string_of(&chars_of(s.as_str()))),
        None => None,
    };
    PointsToRow {
        instruction_va: string_of(&prefixed_hex_text(k.0)),
        operand_index: k.1,
        kind: write_kind(e.kind),
        va,
        symbol,
        stack_disp: e.stack_disp,
    }
}

impl PointsToMap {
    fn is_last(&self, i: usize) -> (r: bool)
        requires
            i < self.entries@.len(),
        ensures
            r == no_later(self.entries@, self.entries@[i as int].0, i + 1),
    {
        let key = self.entries[i].0;
        let mut j: usize = self.entries.len();
        while j > i + 1
            invariant
                i < j <= self.entries@.len(),
                key == self.entries@[i as int].0,
                no_later(self.entries@, key, j as int),
            decreases j,
        {
            let other = self.entries[j - 1].0;
            if other.0 == key.0 && other.1 == key.1 {
                assert(self.entries@[j - 1].0 == key);
                return false;
            }
            j -= 1;
        }
        true
    }

    /// The targets as a report lists them, each operand once.
    pub fn rows(&self) -> (r: Vec<PointsToRow>)
        ensures
            row_views(r@) == rows_below(self.entries@, self.entries@.len() as int),
    {
        let mut r: Vec<PointsToRow> = Vec::new();
        let mut i: usize = 0;
        assert(row_views(r@) =~= Seq::empty());
        while i < self.entries.len()
            invariant
                i <= self.entries@.len(),
                row_views(r@) == rows_below(self.entries@, i as int),
            decreases self.entries@.len() - i,
        {
            if self.is_last(i) {
                let row = write_row(self.entries[i].0, &self.entries[i].1);
                let ghost r0 = r@;
                r.push(row);
                assert(row_views(r@) =~= row_views(r0).push(row@));
            }
            i += 1;
        }
        r
    }
}

/// The entry that was last given for a key is the one that the map holds.
proof fn lemma_last_holds(e: Seq<((u64, u32), PointsToEntry)>, i: int)
    requires
        0 <= i < e.len(),
        no_later(e, e[i].0, i + 1),
    ensures
        entries_map(e).dom().contains(e[i].0),
        entries_map(e)[e[i].0] == e[i].1,
    decreases e.len(),
{
    let d = e.drop_last();
    if i < e.len() - 1 {
        assert(e[e.len() - 1].0 != e[i].0);
        assert(d[i] == e[i]);
        assert forall|j: int| i + 1 <= j < d.len() implies (#[trigger] d[j]).0 != d[i].0 by {
            assert(d[j] == e[j]);
        }
        lemma_last_holds(d, i);
    }
}

/// Every row is the row of a target that the map holds.
pub proof fn law_rows_list_targets(m: PointsToMap, n: int, i: int)
    requires
        0 <= n <= m.entries@.len(),
        0 <= i < rows_below(m.entries@, n).len(),
    ensures
        exists|k: (u64, u32)|
            #![trigger m@.dom().contains(k)]
            m@.dom().contains(k) && rows_below(m.entries@, n)[i] == row_of(k, m@[k]),
    decreases n,
{
    let e = m.entries@;
    let rest = rows_below(e, n - 1);
    if n > 0 {
        if no_later(e, e[n - 1].0, n) && i == rest.len() {
            lemma_last_holds(e, n - 1);
            assert(m@.dom().contains(e[n - 1].0));
            assert(m@[e[n - 1].0] == e[n - 1].1@);
        } else {
            law_rows_list_targets(m, n - 1, i);
        }
    }
}

/// What is known around the function.
pub struct PointsToCtx<'a> {
    pub address_space: &'a AddressSpace,
    pub symbols: &'a SymbolTable,
    /// The memory target of each instruction that has a fixed one.
    pub insn_global: &'a HashMap<u64, u64>,
    /// The slots of the import address table.
    pub iat_slots: &'a Vec<u64>,
}

// ─── Targets as values ──────────────────────────────────────────────────────

impl<'a> PointsToCtx<'a> {
    /// The target at a known address.
    pub open spec fn global_entry(&self, va: u64) -> EntryView {
        EntryView {
            kind: if self.iat_slots@.contains(va) {
                PointsToKind::IATSlot
            } else {
                PointsToKind::Global
            },
            va: Some(va),
            symbol: self.symbols.symbol(va),
            stack_disp: None,
        }
    }
}

/// Memory of which nothing is known, but perhaps its address.
pub open spec fn unknown_entry(va: Option<u64>) -> EntryView {
    EntryView { kind: PointsToKind::HeapUnknown, va, symbol: None, stack_disp: None }
}

/// A place on the stack.
pub open spec fn stack_entry(disp: i64) -> EntryView {
    EntryView { kind: PointsToKind::StackRef, va: None, symbol: None, stack_disp: Some(disp) }
}

/// The register passes a parameter.
pub open spec fn passes_parameter(reg: u64) -> bool {
    reg == 0x08 || reg == 0x10 || reg == 0x80 || reg == 0x88
}

/// Name of a parameter register.
pub open spec fn parameter_label(reg: u64) -> Seq<char> {
    if reg == 0x08 {
        "rcx"@
    } else if reg == 0x10 {
        "rdx"@
    } else if reg == 0x80 {
        "r8"@
    } else if reg == 0x88 {
        "r9"@
    } else {
        "reg"@
    }
}

/// The target of a pointer that a parameter passes.
pub open spec fn parameter_entry(reg: u64) -> EntryView {
    EntryView {
        kind: PointsToKind::ParamPtr,
        va: None,
        symbol: Some("param_"@ + parameter_label(reg)),
        stack_disp: None,
    }
}

/// Position of the last of the first `n` operations that defines `v`.
pub open spec fn defined_at(ops: Seq<OpView>, v: SsaVar, n: int) -> Option<int>
    decreases n,
{
    if n <= 0 {
        None
    } else if ops[n - 1].def == Some(v) {
        Some(n - 1)
    } else {
        defined_at(ops, v, n - 1)
    }
}

/// The last operation in the first `n` blocks that defines `v`.
pub open spec fn definer(blocks: Seq<BlockView>, v: SsaVar, n: int) -> Option<OpView>
    decreases n,
{
    if n <= 0 {
        None
    } else {
        let ops = blocks[n - 1].ops;
        match defined_at(ops, v, ops.len() as int) {
            Some(i) => Some(ops[i]),
            None => definer(blocks, v, n - 1),
        }
    }
}

/// The operation that defines `v`.
pub open spec fn definer_of(f: FunctionView, v: SsaVar) -> Option<OpView> {
    definer(f.blocks, v, f.blocks.len() as int)
}

/// The parameter register that `v` is live in from the function's entry.
pub open spec fn live_in(f: FunctionView, v: SsaVar) -> Option<u64> {
    match v.location {
        Location::Register { base_offset } => if v.version == 1 && definer_of(f, v) is None
            && passes_parameter(base_offset) {
            Some(base_offset)
        } else {
            None
        },
        _ => None,
    }
}

/// One step back along the definition of a pointer.
pub ghost enum Trace {
    /// The pointer is another variable, or a constant away from it.
    Follow(SsaVar),
    /// The target is known.
    Found(EntryView),
    /// The definition says no more.
    Lost,
}

/// The first use, if any.
pub open spec fn follow_first(op: OpView) -> Trace {
    if op.uses.len() > 0 {
        Trace::Follow(op.uses[0])
    } else {
        Trace::Lost
    }
}

/// The use of the register `v`, or else the first one.
pub open spec fn follow_register(op: OpView, v: Varnode) -> Trace {
    if is_register(v) {
        match used_from(op.uses, container_base(v.offset), 0) {
            Some(u) => Trace::Follow(u),
            None => follow_first(op),
        }
    } else {
        follow_first(op)
    }
}

/// A pointer at a constant from `base`.
pub open spec fn follow_sum(op: OpView, base: Varnode, disp: i64) -> Trace {
    if is_register(base) && (container_base(base.offset) == 0x20 || container_base(base.offset) == 0x28) {
        Trace::Found(stack_entry(disp))
    } else {
        follow_register(op, base)
    }
}

impl<'a> PointsToCtx<'a> {
    /// What the definition `op` says of the pointer that it defines.
    pub open spec fn trace_step(&self, op: OpView) -> Trace {
        match op.kind {
            KindView::Pcode(PcodeView::Plain(p)) => match p {
                PcodeOp::Copy { input, .. } => if is_const(input) {
                    if input.offset != 0 && self.address_space.data(input.offset) {
                        Trace::Found(self.global_entry(input.offset))
                    } else {
                        Trace::Found(unknown_entry(Some(input.offset)))
                    }
                } else {
                    follow_register(op, input)
                },
                PcodeOp::IntAdd { left, right, .. } => if is_const(right) {
                    follow_sum(op, left, right.offset as i64)
                } else if is_const(left) {
                    follow_sum(op, right, left.offset as i64)
                } else {
                    follow_first(op)
                },
                PcodeOp::Load { .. } => if self.insn_global@.dom().contains(op.va) {
                    let va = self.insn_global@[op.va];
                    Trace::Found(
                        EntryView {
                            symbol: match self.symbols.symbol(va) {
                                Some(name) => Some("*"@ + name),
                                None => None,
                            },
                            ..unknown_entry(Some(va))
                        },
                    )
                } else {
                    Trace::Lost
                },
                _ => Trace::Lost,
            },
            _ => Trace::Lost,
        }
    }

    /// The target of the pointer `v`, at most `steps` definitions back.
    pub open spec fn traced(&self, f: FunctionView, v: SsaVar, steps: nat) -> EntryView
        decreases steps,
    {
        let end = match live_in(f, v) {
            Some(reg) => parameter_entry(reg),
            None => unknown_entry(None),
        };
        if steps == 0 {
            end
        } else {
            match definer_of(f, v) {
                None => end,
                Some(op) => match self.trace_step(op) {
                    Trace::Follow(u) => self.traced(f, u, (steps - 1) as nat),
                    Trace::Found(e) => e,
                    Trace::Lost => end,
                },
            }
        }
    }

    /// The target of the pointer operand `ptr` of `op`.
    pub open spec fn pointer_target(&self, f: FunctionView, op: OpView, ptr: Varnode) -> EntryView {
        if is_const(ptr) || is_ram(ptr) {
            if ptr.offset != 0 && self.address_space.data(ptr.offset) {
                self.global_entry(ptr.offset)
            } else {
                unknown_entry(
                    if ptr.offset != 0 {
                        Some(ptr.offset)
                    } else {
                        None
                    },
                )
            }
        } else {
            let used = if is_register(ptr) {
                used_from(op.uses, container_base(ptr.offset), 0)
            } else {
                target_temporary(op, ptr, 0)
            };
            match used {
                Some(v) => self.traced(f, v, 16),
                None => unknown_entry(None),
            }
        }
    }

    /// The target of `op`, if it is a load or a store.
    pub open spec fn target(&self, f: FunctionView, op: OpView) -> Option<EntryView> {
        match pointer_of(op) {
            None => None,
            Some(ptr) => Some(
                if op.uses.len() > 0 && op.uses[0].location is StackSlot {
                    stack_entry(op.uses[0].location->disp)
                } else if self.insn_global@.dom().contains(op.va) {
                    self.global_entry(self.insn_global@[op.va])
                } else {
                    self.pointer_target(f, op, ptr)
                },
            ),
        }
    }

    /// The targets of the first `n` operations, over those of `m`.
    pub open spec fn targets_of(&self, f: FunctionView, ops: Seq<OpView>, n: int, m: Map<(u64, u32), EntryView>) -> Map<(u64, u32), EntryView>
        decreases n,
    {
        if n <= 0 {
            m
        } else {
            let done = self.targets_of(f, ops, n - 1, m);
            match self.target(f, ops[n - 1]) {
                Some(e) => done.insert((ops[n - 1].va, 0u32), e),
                None => done,
            }
        }
    }

    /// The targets of the first `n` blocks.
    pub open spec fn all_targets(&self, f: FunctionView, n: int) -> Map<(u64, u32), EntryView>
        decreases n,
    {
        if n <= 0 {
            Map::empty()
        } else {
            let ops = f.blocks[n - 1].ops;
            self.targets_of(f, ops, ops.len() as int, self.all_targets(f, n - 1))
        }
    }
}

/// The pointer operand of a load or a store.
pub open spec fn pointer_of(op: OpView) -> Option<Varnode> {
    match op.kind {
        KindView::Pcode(PcodeView::Plain(PcodeOp::Load { ptr, .. })) => Some(ptr),
        KindView::Pcode(PcodeView::Plain(PcodeOp::Store { ptr, .. })) => Some(ptr),
        _ => None,
    }
}

// ─── Computation ────────────────────────────────────────────────────────────

fn has_va(v: &Vec<u64>, x: u64) -> (r: bool)
    ensures
        r == v@.contains(x),
{
    let mut i: usize = 0;
    while i < v.len()
        invariant
            i <= v@.len(),
            forall|j: int| 0 <= j < i ==> v@[j] != x,
        decreases v@.len() - i,
    {
        if v[i] == x {
            return true;
        }
        i += 1;
    }
    false
}

fn global_target(ctx: &PointsToCtx<'_>, va: u64) -> (r: PointsToEntry)
    ensures
        r@ == ctx.global_entry(va),
{
    PointsToEntry {
        kind: if has_va(ctx.iat_slots, va) {
            PointsToKind::IATSlot
        } else {
            PointsToKind::Global
        },
        va: Some(va),
        symbol: ctx.symbols.name(va),
        stack_disp: None,
    }
}

fn unknown_target(va: Option<u64>) -> (r: PointsToEntry)
    ensures
        r@ == unknown_entry(va),
{
    PointsToEntry { kind: PointsToKind::HeapUnknown, va, symbol: None, stack_disp: None }
}

fn stack_target(disp: i64) -> (r: PointsToEntry)
    ensures
        r@ == stack_entry(disp),
{
    PointsToEntry { kind: PointsToKind::StackRef, va: None, symbol: None, stack_disp: Some(disp) }
}

fn is_param_reg(base_offset: u64) -> (r: bool)
    ensures
        r == passes_parameter(base_offset),
{
    base_offset == 0x08 || base_offset == 0x10 || base_offset == 0x80 || base_offset == 0x88
}

fn reg_label(base_offset: u64) -> (r: &'static str)
    ensures
        r@ == parameter_label(base_offset),
{
    if base_offset == 0x08 {
        "rcx"
    } else if base_offset == 0x10 {
        "rdx"
    } else if base_offset == 0x80 {
        "r8"
    } else if base_offset == 0x88 {
        "r9"
    } else {
        "reg"
    }
}

fn parameter_target(base_offset: u64) -> (r: PointsToEntry)
    ensures
        r@ == parameter_entry(base_offset),
{
    let mut name = chars_of("param_");
    push_lit(&mut name, reg_label(base_offset));
    PointsToEntry {
        kind: PointsToKind::ParamPtr,
        va: None,
        symbol: Some(string_of(&name)),
        stack_disp: None,
    }
}

/// The operation that defines `v`.
fn find_definer<'b>(ssa: &'b SsaFunction, v: &SsaVar) -> (r: Option<&'b SsaOp>)
    ensures
        match r {
            Some(op) => definer_of(ssa@, *v) == Some(op@),
            None => definer_of(ssa@, *v) is None,
        },
{
    let ghost f = ssa@;
    let mut n: usize = ssa.blocks.len();
    while n > 0
        invariant
            n <= ssa.blocks@.len(),
            f == ssa@,
            definer(f.blocks, *v, n as int) == definer_of(f, *v),
        decreases n,
    {
        n -= 1;
        let block = &ssa.blocks[n];
        assert(f.blocks[n as int] == block@);
        let ghost ops = block@.ops;
        let mut i: usize = block.ops.len();
        while i > 0
            invariant
                i <= block.ops@.len(),
                n < ssa.blocks@.len(),
                f == ssa@,
                f.blocks[n as int] == block@,
                ops == block@.ops,
                defined_at(ops, *v, i as int) == defined_at(ops, *v, ops.len() as int),
                definer(f.blocks, *v, n + 1) == definer_of(f, *v),
            decreases i,
        {
            i -= 1;
            assert(ops[i as int] == block.ops@[i as int]@);
            if let Some(d) = block.ops[i].def {
                if d == *v {
                    return Some(&block.ops[i]);
                }
            }
        }
    }
    None
}

fn find_live_in(ssa: &SsaFunction, v: &SsaVar) -> (r: Option<u64>)
    ensures
        r == live_in(ssa@, *v),
{
    match v.location {
        Location::Register { base_offset } => if v.version == 1 && is_param_reg(base_offset)
            && find_definer(ssa, v).is_none() {
            Some(base_offset)
        } else {
            None
        },
        _ => None,
    }
}

fn find_register_use(op: &SsaOp, base_offset: u64) -> (r: Option<SsaVar>)
    ensures
        r == used_from(op@.uses, base_offset, 0),
{
    let mut i: usize = 0;
    while i < op.uses.len()
        invariant
            i <= op.uses@.len(),
            used_from(op.uses@, base_offset, i as int) == used_from(op.uses@, base_offset, 0),
        decreases op.uses@.len() - i,
    {
        let v = op.uses[i];
        if v.location == (Location::Register { base_offset }) {
            return Some(v);
        }
        i += 1;
    }
    None
}

fn find_temporary_use(op: &SsaOp, ptr: Varnode) -> (r: Option<SsaVar>)
    ensures
        r == target_temporary(op@, ptr, 0),
{
    let mut i: usize = 0;
    while i < op.uses.len()
        invariant
            i <= op.uses@.len(),
            target_temporary(op@, ptr, i as int) == target_temporary(op@, ptr, 0),
        decreases op.uses@.len() - i,
    {
        let v = op.uses[i];
        if v.location == (Location::Unique {
            instruction_va: op.va,
            offset: ptr.offset,
            size: ptr.size,
        }) {
            return Some(v);
        }
        i += 1;
    }
    None
}

/// A step back, to be taken or not.
enum Step {
    Follow(SsaVar),
    Found(PointsToEntry),
    Lost,
}

impl Step {
    spec fn trace(&self) -> Trace {
        match *self {
            Step::Follow(v) => Trace::Follow(v),
            Step::Found(e) => Trace::Found(e@),
            Step::Lost => Trace::Lost,
        }
    }
}

fn step_first(op: &SsaOp) -> (r: Step)
    ensures
        r.trace() == follow_first(op@),
{
    if op.uses.len() > 0 {
        Step::Follow(op.uses[0])
    } else {
        Step::Lost
    }
}

fn step_register(op: &SsaOp, v: Varnode) -> (r: Step)
    ensures
        r.trace() == follow_register(op@, v),
{
    if in_register(&v) {
        if let Some(u) = find_register_use(op, register_container_base(v.offset)) {
            return Step::Follow(u);
        }
    }
    step_first(op)
}

fn step_sum(op: &SsaOp, base: Varnode, disp: i64) -> (r: Step)
    ensures
        r.trace() == follow_sum(op@, base, disp),
{
    if in_register(&base) {
        let reg = register_container_base(base.offset);
        if reg == 0x20 || reg == 0x28 {
            return Step::Found(stack_target(disp));
        }
    }
    step_register(op, base)
}

fn step_back(ctx: &PointsToCtx<'_>, op: &SsaOp) -> (r: Step)
    ensures
        r.trace() == ctx.trace_step(op@),
{
    match &op.kind {
        SsaOpKind::Pcode(PcodeOp::Copy { input, .. }) => {
            if in_const(input) {
                let va = input.offset;
                if va != 0 && ctx.address_space.is_data_va(va) {
                    return Step::Found(global_target(ctx, va));
                }
                return Step::Found(unknown_target(Some(va)));
            }
            step_register(op, *input)
        },
        SsaOpKind::Pcode(PcodeOp::IntAdd { left, right, .. }) => {
            if in_const(right) {
                step_sum(op, *left, right.offset as i64)
            } else if in_const(left) {
                step_sum(op, *right, left.offset as i64)
            } else {
                step_first(op)
            }
        },
        SsaOpKind::Pcode(PcodeOp::Load { .. }) => {
            match ctx.insn_global.get(&op.va) {
                Some(gva) => {
                    let symbol: Option<String> = match ctx.symbols.name(*gva) {
                        Some(name) => {
                            let mut t = chars_of("*");
                            push_lit(&mut t, name.as_str());
                            Some(string_of(&t))
                        },
                        None => None,
                    };
                    Step::Found(
                        PointsToEntry {
                            kind: PointsToKind::HeapUnknown,
                            va: Some(*gva),
                            symbol,
                            stack_disp: None,
                        },
                    )
                },
                None => Step::Lost,
            }
        },
        _ => Step::Lost,
    }
}

fn trace_pointer(ssa: &SsaFunction, ctx: &PointsToCtx<'_>, from: SsaVar) -> (r: PointsToEntry)
    ensures
        r@ == ctx.traced(ssa@, from, 16),
{
    let mut current = from;
    let mut steps: u8 = 16;
    while steps > 0
        invariant
            ctx.traced(ssa@, current, steps as nat) == ctx.traced(ssa@, from, 16),
        decreases steps,
    {
        let found = find_definer(ssa, &current);
        match found {
            None => {
                return match find_live_in(ssa, &current) {
                    Some(reg) => parameter_target(reg),
                    None => unknown_target(None),
                };
            },
            Some(op) => {
                match step_back(ctx, op) {
                    Step::Follow(u) => {
                        current = u;
                    },
                    Step::Found(e) => {
                        return e;
                    },
                    Step::Lost => {
                        return match find_live_in(ssa, &current) {
                            Some(reg) => parameter_target(reg),
                            None => unknown_target(None),
                        };
                    },
                }
            },
        }
        steps -= 1;
    }
    match find_live_in(ssa, &current) {
        Some(reg) => parameter_target(reg),
        None => unknown_target(None),
    }
}

fn resolve_pointer(ptr: Varnode, op: &SsaOp, ssa: &SsaFunction, ctx: &PointsToCtx<'_>) -> (r: PointsToEntry)
    ensures
        r@ == ctx.pointer_target(ssa@, op@, ptr),
{
    if in_const(&ptr) || in_ram(&ptr) {
        let va = ptr.offset;
        if va != 0 && ctx.address_space.is_data_va(va) {
            return global_target(ctx, va);
        }
        return unknown_target(
            if va != 0 {
                Some(va)
            } else {
                None
            },
        );
    }
    let used = if in_register(&ptr) {
        find_register_use(op, register_container_base(ptr.offset))
    } else {
        find_temporary_use(op, ptr)
    };
    match used {
        Some(v) => trace_pointer(ssa, ctx, v),
        None => unknown_target(None),
    }
}

/// Build the points-to map of a function.
pub fn compute_points_to(ssa: &SsaFunction, ctx: &PointsToCtx<'_>) -> (map: PointsToMap)
    ensures
        map@ == ctx.all_targets(ssa@, ssa@.blocks.len() as int),
        forall|k: (u64, u32)| #[trigger]
            map@.dom().contains(k) ==> {
                &&& map@[k].kind == PointsToKind::IATSlot ==> (map@[k].va matches Some(a)
                    && ctx.iat_slots@.contains(a))
                &&& map@[k].kind == PointsToKind::Global ==> (map@[k].va matches Some(a)
                    && !ctx.iat_slots@.contains(a))
            },
{
    let ghost f = ssa@;
    let mut map = PointsToMap::default();
    let mut b: usize = 0;
    while b < ssa.blocks.len()
        invariant
            b <= ssa.blocks@.len(),
            f == ssa@,
            map@ == ctx.all_targets(f, b as int),
        decreases ssa.blocks@.len() - b,
    {
        let block = &ssa.blocks[b];
        let ghost before = map@;
        let ghost ops = block@.ops;
        assert(f.blocks[b as int] == block@);
        let mut i: usize = 0;
        while i < block.ops.len()
            invariant
                i <= block.ops@.len(),
                f == ssa@,
                ops == block@.ops,
                map@ == ctx.targets_of(f, ops, i as int, before),
            decreases block.ops@.len() - i,
        {
            let op = &block.ops[i];
            assert(ops[i as int] == op@);
            let ptr: Option<Varnode> = match &op.kind {
                SsaOpKind::Pcode(PcodeOp::Load { ptr, .. }) => Some(*ptr),
                SsaOpKind::Pcode(PcodeOp::Store { ptr, .. }) => Some(*ptr),
                _ => None,
            };
            assert(ptr == pointer_of(op@));
            if let Some(ptr) = ptr {
                let slot: Option<i64> = if op.uses.len() > 0 {
                    match op.uses[0].location {
                        Location::StackSlot { disp, .. } => Some(disp),
                        _ => None,
                    }
                } else {
                    None
                };
                let entry = match slot {
                    Some(disp) => stack_target(disp),
                    None => match ctx.insn_global.get(&op.va) {
                        Some(gva) => global_target(ctx, *gva),
                        None => resolve_pointer(ptr, op, ssa, ctx),
                    },
                };
                assert(ctx.target(f, op@) == Some(entry@));
                map.insert(op.va, entry);
            }
            i += 1;
        }
        b += 1;
    }
    proof {
        law_slots_and_globals(ctx, f);
    }
    map
}

// ─── RIP-relative operands ──────────────────────────────────────────────────

/// A register of a memory operand, as far as it matters here.
#[derive(Clone, Copy, Debug, PartialEq, Eq, Structural)]
pub enum OperandRegister {
    /// The instruction pointer.
    Rip,
    /// No register.
    Absent,
    /// Any other.
    Other,
}

/// A memory operand, and the address of the instruction behind it.
#[derive(Clone, Copy, Debug, PartialEq, Eq, Structural)]
pub struct MemoryOperand {
    pub base: OperandRegister,
    pub index: OperandRegister,
    pub displacement: u64,
    pub next_ip: u64,
}

/// A memory operand as the decoder gives it: one that is relative to the instruction
/// pointer comes with its address in place of a displacement.
#[derive(Clone, Copy, Debug, PartialEq, Eq, Structural)]
pub struct DecodedOperand {
    pub base: OperandRegister,
    pub index: OperandRegister,
    pub address_or_displacement: u64,
    pub next_ip: u64,
}

/// What `iced_x86` decodes as the memory operand of the first instruction of `bytes`
/// at `ip`, in 64-bit mode.
pub uninterp spec fn decoded_operand(bytes: Seq<u8>, ip: u64) -> DecodedOperand;

/// Decodes with `iced_x86::Decoder::decode` in 64-bit mode and reads
/// `memory_base`, `memory_index`, `memory_displacement64` and `next_ip` of the
/// instruction. Decoding depends on the bytes and the address alone; what it gives
/// for them is left to the decoder.
#[verifier::external_body]
fn decode_operand(bytes: &[u8], ip: u64) -> (r: DecodedOperand)
    ensures
        r == decoded_operand(bytes@, ip),
{
    let instr = iced_x86::Decoder::with_ip(64, bytes, ip, iced_x86::DecoderOptions::NONE).decode();
    let register = |r: iced_x86::Register| match r {
        iced_x86::Register::RIP => OperandRegister::Rip,
        iced_x86::Register::None => OperandRegister::Absent,
        _ => OperandRegister::Other,
    };
    DecodedOperand {
        base: register(instr.memory_base()),
        index: register(instr.memory_index()),
        address_or_displacement: instr.memory_displacement64(),
        next_ip: instr.next_ip(),
    }
}

/// The operand with its displacement: of an address it is the distance from the next
/// instruction.
pub open spec fn operand_of(d: DecodedOperand) -> MemoryOperand {
    MemoryOperand {
        base: d.base,
        index: d.index,
        displacement: if d.base == OperandRegister::Rip {
            ((d.address_or_displacement - d.next_ip) % 0x1_0000_0000_0000_0000) as u64
        } else {
            d.address_or_displacement
        },
        next_ip: d.next_ip,
    }
}

/// The memory operand that the decoder gave.
pub fn memory_operand(d: &DecodedOperand) -> (r: MemoryOperand)
    ensures
        r == operand_of(*d),
{
    let displacement: u64 = if d.base == OperandRegister::Rip {
        if d.address_or_displacement >= d.next_ip {
            d.address_or_displacement - d.next_ip
        } else {
            u64::MAX - d.next_ip + d.address_or_displacement + 1
        }
    } else {
        d.address_or_displacement
    };
    MemoryOperand { base: d.base, index: d.index, displacement, next_ip: d.next_ip }
}

/// The target of an operand relative to the instruction pointer is the address that the
/// decoder gave, as far as 32 bits of displacement reach.
pub proof fn law_rip_target_is_the_address(d: DecodedOperand)
    requires
        d.base == OperandRegister::Rip,
        d.index == OperandRegister::Absent,
        -0x8000_0000 <= d.address_or_displacement - d.next_ip < 0x8000_0000,
    ensures
        rip_target(operand_of(d), 64) == Some(d.address_or_displacement),
{
    let x = d.address_or_displacement - d.next_ip;
    let m = operand_of(d);
    if x >= 0 {
        assert(x % 0x1_0000_0000_0000_0000 == x) by (nonlinear_arith)
            requires
                0 <= x < 0x8000_0000,
        ;
        assert(m.displacement % 0x1_0000_0000 == x);
    } else {
        assert(x % 0x1_0000_0000_0000_0000 == x + 0x1_0000_0000_0000_0000) by (nonlinear_arith)
            requires
                -0x8000_0000 <= x < 0,
        ;
        assert((x + 0x1_0000_0000_0000_0000) % 0x1_0000_0000 == x + 0x1_0000_0000) by (nonlinear_arith)
            requires
                -0x8000_0000 <= x < 0,
        ;
    }
    assert(d.next_ip + x == d.address_or_displacement);
}

/// The address that a displacement from the instruction pointer leads to: its low
/// 32 bits count, with their sign.
pub open spec fn rip_target(operand: MemoryOperand, bitness: u32) -> Option<u64> {
    if bitness == 64 && operand.base == OperandRegister::Rip && operand.index
        == OperandRegister::Absent {
        let low = operand.displacement % 0x1_0000_0000;
        let signed = if low < 0x8000_0000 {
            low as int
        } else {
            low - 0x1_0000_0000
        };
        Some(((operand.next_ip + signed) % 0x1_0000_0000_0000_0000) as u64)
    } else {
        None
    }
}

/// Resolve the target of a RIP-relative operand.
pub fn iced_rip_target(instr: &MemoryOperand, bitness: u32) -> (r: Option<u64>)
    ensures
        r == rip_target(*instr, bitness),
{
    if bitness != 64 {
        return None;
    }
    if instr.base != OperandRegister::Rip || instr.index != OperandRegister::Absent {
        return None;
    }
    let low: u64 = instr.displacement % 0x1_0000_0000;
    let disp: u64 = if low < 0x8000_0000 {
        low
    } else {
        0xFFFF_FFFF_0000_0000 + low
    };
    Some(instr.next_ip.wrapping_add(disp))
}

/// Resolve the RIP-relative target of an instruction of the code index.
pub fn iced_rip_target_at(instr: &DecodedInstr, bitness: u32) -> (r: Option<u64>)
    ensures
        r == rip_target(operand_of(decoded_operand(instr.bytes@, instr.va)), bitness),
{
    let decoded = decode_operand(instr.bytes.as_slice(), instr.va);
    iced_rip_target(&memory_operand(&decoded), bitness)
}

} // verus!
