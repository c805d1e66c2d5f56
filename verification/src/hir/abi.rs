//! The Windows x64 calling convention: where arguments and results live, and what
//! a call may change.

use vstd::prelude::*;
use crate::hir::register::{capacity, low_vector, whole_gpr, Gpr, Register, RegisterSlice, SliceView};
use crate::hir::{MemoryObjectId, Provenance, ProvenanceView, ValueId};

verus! {

/// Bytes of home space that the caller provides.
pub const WIN64_SHADOW_SPACE_BYTES: u32 = 32;

/// Alignment and width of a stack argument.
pub const WIN64_STACK_ARGUMENT_SLOT_BYTES: u32 = 8;

// ─── Targets ────────────────────────────────────────────────────────────────

/// Target of a call.
#[derive(Clone, Debug, PartialEq, Eq)]
pub enum CallTarget {
    /// An address in the image.
    Direct { va: u64 },
    /// An import, by its address-table slot and its name where that is known.
    Import { iat_va: u64, symbol: Option<String> },
    /// A computed target with the functions that it may be.
    Indirect { target: ValueId, candidates: Vec<u64> },
    /// Not recovered.
    Unknown,
}

/// A target as a value.
pub ghost enum TargetView {
    Direct { va: u64 },
    Import { iat_va: u64, symbol: Option<Seq<char>> },
    Indirect { target: ValueId, candidates: Seq<u64> },
    Unknown,
}

impl View for CallTarget {
    type V = TargetView;

    open spec fn view(&self) -> TargetView {
        match *self {
            CallTarget::Direct { va } => TargetView::Direct { va },
            CallTarget::Import { iat_va, symbol } => TargetView::Import {
                iat_va,
                symbol: match symbol {
                    Some(s) => Some(s@),
                    None => None,
                },
            },
            CallTarget::Indirect { target, candidates } => TargetView::Indirect {
                target,
                candidates: candidates@,
            },
            CallTarget::Unknown => TargetView::Unknown,
        }
    }
}

// ─── Arguments ──────────────────────────────────────────────────────────────

/// What decides where an argument is passed.
#[derive(Clone, Copy, Debug, PartialEq, Eq, Hash, Structural)]
pub enum Win64ArgumentClass {
    /// Integer, pointer or scalar aggregate.
    Integer,
    /// Scalar floating point.
    FloatingPoint,
    /// Aggregate behind a pointer.
    AggregateByReference,
    /// Not known.
    Unknown,
}

/// Where one argument is passed.
#[derive(Clone, Copy, Debug, PartialEq, Eq, Hash, Structural)]
pub enum Win64ArgumentLocation {
    /// In a register.
    Register(RegisterSlice),
    /// On the caller's stack, from the stack pointer just before the call.
    Stack { offset_from_pre_call_rsp: u32 },
}

/// A location as a value.
pub ghost enum LocationView {
    Register(SliceView),
    Stack(u32),
}

impl View for Win64ArgumentLocation {
    type V = LocationView;

    open spec fn view(&self) -> LocationView {
        match *self {
            Win64ArgumentLocation::Register(s) => LocationView::Register(s@),
            Win64ArgumentLocation::Stack { offset_from_pre_call_rsp } => LocationView::Stack(
                offset_from_pre_call_rsp,
            ),
        }
    }
}

/// The ordinary place of an argument: the first four in registers by their class,
/// the others on the stack behind the home space.
pub open spec fn standard_place(position: u16, class: Win64ArgumentClass) -> Option<LocationView> {
    if position >= 4 {
        Some(LocationView::Stack((32 + 8 * (position - 4)) as u32))
    } else {
        match class {
            Win64ArgumentClass::Integer | Win64ArgumentClass::AggregateByReference => Some(
                LocationView::Register(
                    whole_gpr(
                        if position == 0 {
                            Gpr::Rcx
                        } else if position == 1 {
                            Gpr::Rdx
                        } else if position == 2 {
                            Gpr::R8
                        } else {
                            Gpr::R9
                        },
                    ),
                ),
            ),
            Win64ArgumentClass::FloatingPoint => Some(
                LocationView::Register(low_vector(position as u8, 128)),
            ),
            Win64ArgumentClass::Unknown => None,
        }
    }
}

/// The location as a value, if there is one.
pub open spec fn location_view(l: Option<Win64ArgumentLocation>) -> Option<LocationView> {
    match l {
        Some(x) => Some(x@),
        None => None,
    }
}

impl Win64ArgumentLocation {
    /// The ordinary place of an argument. An argument of unknown class has none in a
    /// register position.
    pub fn standard(position: u16, class: Win64ArgumentClass) -> (r: Option<Win64ArgumentLocation>)
        ensures
            location_view(r) == standard_place(position, class),
    {
        if position >= 4 {
            let offset: u32 = WIN64_SHADOW_SPACE_BYTES + WIN64_STACK_ARGUMENT_SLOT_BYTES * ((position
                - 4) as u32);
            return Some(Win64ArgumentLocation::Stack { offset_from_pre_call_rsp: offset });
        }
        match class {
            Win64ArgumentClass::Integer | Win64ArgumentClass::AggregateByReference => {
                let gpr = if position == 0 {
                    Gpr::Rcx
                } else if position == 1 {
                    Gpr::Rdx
                } else if position == 2 {
                    Gpr::R8
                } else {
                    Gpr::R9
                };
                Some(Win64ArgumentLocation::Register(RegisterSlice::gpr(gpr)))
            },
            Win64ArgumentClass::FloatingPoint => {
                match RegisterSlice::xmm(position as u8) {
                    Ok(s) => Some(Win64ArgumentLocation::Register(s)),
                    Err(_) => None,
                }
            },
            Win64ArgumentClass::Unknown => None,
        }
    }

    /// Whether the argument is passed on the stack.
    pub fn is_stack(self) -> (r: bool)
        ensures
            r == (self is Stack),
    {
        matches!(self, Win64ArgumentLocation::Stack { .. })
    }
}

/// One logical argument with every place that carries it. Variadic calls mirror a
/// floating-point value in two registers.
#[derive(Clone, Debug, PartialEq, Eq)]
pub struct Win64Argument {
    pub position: u16,
    pub value: ValueId,
    pub class: Win64ArgumentClass,
    pub locations: Vec<Win64ArgumentLocation>,
}

/// An argument as a value.
#[verifier::ext_equal]
pub ghost struct ArgumentView {
    pub position: u16,
    pub value: ValueId,
    pub class: Win64ArgumentClass,
    pub locations: Seq<LocationView>,
}

/// The places as values.
pub open spec fn location_views(v: Seq<Win64ArgumentLocation>) -> Seq<LocationView> {
    Seq::new(v.len(), |i: int| v[i]@)
}

impl View for Win64Argument {
    type V = ArgumentView;

    open spec fn view(&self) -> ArgumentView {
        ArgumentView {
            position: self.position,
            value: self.value,
            class: self.class,
            locations: location_views(self.locations@),
        }
    }
}

/// An argument in its ordinary place.
pub open spec fn standard_argument(position: u16, value: ValueId, class: Win64ArgumentClass) -> Option<ArgumentView> {
    match standard_place(position, class) {
        Some(l) => Some(ArgumentView { position, value, class, locations: seq![l] }),
        None => None,
    }
}

impl Win64Argument {
    /// Create an argument with explicit places.
    pub fn new(position: u16, value: ValueId, class: Win64ArgumentClass, locations: Vec<Win64ArgumentLocation>) -> (r: Win64Argument)
        ensures
            r@ == (ArgumentView {
                position,
                value,
                class,
                locations: location_views(locations@),
            }),
    {
        Win64Argument { position, value, class, locations }
    }

    /// Create an argument in its ordinary place, where its class decides one.
    pub fn standard(position: u16, value: ValueId, class: Win64ArgumentClass) -> (r: Option<Win64Argument>)
        ensures
            match r {
                Some(a) => standard_argument(position, value, class) == Some(a@),
                None => standard_argument(position, value, class) is None,
            },
    {
        match Win64ArgumentLocation::standard(position, class) {
            Some(location) => {
                let mut locations: Vec<Win64ArgumentLocation> = Vec::new();
                locations.push(location);
                assert(location_views(locations@) =~= seq![location@]);
                Some(Win64Argument::new(position, value, class, locations))
            },
            None => None,
        }
    }
}

// ─── Results ────────────────────────────────────────────────────────────────

/// What decides where a result is returned.
#[derive(Clone, Copy, Debug, PartialEq, Eq, Hash, Structural)]
pub enum Win64ResultClass {
    /// Integer or pointer, in RAX.
    Integer,
    /// Floating point, in XMM0.
    FloatingPoint,
    /// Aggregate through a hidden pointer.
    AggregateIndirect,
    /// Not known.
    Unknown,
}

/// Where a result is returned.
#[derive(Clone, Copy, Debug, PartialEq, Eq, Structural)]
pub enum Win64ResultLocation {
    /// In a register.
    Register(RegisterSlice),
    /// Written through the caller's pointer, which may come back in a register.
    Indirect { storage_pointer: ValueId, returned_pointer: Option<RegisterSlice> },
}

/// One value produced by a call.
#[derive(Clone, Copy, Debug, PartialEq, Eq, Structural)]
pub struct Win64Result {
    pub value: ValueId,
    pub class: Win64ResultClass,
    pub location: Win64ResultLocation,
}

impl Win64Result {
    /// An integer or pointer in RAX.
    pub fn integer(value: ValueId) -> (r: Win64Result)
        ensures
            r.value == value,
            r.class == Win64ResultClass::Integer,
            r.location matches Win64ResultLocation::Register(s) && s@ == whole_gpr(Gpr::Rax),
    {
        Win64Result {
            value,
            class: Win64ResultClass::Integer,
            location: Win64ResultLocation::Register(RegisterSlice::gpr(Gpr::Rax)),
        }
    }

    /// A floating-point value in XMM0.
    pub fn floating_point(value: ValueId) -> (r: Win64Result)
        ensures
            r.value == value,
            r.class == Win64ResultClass::FloatingPoint,
            r.location matches Win64ResultLocation::Register(s) && s@ == low_vector(0, 128),
    {
        let xmm0 = RegisterSlice::xmm(0);
        assert(xmm0 is Ok);
        Win64Result {
            value,
            class: Win64ResultClass::FloatingPoint,
            location: Win64ResultLocation::Register(xmm0.unwrap()),
        }
    }

    /// An aggregate in the caller's storage; the pointer comes back in RAX.
    pub fn aggregate_indirect(value: ValueId, storage_pointer: ValueId) -> (r: Win64Result)
        ensures
            r.value == value,
            r.class == Win64ResultClass::AggregateIndirect,
            r.location matches Win64ResultLocation::Indirect {
                storage_pointer: p,
                returned_pointer: Some(s),
            } && p == storage_pointer && s@ == whole_gpr(Gpr::Rax),
    {
        Win64Result {
            value,
            class: Win64ResultClass::AggregateIndirect,
            location: Win64ResultLocation::Indirect {
                storage_pointer,
                returned_pointer: Some(RegisterSlice::gpr(Gpr::Rax)),
            },
        }
    }
}

// ─── Clobbers ───────────────────────────────────────────────────────────────

/// The memory that a call may write.
#[derive(Clone, Debug, PartialEq, Eq)]
pub enum MemoryClobber {
    Nothing,
    Objects(Vec<MemoryObjectId>),
    Unknown,
}

/// A memory clobber as a value.
pub ghost enum MemoryView {
    Nothing,
    Objects(Seq<MemoryObjectId>),
    Unknown,
}

impl View for MemoryClobber {
    type V = MemoryView;

    open spec fn view(&self) -> MemoryView {
        match *self {
            MemoryClobber::Nothing => MemoryView::Nothing,
            MemoryClobber::Objects(v) => MemoryView::Objects(v@),
            MemoryClobber::Unknown => MemoryView::Unknown,
        }
    }
}

/// What a call may change.
#[derive(Clone, Debug, PartialEq, Eq)]
pub struct CallClobbers {
    pub registers: Vec<RegisterSlice>,
    pub memory: MemoryClobber,
}

/// Clobbers as a value.
#[verifier::ext_equal]
pub ghost struct ClobbersView {
    pub registers: Seq<SliceView>,
    pub memory: MemoryView,
}

/// The slices as values.
pub open spec fn slice_views(v: Seq<RegisterSlice>) -> Seq<SliceView> {
    Seq::new(v.len(), |i: int| v[i]@)
}

impl View for CallClobbers {
    type V = ClobbersView;

    open spec fn view(&self) -> ClobbersView {
        ClobbersView { registers: slice_views(self.registers@), memory: self.memory@ }
    }
}

impl ClobbersView {
    /// A call with these clobbers may change a bit of `register`.
    pub open spec fn hits(self, register: SliceView) -> bool {
        exists|i: int| 0 <= i < self.registers.len() && #[trigger] self.registers[i].shares(register)
    }

    /// A call with these clobbers may write `object`.
    pub open spec fn writes(self, object: MemoryObjectId) -> bool {
        match self.memory {
            MemoryView::Nothing => false,
            MemoryView::Objects(v) => v.contains(object),
            MemoryView::Unknown => true,
        }
    }
}

/// What the calling convention leaves to the callee.
pub open spec fn volatile_state() -> ClobbersView {
    ClobbersView {
        registers: seq![
            whole_gpr(Gpr::Rax),
            whole_gpr(Gpr::Rcx),
            whole_gpr(Gpr::Rdx),
            whole_gpr(Gpr::R8),
            whole_gpr(Gpr::R9),
            whole_gpr(Gpr::R10),
            whole_gpr(Gpr::R11),
            SliceView { register: Register::Rflags, bit_offset: 0, bit_width: 64 },
            low_vector(0, 512),
            low_vector(1, 512),
            low_vector(2, 512),
            low_vector(3, 512),
            low_vector(4, 512),
            low_vector(5, 512),
        ],
        memory: MemoryView::Unknown,
    }
}

fn push_zmm(v: &mut Vec<RegisterSlice>, index: u8)
    requires
        index < 32,
    ensures
        slice_views(final(v)@) == slice_views(old(v)@).push(low_vector(index, 512)),
{
    let ghost v0 = v@;
    let s = RegisterSlice::zmm(index);
    assert(s is Ok);
    v.push(s.unwrap());
    assert(slice_views(v@) =~= slice_views(v0).push(low_vector(index, 512)));
}

fn push_gpr(v: &mut Vec<RegisterSlice>, register: Gpr)
    ensures
        slice_views(final(v)@) == slice_views(old(v)@).push(whole_gpr(register)),
{
    let ghost v0 = v@;
    v.push(RegisterSlice::gpr(register));
    assert(slice_views(v@) =~= slice_views(v0).push(whole_gpr(register)));
}

impl CallClobbers {
    /// The volatile state of the calling convention, for a call of which no more is
    /// known.
    pub fn windows_x64_default() -> (r: CallClobbers)
        ensures
            r@ == volatile_state(),
    {
        let mut registers: Vec<RegisterSlice> = Vec::new();
        push_gpr(&mut registers, Gpr::Rax);
        push_gpr(&mut registers, Gpr::Rcx);
        push_gpr(&mut registers, Gpr::Rdx);
        push_gpr(&mut registers, Gpr::R8);
        push_gpr(&mut registers, Gpr::R9);
        push_gpr(&mut registers, Gpr::R10);
        push_gpr(&mut registers, Gpr::R11);
        let ghost v0 = registers@;
        let flags = RegisterSlice::full(Register::Rflags);
        assert(flags is Ok);
        let flags = flags.unwrap();
        registers.push(flags);
        assert(slice_views(registers@) =~= slice_views(v0).push(flags@));
        push_zmm(&mut registers, 0);
        push_zmm(&mut registers, 1);
        push_zmm(&mut registers, 2);
        push_zmm(&mut registers, 3);
        push_zmm(&mut registers, 4);
        push_zmm(&mut registers, 5);
        let r = CallClobbers { registers, memory: MemoryClobber::Unknown };
        assert(r@.registers =~= volatile_state().registers);
        r
    }

    /// Whether a call may change a bit of `register`.
    pub fn clobbers_register(&self, register: RegisterSlice) -> (r: bool)
        ensures
            r == self@.hits(register@),
    {
        let mut i: usize = 0;
        while i < self.registers.len()
            invariant
                i <= self.registers@.len(),
                forall|j: int|
                    0 <= j < i ==> !(#[trigger] self@.registers[j].shares(register@)),
            decreases self.registers@.len() - i,
        {
            let hit = self.registers[i].overlaps(register);
            assert(self@.registers[i as int] == self.registers@[i as int]@);
            if hit {
                assert(self@.registers[i as int].shares(register@));
                return true;
            }
            i += 1;
        }
        false
    }

    /// Whether a call may write `object`.
    pub fn clobbers_memory(&self, object: MemoryObjectId) -> (r: bool)
        ensures
            r == self@.writes(object),
    {
        match &self.memory {
            MemoryClobber::Nothing => false,
            MemoryClobber::Unknown => true,
            MemoryClobber::Objects(objects) => {
                let mut i: usize = 0;
                while i < objects.len()
                    invariant
                        i <= objects@.len(),
                        self@.memory == MemoryView::Objects(objects@),
                        forall|j: int| 0 <= j < i ==> objects@[j] != object,
                    decreases objects@.len() - i,
                {
                    if objects[i] == object {
                        return true;
                    }
                    i += 1;
                }
                false
            },
        }
    }
}

// ─── Call sites ─────────────────────────────────────────────────────────────

/// A call with its recovered contract.
#[derive(Clone, Debug, PartialEq, Eq)]
pub struct Win64CallSite {
    pub provenance: Provenance,
    pub target: CallTarget,
    pub arguments: Vec<Win64Argument>,
    pub result: Option<Win64Result>,
    pub clobbers: CallClobbers,
}

/// A call as a value.
#[verifier::ext_equal]
pub ghost struct CallView {
    pub provenance: ProvenanceView,
    pub target: TargetView,
    pub arguments: Seq<ArgumentView>,
    pub result: Option<Win64Result>,
    pub clobbers: ClobbersView,
}

/// The arguments as values.
pub open spec fn argument_views(v: Seq<Win64Argument>) -> Seq<ArgumentView> {
    Seq::new(v.len(), |i: int| v[i]@)
}

impl View for Win64CallSite {
    type V = CallView;

    open spec fn view(&self) -> CallView {
        CallView {
            provenance: self.provenance@,
            target: self.target@,
            arguments: argument_views(self.arguments@),
            result: self.result,
            clobbers: self.clobbers@,
        }
    }
}

/// Bytes that the first `n` places of an argument need on the stack, `least` at least.
pub open spec fn stack_end(places: Seq<LocationView>, n: int, least: int) -> int
    decreases n,
{
    if n <= 0 {
        least
    } else {
        let done = stack_end(places, n - 1, least);
        match places[n - 1] {
            LocationView::Stack(offset) => if offset + 8 > done {
                offset + 8
            } else {
                done
            },
            LocationView::Register(_) => done,
        }
    }
}

/// Bytes that the first `n` arguments need on the stack, the home space included.
pub open spec fn outgoing(arguments: Seq<ArgumentView>, n: int) -> int
    decreases n,
{
    if n <= 0 {
        32
    } else {
        stack_end(
            arguments[n - 1].locations,
            arguments[n - 1].locations.len() as int,
            outgoing(arguments, n - 1),
        )
    }
}

impl Win64CallSite {
    /// Create a call with the volatile state of the calling convention.
    pub fn new(provenance: Provenance, target: CallTarget, arguments: Vec<Win64Argument>) -> (r: Win64CallSite)
        ensures
            r@ == (CallView {
                provenance: provenance@,
                target: target@,
                arguments: argument_views(arguments@),
                result: None,
                clobbers: volatile_state(),
            }),
    {
        Win64CallSite {
            provenance,
            target,
            arguments,
            result: None,
            clobbers: CallClobbers::windows_x64_default(),
        }
    }

    /// Bytes of caller stack that the home space and the stack arguments need.
    pub fn required_outgoing_stack_bytes(&self) -> (r: u32)
        requires
            forall|i: int, k: int|
                0 <= i < self@.arguments.len() && 0 <= k < self@.arguments[i].locations.len() ==> match (
                #[trigger] self@.arguments[i].locations[k]) {
                    LocationView::Stack(offset) => offset <= u32::MAX - 8,
                    LocationView::Register(_) => true,
                },
        ensures
            r == outgoing(self@.arguments, self@.arguments.len() as int),
    {
        let mut best: u32 = WIN64_SHADOW_SPACE_BYTES;
        let mut i: usize = 0;
        while i < self.arguments.len()
            invariant
                i <= self.arguments@.len(),
                best == outgoing(self@.arguments, i as int),
                forall|i: int, k: int|
                    0 <= i < self@.arguments.len() && 0 <= k < self@.arguments[i].locations.len()
                        ==> match (#[trigger] self@.arguments[i].locations[k]) {
                        LocationView::Stack(offset) => offset <= u32::MAX - 8,
                        LocationView::Register(_) => true,
                    },
            decreases self.arguments@.len() - i,
        {
            let argument = &self.arguments[i];
            let ghost least = best as int;
            let ghost places = argument@.locations;
            assert(self@.arguments[i as int] == argument@);
            let mut k: usize = 0;
            while k < argument.locations.len()
                invariant
                    k <= argument.locations@.len(),
                    i < self.arguments@.len(),
                    places == location_views(argument.locations@),
                    self@.arguments[i as int].locations == places,
                    best == stack_end(places, k as int, least),
                    forall|i: int, k: int|
                        0 <= i < self@.arguments.len() && 0 <= k < self@.arguments[i].locations.len()
                            ==> match (#[trigger] self@.arguments[i].locations[k]) {
                            LocationView::Stack(offset) => offset <= u32::MAX - 8,
                            LocationView::Register(_) => true,
                        },
                decreases argument.locations@.len() - k,
            {
                assert(places[k as int] == argument.locations@[k as int]@);
                assert(self@.arguments[i as int].locations[k as int] == places[k as int]);
                if let Win64ArgumentLocation::Stack { offset_from_pre_call_rsp } = argument.locations[k] {
                    let end: u32 = offset_from_pre_call_rsp + WIN64_STACK_ARGUMENT_SLOT_BYTES;
                    if end > best {
                        best = end;
                    }
                }
                k += 1;
            }
            i += 1;
        }
        best
    }
}

/// A call never asks for less stack than the home space.
pub proof fn law_outgoing_covers_home_space(arguments: Seq<ArgumentView>, n: int)
    ensures
        outgoing(arguments, n) >= 32,
    decreases n,
{
    if n > 0 {
        law_outgoing_covers_home_space(arguments, n - 1);
        lemma_stack_end(
            arguments[n - 1].locations,
            arguments[n - 1].locations.len() as int,
            outgoing(arguments, n - 1),
        );
    }
}

proof fn lemma_stack_end(places: Seq<LocationView>, n: int, least: int)
    ensures
        stack_end(places, n, least) >= least,
    decreases n,
{
    if n > 0 {
        lemma_stack_end(places, n - 1, least);
    }
}

/// After a call, none of the convention's argument registers can be relied on.
pub proof fn law_arguments_are_volatile(position: u16, class: Win64ArgumentClass)
    requires
        position < 4,
    ensures
        standard_place(position, class) matches Some(LocationView::Register(s)) ==> volatile_state().hits(
            s,
        ),
{
    if let Some(LocationView::Register(s)) = standard_place(position, class) {
        let v = volatile_state();
        let at: int = if class == Win64ArgumentClass::FloatingPoint {
            8 + position as int
        } else {
            1 + position as int
        };
        let whole = v.registers[at];
        assert(whole.register == s.register);
        assert(capacity(s.register) == Some(whole.bit_width));
        assert(s.wf());
        crate::hir::register::law_whole_shares(s, whole);
        assert(v.registers[at].shares(s));
    }
}

} // verus!
