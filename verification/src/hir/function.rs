//! The arenas of one function and the check of every reference among them.

use vstd::prelude::*;
use std::collections::{BTreeMap, BTreeSet};
use crate::hir::abi::{ArgumentView, CallTarget, CallView, LocationView, MemoryClobber, MemoryView, TargetView, Win64ArgumentLocation, Win64CallSite, Win64Result, Win64ResultLocation};
use crate::hir::{CallSiteId, MemoryObjectId, MemoryVersion, OperationId, Provenance, ProvenanceView, ValueId};
use crate::numbers::{dec, dec_text};
use crate::text::{chars_of, push_lit, push_text, string_of};

verus! {

// ─── What the arenas hold ───────────────────────────────────────────────────

/// One value.
#[derive(Clone, Debug, PartialEq, Eq)]
pub struct Value {
    pub id: ValueId,
    pub bit_width: Option<u16>,
    pub provenance: Provenance,
}

/// A value of the function, for contracts.
#[verifier::ext_equal]
pub ghost struct ValueView {
    pub id: ValueId,
    pub bit_width: Option<u16>,
    pub provenance: ProvenanceView,
}

impl View for Value {
    type V = ValueView;

    open spec fn view(&self) -> ValueView {
        ValueView { id: self.id, bit_width: self.bit_width, provenance: self.provenance@ }
    }
}

impl Value {
    /// Create a value with an explicit id.
    pub fn new(id: ValueId, bit_width: Option<u16>, provenance: Provenance) -> (r: Value)
        ensures
            r@ == (ValueView { id, bit_width, provenance: provenance@ }),
    {
        Value { id, bit_width, provenance }
    }
}

/// Coarse partition of memory.
#[derive(Clone, Copy, Debug, PartialEq, Eq, Hash, Structural)]
pub enum AliasClass {
    Stack,
    Global,
    ReadOnlyData,
    Import,
    Tls,
    Heap,
    Unknown,
}

/// What a memory object is.
#[derive(Clone, Copy, Debug, PartialEq, Eq, Hash, Structural)]
pub enum MemoryObjectKind {
    /// A stack slot at a displacement of the frame.
    StackSlot { frame_offset: i64 },
    /// A writable global.
    Global { va: u64 },
    /// Read-only data of the image.
    ReadOnlyData { va: u64 },
    /// A slot of the import address table.
    ImportSlot { iat_va: u64 },
    /// A thread-local object.
    Tls { offset: i64 },
    /// A heap object, by the value that its allocation returned where that is known.
    Heap { allocation: Option<ValueId> },
    /// Anything else.
    Unknown,
}

/// The partition of a kind of object.
pub open spec fn partition(kind: MemoryObjectKind) -> AliasClass {
    match kind {
        MemoryObjectKind::StackSlot { .. } => AliasClass::Stack,
        MemoryObjectKind::Global { .. } => AliasClass::Global,
        MemoryObjectKind::ReadOnlyData { .. } => AliasClass::ReadOnlyData,
        MemoryObjectKind::ImportSlot { .. } => AliasClass::Import,
        MemoryObjectKind::Tls { .. } => AliasClass::Tls,
        MemoryObjectKind::Heap { .. } => AliasClass::Heap,
        MemoryObjectKind::Unknown => AliasClass::Unknown,
    }
}

impl MemoryObjectKind {
    /// The coarse partition of this kind.
    pub fn alias_class(&self) -> (r: AliasClass)
        ensures
            r == partition(*self),
    {
        match self {
            MemoryObjectKind::StackSlot { .. } => AliasClass::Stack,
            MemoryObjectKind::Global { .. } => AliasClass::Global,
            MemoryObjectKind::ReadOnlyData { .. } => AliasClass::ReadOnlyData,
            MemoryObjectKind::ImportSlot { .. } => AliasClass::Import,
            MemoryObjectKind::Tls { .. } => AliasClass::Tls,
            MemoryObjectKind::Heap { .. } => AliasClass::Heap,
            MemoryObjectKind::Unknown => AliasClass::Unknown,
        }
    }
}

/// One memory object.
#[derive(Clone, Debug, PartialEq, Eq)]
pub struct MemoryObject {
    pub id: MemoryObjectId,
    pub kind: MemoryObjectKind,
    pub size_bytes: Option<u64>,
    pub alignment: Option<u32>,
    pub provenance: Provenance,
}

/// A memory object, for contracts.
#[verifier::ext_equal]
pub ghost struct ObjectView {
    pub id: MemoryObjectId,
    pub kind: MemoryObjectKind,
    pub size_bytes: Option<u64>,
    pub alignment: Option<u32>,
    pub provenance: ProvenanceView,
}

impl View for MemoryObject {
    type V = ObjectView;

    open spec fn view(&self) -> ObjectView {
        ObjectView {
            id: self.id,
            kind: self.kind,
            size_bytes: self.size_bytes,
            alignment: self.alignment,
            provenance: self.provenance@,
        }
    }
}

impl MemoryObject {
    /// Create an object with an explicit id.
    pub fn new(id: MemoryObjectId, kind: MemoryObjectKind, size_bytes: Option<u64>, alignment: Option<u32>, provenance: Provenance) -> (r: MemoryObject)
        ensures
            r@ == (ObjectView { id, kind, size_bytes, alignment, provenance: provenance@ }),
    {
        MemoryObject { id, kind, size_bytes, alignment, provenance }
    }

    /// The coarse partition of the object.
    pub fn alias_class(&self) -> (r: AliasClass)
        ensures
            r == partition(self.kind),
    {
        self.kind.alias_class()
    }
}

/// A reference to one version of a memory object.
#[derive(Clone, Copy, Debug, PartialEq, Eq, Hash, Structural)]
pub struct MemoryAccess {
    pub object: MemoryObjectId,
    pub byte_offset: i64,
    pub width_bytes: u32,
    pub version: MemoryVersion,
}

/// Kind of an operation.
#[derive(Clone, Copy, Debug, PartialEq, Eq, Hash, Structural)]
pub enum HirOperationKind {
    Pcode,
    Phi,
    Select,
    Load,
    Store,
    Call,
    Cast,
    Compare,
}

/// One operation: what it reads and what it defines.
#[derive(Clone, Debug, PartialEq, Eq)]
pub struct HirOperation {
    pub id: OperationId,
    pub kind: HirOperationKind,
    pub inputs: Vec<ValueId>,
    pub output: Option<ValueId>,
    pub provenance: Provenance,
}

/// An operation, for contracts.
#[verifier::ext_equal]
pub ghost struct OperationView {
    pub id: OperationId,
    pub kind: HirOperationKind,
    pub inputs: Seq<ValueId>,
    pub output: Option<ValueId>,
    pub provenance: ProvenanceView,
}

impl View for HirOperation {
    type V = OperationView;

    open spec fn view(&self) -> OperationView {
        OperationView {
            id: self.id,
            kind: self.kind,
            inputs: self.inputs@,
            output: self.output,
            provenance: self.provenance@,
        }
    }
}

// ─── The function ───────────────────────────────────────────────────────────

/// The semantic form of one function. An id is the position of what it names.
#[derive(Clone, Debug)]
pub struct HirFunction {
    values: Vec<Value>,
    operations: Vec<HirOperation>,
    memory_objects: Vec<MemoryObject>,
    call_sites: Vec<Win64CallSite>,
    /// The value returned by each exit block.
    pub exit_values: BTreeMap<u32, ValueId>,
    /// The current version of each memory object.
    pub memory_versions: BTreeMap<MemoryObjectId, MemoryVersion>,
}

/// A function, for contracts.
#[verifier::ext_equal]
pub ghost struct HirView {
    pub values: Seq<ValueView>,
    pub operations: Seq<OperationView>,
    pub objects: Seq<ObjectView>,
    pub calls: Seq<CallView>,
    pub exits: Map<u32, ValueId>,
    pub versions: Map<MemoryObjectId, MemoryVersion>,
}

pub open spec fn value_views(v: Seq<Value>) -> Seq<ValueView> {
    Seq::new(v.len(), |i: int| v[i]@)
}

pub open spec fn operation_views(v: Seq<HirOperation>) -> Seq<OperationView> {
    Seq::new(v.len(), |i: int| v[i]@)
}

pub open spec fn object_views(v: Seq<MemoryObject>) -> Seq<ObjectView> {
    Seq::new(v.len(), |i: int| v[i]@)
}

pub open spec fn call_views(v: Seq<Win64CallSite>) -> Seq<CallView> {
    Seq::new(v.len(), |i: int| v[i]@)
}

impl View for HirFunction {
    type V = HirView;

    closed spec fn view(&self) -> HirView {
        HirView {
            values: value_views(self.values@),
            operations: operation_views(self.operations@),
            objects: object_views(self.memory_objects@),
            calls: call_views(self.call_sites@),
            exits: self.exit_values@,
            versions: self.memory_versions@,
        }
    }
}

impl HirView {
    /// A function with nothing in it.
    pub open spec fn empty() -> HirView {
        HirView {
            values: Seq::empty(),
            operations: Seq::empty(),
            objects: Seq::empty(),
            calls: Seq::empty(),
            exits: Map::empty(),
            versions: Map::empty(),
        }
    }

    /// Every position fits an id.
    pub open spec fn fits(self) -> bool {
        &&& self.values.len() <= 0x1_0000_0000
        &&& self.operations.len() <= 0x1_0000_0000
        &&& self.objects.len() <= 0x1_0000_0000
        &&& self.calls.len() <= 0x1_0000_0000
    }
}

/// Structural fault of a function.
#[derive(Clone, Copy, Debug, PartialEq, Eq, Structural)]
#[allow(inconsistent_fields)]
pub enum HirValidationError {
    ValueIdMismatch { expected: ValueId, actual: ValueId },
    OperationIdMismatch { expected: OperationId, actual: OperationId },
    MemoryObjectIdMismatch { expected: MemoryObjectId, actual: MemoryObjectId },
    InvalidValueWidth { value: ValueId },
    InvalidMemoryObjectSize { object: MemoryObjectId },
    InvalidMemoryAlignment { object: MemoryObjectId, alignment: u32 },
    UnknownValue { value: ValueId },
    UnknownMemoryObject { object: MemoryObjectId },
    EmptyArgumentLocations { call: CallSiteId, position: u16 },
    DuplicateArgumentPosition { call: CallSiteId, position: u16 },
    InvalidStackArgumentLocation { call: CallSiteId, position: u16, offset_from_pre_call_rsp: u32 },
}

impl HirValidationError {
    /// How the fault is reported.
    pub open spec fn message(self) -> Seq<char> {
        match self {
            HirValidationError::ValueIdMismatch { expected, actual } => "value arena expected "@
                + expected.label() + ", found "@ + actual.label(),
            HirValidationError::OperationIdMismatch { expected, actual } =>
                "operation arena expected op"@ + dec(expected.0 as nat) + ", found op"@ + dec(
                actual.0 as nat,
            ),
            HirValidationError::MemoryObjectIdMismatch { expected, actual } =>
                "memory arena expected "@ + expected.label() + ", found "@ + actual.label(),
            HirValidationError::InvalidValueWidth { value } => value.label()
                + " has a zero-bit width"@,
            HirValidationError::InvalidMemoryObjectSize { object } => object.label()
                + " has a zero-byte size"@,
            HirValidationError::InvalidMemoryAlignment { object, alignment } => object.label()
                + " has non-power-of-two alignment "@ + dec(alignment as nat),
            HirValidationError::UnknownValue { value } => "reference to unknown "@ + value.label(),
            HirValidationError::UnknownMemoryObject { object } => "reference to unknown "@
                + object.label(),
            HirValidationError::EmptyArgumentLocations { call, position } => call.label()
                + " argument "@ + dec(position as nat) + " has no physical locations"@,
            HirValidationError::DuplicateArgumentPosition { call, position } => call.label()
                + " contains duplicate argument position "@ + dec(position as nat),
            HirValidationError::InvalidStackArgumentLocation {
                call,
                position,
                offset_from_pre_call_rsp,
            } => call.label() + " argument "@ + dec(position as nat)
                + " uses invalid caller-stack offset "@ + dec(offset_from_pre_call_rsp as nat),
        }
    }

    /// The report as text.
    pub fn to_text(self) -> (r: String)
        ensures
            r@ == self.message(),
    {
        match self {
            HirValidationError::ValueIdMismatch { expected, actual } => {
                let mut t = chars_of("value arena expected ");
                push_lit(&mut t, expected.to_text().as_str());
                push_lit(&mut t, ", found ");
                push_lit(&mut t, actual.to_text().as_str());
                string_of(&t)
            },
            HirValidationError::OperationIdMismatch { expected, actual } => {
                let mut t = chars_of("operation arena expected op");
                push_text(&mut t, &dec_text(expected.index() as u64));
                push_lit(&mut t, ", found op");
                push_text(&mut t, &dec_text(actual.index() as u64));
                string_of(&t)
            },
            HirValidationError::MemoryObjectIdMismatch { expected, actual } => {
                let mut t = chars_of("memory arena expected ");
                push_lit(&mut t, expected.to_text().as_str());
                push_lit(&mut t, ", found ");
                push_lit(&mut t, actual.to_text().as_str());
                string_of(&t)
            },
            HirValidationError::InvalidValueWidth { value } => {
                let mut t = chars_of(value.to_text().as_str());
                push_lit(&mut t, " has a zero-bit width");
                string_of(&t)
            },
            HirValidationError::InvalidMemoryObjectSize { object } => {
                let mut t = chars_of(object.to_text().as_str());
                push_lit(&mut t, " has a zero-byte size");
                string_of(&t)
            },
            HirValidationError::InvalidMemoryAlignment { object, alignment } => {
                let mut t = chars_of(object.to_text().as_str());
                push_lit(&mut t, " has non-power-of-two alignment ");
                push_text(&mut t, &dec_text(alignment as u64));
                string_of(&t)
            },
            HirValidationError::UnknownValue { value } => {
                let mut t = chars_of("reference to unknown ");
                push_lit(&mut t, value.to_text().as_str());
                string_of(&t)
            },
            HirValidationError::UnknownMemoryObject { object } => {
                let mut t = chars_of("reference to unknown ");
                push_lit(&mut t, object.to_text().as_str());
                string_of(&t)
            },
            HirValidationError::EmptyArgumentLocations { call, position } => {
                let mut t = chars_of(call.to_text().as_str());
                push_lit(&mut t, " argument ");
                push_text(&mut t, &dec_text(position as u64));
                push_lit(&mut t, " has no physical locations");
                string_of(&t)
            },
            HirValidationError::DuplicateArgumentPosition { call, position } => {
                let mut t = chars_of(call.to_text().as_str());
                push_lit(&mut t, " contains duplicate argument position ");
                push_text(&mut t, &dec_text(position as u64));
                string_of(&t)
            },
            HirValidationError::InvalidStackArgumentLocation {
                call,
                position,
                offset_from_pre_call_rsp,
            } => {
                let mut t = chars_of(call.to_text().as_str());
                push_lit(&mut t, " argument ");
                push_text(&mut t, &dec_text(position as u64));
                push_lit(&mut t, " uses invalid caller-stack offset ");
                push_text(&mut t, &dec_text(offset_from_pre_call_rsp as u64));
                string_of(&t)
            },
        }
    }
}

// ─── The first fault ────────────────────────────────────────────────────────

/// `a`, or else `b`.
pub open spec fn first_of(a: Option<HirValidationError>, b: Option<HirValidationError>) -> Option<HirValidationError> {
    match a {
        Some(_) => a,
        None => b,
    }
}

/// `n` is a power of two.
pub open spec fn power_of_two(n: nat) -> bool
    decreases n,
{
    n == 1 || (n > 1 && n % 2 == 0 && power_of_two(n / 2))
}

impl HirView {
    /// Fault of a reference to `value`.
    pub open spec fn value_fault(self, value: ValueId) -> Option<HirValidationError> {
        if value.0 < self.values.len() {
            None
        } else {
            Some(HirValidationError::UnknownValue { value })
        }
    }

    /// Fault of a reference to `object`.
    pub open spec fn object_fault(self, object: MemoryObjectId) -> Option<HirValidationError> {
        if object.0 < self.objects.len() {
            None
        } else {
            Some(HirValidationError::UnknownMemoryObject { object })
        }
    }

    /// First fault among the references from `i` on.
    pub open spec fn refs_fault(self, refs: Seq<ValueId>, i: int) -> Option<HirValidationError>
        decreases refs.len() - i,
    {
        if i < 0 || i >= refs.len() {
            None
        } else {
            first_of(self.value_fault(refs[i]), self.refs_fault(refs, i + 1))
        }
    }

    /// First fault among the object references from `i` on.
    pub open spec fn object_refs_fault(self, refs: Seq<MemoryObjectId>, i: int) -> Option<HirValidationError>
        decreases refs.len() - i,
    {
        if i < 0 || i >= refs.len() {
            None
        } else {
            first_of(self.object_fault(refs[i]), self.object_refs_fault(refs, i + 1))
        }
    }

    /// First fault among the values from `i` on.
    pub open spec fn values_fault(self, i: int) -> Option<HirValidationError>
        decreases self.values.len() - i,
    {
        if i < 0 || i >= self.values.len() {
            None
        } else {
            let v = self.values[i];
            if v.id != ValueId(i as u32) {
                Some(HirValidationError::ValueIdMismatch { expected: ValueId(i as u32), actual: v.id })
            } else if v.bit_width == Some(0u16) {
                Some(HirValidationError::InvalidValueWidth { value: v.id })
            } else {
                self.values_fault(i + 1)
            }
        }
    }

    /// First fault among the memory objects from `i` on.
    pub open spec fn objects_fault(self, i: int) -> Option<HirValidationError>
        decreases self.objects.len() - i,
    {
        if i < 0 || i >= self.objects.len() {
            None
        } else {
            let o = self.objects[i];
            if o.id != MemoryObjectId(i as u32) {
                Some(
                    HirValidationError::MemoryObjectIdMismatch {
                        expected: MemoryObjectId(i as u32),
                        actual: o.id,
                    },
                )
            } else if o.size_bytes == Some(0u64) {
                Some(HirValidationError::InvalidMemoryObjectSize { object: o.id })
            } else if o.alignment is Some && !power_of_two(o.alignment->0 as nat) {
                Some(
                    HirValidationError::InvalidMemoryAlignment {
                        object: o.id,
                        alignment: o.alignment->0,
                    },
                )
            } else {
                first_of(
                    match o.kind {
                        MemoryObjectKind::Heap { allocation: Some(value) } => self.value_fault(value),
                        _ => None,
                    },
                    self.objects_fault(i + 1),
                )
            }
        }
    }

    /// First fault among the operations from `i` on.
    pub open spec fn operations_fault(self, i: int) -> Option<HirValidationError>
        decreases self.operations.len() - i,
    {
        if i < 0 || i >= self.operations.len() {
            None
        } else {
            let o = self.operations[i];
            if o.id != OperationId(i as u32) {
                Some(
                    HirValidationError::OperationIdMismatch {
                        expected: OperationId(i as u32),
                        actual: o.id,
                    },
                )
            } else {
                first_of(
                    self.refs_fault(o.inputs, 0),
                    first_of(
                        match o.output {
                            Some(value) => self.value_fault(value),
                            None => None,
                        },
                        self.operations_fault(i + 1),
                    ),
                )
            }
        }
    }

    /// The exit at `block` returns a value that does not exist.
    pub open spec fn exit_dangles(self, block: u32) -> bool {
        self.exits.dom().contains(block) && self.exits[block].0 >= self.values.len()
    }

    /// `block` is the first exit that returns a value that does not exist.
    pub open spec fn first_dangling(self, block: u32) -> bool {
        &&& self.exit_dangles(block)
        &&& forall|b: u32| #[trigger] self.exit_dangles(b) ==> block <= b
    }

    /// Fault of the first exit, in the order of blocks, that has one.
    pub open spec fn exits_fault(self) -> Option<HirValidationError> {
        if exists|b: u32| #[trigger] self.exit_dangles(b) {
            let b = choose|b: u32| #[trigger] self.first_dangling(b);
            Some(HirValidationError::UnknownValue { value: self.exits[b] })
        } else {
            None
        }
    }

    /// Fault of the first bad place of an argument from `i` on.
    pub open spec fn places_fault(self, call: CallSiteId, position: u16, places: Seq<LocationView>, i: int) -> Option<HirValidationError>
        decreases places.len() - i,
    {
        if i < 0 || i >= places.len() {
            None
        } else {
            match places[i] {
                LocationView::Stack(offset) => if offset < 32 || offset % 8 != 0 {
                    Some(
                        HirValidationError::InvalidStackArgumentLocation {
                            call,
                            position,
                            offset_from_pre_call_rsp: offset,
                        },
                    )
                } else {
                    self.places_fault(call, position, places, i + 1)
                },
                LocationView::Register(_) => self.places_fault(call, position, places, i + 1),
            }
        }
    }

    /// First fault among the arguments of a call from `i` on.
    pub open spec fn arguments_fault(self, call: CallSiteId, arguments: Seq<ArgumentView>, i: int) -> Option<HirValidationError>
        decreases arguments.len() - i,
    {
        if i < 0 || i >= arguments.len() {
            None
        } else {
            let a = arguments[i];
            if self.value_fault(a.value) is Some {
                self.value_fault(a.value)
            } else if exists|j: int| 0 <= j < i && (#[trigger] arguments[j]).position == a.position {
                Some(HirValidationError::DuplicateArgumentPosition { call, position: a.position })
            } else if a.locations.len() == 0 {
                Some(HirValidationError::EmptyArgumentLocations { call, position: a.position })
            } else {
                first_of(
                    self.places_fault(call, a.position, a.locations, 0),
                    self.arguments_fault(call, arguments, i + 1),
                )
            }
        }
    }

    /// Fault of a call's target.
    pub open spec fn target_fault(self, target: TargetView) -> Option<HirValidationError> {
        match target {
            TargetView::Indirect { target, .. } => self.value_fault(target),
            _ => None,
        }
    }

    /// Fault of a call's result.
    pub open spec fn result_fault(self, result: Option<Win64Result>) -> Option<HirValidationError> {
        match result {
            None => None,
            Some(r) => first_of(
                self.value_fault(r.value),
                match r.location {
                    Win64ResultLocation::Indirect { storage_pointer, .. } => self.value_fault(
                        storage_pointer,
                    ),
                    Win64ResultLocation::Register(_) => None,
                },
            ),
        }
    }

    /// Fault of what a call may write.
    pub open spec fn memory_fault(self, memory: MemoryView) -> Option<HirValidationError> {
        match memory {
            MemoryView::Objects(v) => self.object_refs_fault(v, 0),
            _ => None,
        }
    }

    /// First fault of one call: of its target, its arguments, its result, its clobbers.
    pub open spec fn call_fault(self, call: CallSiteId, c: CallView) -> Option<HirValidationError> {
        first_of(
            self.target_fault(c.target),
            first_of(
                self.arguments_fault(call, c.arguments, 0),
                first_of(self.result_fault(c.result), self.memory_fault(c.clobbers.memory)),
            ),
        )
    }

    /// First fault among the calls from `i` on.
    pub open spec fn calls_fault(self, i: int) -> Option<HirValidationError>
        decreases self.calls.len() - i,
    {
        if i < 0 || i >= self.calls.len() {
            None
        } else {
            first_of(self.call_fault(CallSiteId(i as u32), self.calls[i]), self.calls_fault(i + 1))
        }
    }

    /// The first fault of the function: among its values, its memory objects, its
    /// operations, its exits, its calls.
    pub open spec fn fault(self) -> Option<HirValidationError> {
        first_of(
            self.values_fault(0),
            first_of(
                self.objects_fault(0),
                first_of(
                    self.operations_fault(0),
                    first_of(self.exits_fault(), self.calls_fault(0)),
                ),
            ),
        )
    }
}

// ─── Construction and lookup ────────────────────────────────────────────────

impl Default for HirFunction {
    fn default() -> (r: HirFunction)
        ensures
            r@ == HirView::empty(),
    {
        let r = HirFunction {
            values: Vec::new(),
            operations: Vec::new(),
            memory_objects: Vec::new(),
            call_sites: Vec::new(),
            exit_values: BTreeMap::new(),
            memory_versions: BTreeMap::new(),
        };
        assert(r@ =~= HirView::empty());
        r
    }
}

impl HirFunction {
    /// Add a value and return its id.
    pub fn add_value(&mut self, bit_width: Option<u16>, provenance: Provenance) -> (id: ValueId)
        requires
            old(self)@.values.len() <= u32::MAX,
        ensures
            id == ValueId(old(self)@.values.len() as u32),
            final(self)@ == (HirView {
                values: old(self)@.values.push(
                    ValueView { id, bit_width, provenance: provenance@ },
                ),
                ..old(self)@
            }),
    {
        let id = ValueId::new(self.values.len() as u32);
        let ghost before = self.values@;
        self.values.push(Value::new(id, bit_width, provenance));
        assert(value_views(self.values@) =~= value_views(before).push(
            ValueView { id, bit_width, provenance: provenance@ },
        ));
        id
    }

    /// Add an operation and return its id.
    pub fn add_operation(&mut self, kind: HirOperationKind, inputs: Vec<ValueId>, output: Option<ValueId>, provenance: Provenance) -> (id: OperationId)
        requires
            old(self)@.operations.len() <= u32::MAX,
        ensures
            id == OperationId(old(self)@.operations.len() as u32),
            final(self)@ == (HirView {
                operations: old(self)@.operations.push(
                    OperationView { id, kind, inputs: inputs@, output, provenance: provenance@ },
                ),
                ..old(self)@
            }),
    {
        let id = OperationId::new(self.operations.len() as u32);
        let ghost before = self.operations@;
        self.operations.push(HirOperation { id, kind, inputs, output, provenance });
        assert(operation_views(self.operations@) =~= operation_views(before).push(
            OperationView { id, kind, inputs: inputs@, output, provenance: provenance@ },
        ));
        id
    }

    /// Add a memory object and return its id.
    pub fn add_memory_object(&mut self, kind: MemoryObjectKind, size_bytes: Option<u64>, alignment: Option<u32>, provenance: Provenance) -> (id: MemoryObjectId)
        requires
            old(self)@.objects.len() <= u32::MAX,
        ensures
            id == MemoryObjectId(old(self)@.objects.len() as u32),
            final(self)@ == (HirView {
                objects: old(self)@.objects.push(
                    ObjectView { id, kind, size_bytes, alignment, provenance: provenance@ },
                ),
                ..old(self)@
            }),
    {
        let id = MemoryObjectId::new(self.memory_objects.len() as u32);
        let ghost before = self.memory_objects@;
        self.memory_objects.push(
            MemoryObject::new(id, kind, size_bytes, alignment, provenance),
        );
        assert(object_views(self.memory_objects@) =~= object_views(before).push(
            ObjectView { id, kind, size_bytes, alignment, provenance: provenance@ },
        ));
        id
    }

    /// Add a call site and return its id.
    pub fn add_call_site(&mut self, call_site: Win64CallSite) -> (id: CallSiteId)
        requires
            old(self)@.calls.len() <= u32::MAX,
        ensures
            id == CallSiteId(old(self)@.calls.len() as u32),
            final(self)@ == (HirView { calls: old(self)@.calls.push(call_site@), ..old(self)@ }),
    {
        let id = CallSiteId::new(self.call_sites.len() as u32);
        let ghost before = self.call_sites@;
        self.call_sites.push(call_site);
        assert(call_views(self.call_sites@) =~= call_views(before).push(call_site@));
        id
    }

    /// Look up a value.
    pub fn value(&self, id: ValueId) -> (r: Option<&Value>)
        ensures
            match r {
                Some(v) => id.0 < self@.values.len() && v@ == self@.values[id.0 as int],
                None => id.0 >= self@.values.len(),
            },
    {
        let i: usize = id.index() as usize;
        if i < self.values.len() {
            Some(&self.values[i])
        } else {
            None
        }
    }

    /// Mutably look up a value.
    pub fn value_mut(&mut self, id: ValueId) -> (r: Option<&mut Value>)
        ensures
            match r {
                Some(v) => id.0 < old(self)@.values.len() && v@ == old(self)@.values[id.0 as int]
                    && final(self)@ == (HirView {
                    values: old(self)@.values.update(id.0 as int, final(v)@),
                    ..old(self)@
                }),
                None => id.0 >= old(self)@.values.len() && final(self)@ == old(self)@,
            },
    {
        let i: usize = id.index() as usize;
        if i < self.values.len() {
            Some(&mut self.values[i])
        } else {
            None
        }
    }

    /// Look up an operation.
    pub fn operation(&self, id: OperationId) -> (r: Option<&HirOperation>)
        ensures
            match r {
                Some(v) => id.0 < self@.operations.len() && v@ == self@.operations[id.0 as int],
                None => id.0 >= self@.operations.len(),
            },
    {
        let i: usize = id.index() as usize;
        if i < self.operations.len() {
            Some(&self.operations[i])
        } else {
            None
        }
    }

    /// Look up a memory object.
    pub fn memory_object(&self, id: MemoryObjectId) -> (r: Option<&MemoryObject>)
        ensures
            match r {
                Some(v) => id.0 < self@.objects.len() && v@ == self@.objects[id.0 as int],
                None => id.0 >= self@.objects.len(),
            },
    {
        let i: usize = id.index() as usize;
        if i < self.memory_objects.len() {
            Some(&self.memory_objects[i])
        } else {
            None
        }
    }

    /// Look up a call site.
    pub fn call_site(&self, id: CallSiteId) -> (r: Option<&Win64CallSite>)
        ensures
            match r {
                Some(v) => id.0 < self@.calls.len() && v@ == self@.calls[id.0 as int],
                None => id.0 >= self@.calls.len(),
            },
    {
        let i: usize = id.index() as usize;
        if i < self.call_sites.len() {
            Some(&self.call_sites[i])
        } else {
            None
        }
    }

    /// The value that an exit block returns.
    pub fn exit_value(&self, block: u32) -> (r: Option<ValueId>)
        ensures
            r == crate::maps::lookup(self@.exits, block),
    {
        match self.exit_values.get(&block) {
            Some(v) => Some(*v),
            None => None,
        }
    }

    /// All values in the order of their ids.
    pub fn values(&self) -> (r: &[Value])
        ensures
            value_views(r@) == self@.values,
    {
        self.values.as_slice()
    }

    /// All operations in the order of their ids.
    pub fn operations(&self) -> (r: &[HirOperation])
        ensures
            operation_views(r@) == self@.operations,
    {
        self.operations.as_slice()
    }

    /// All memory objects in the order of their ids.
    pub fn memory_objects(&self) -> (r: &[MemoryObject])
        ensures
            object_views(r@) == self@.objects,
    {
        self.memory_objects.as_slice()
    }

    /// All call sites in the order of their ids.
    pub fn call_sites(&self) -> (r: &[Win64CallSite])
        ensures
            call_views(r@) == self@.calls,
    {
        self.call_sites.as_slice()
    }

    /// Replace the provenance of a value.
    pub(crate) fn set_provenance(&mut self, id: ValueId, provenance: Provenance)
        requires
            id.0 < old(self)@.values.len(),
        ensures
            final(self)@ == (HirView {
                values: old(self)@.values.update(
                    id.0 as int,
                    ValueView { provenance: provenance@, ..old(self)@.values[id.0 as int] },
                ),
                ..old(self)@
            }),
    {
        let i: usize = id.index() as usize;
        let ghost before = self.values@;
        let new = Value { id: self.values[i].id, bit_width: self.values[i].bit_width, provenance };
        self.values.set(i, new);
        assert(value_views(self.values@) =~= value_views(before).update(i as int, new@));
    }

    /// Record the value that an exit block returns.
    pub(crate) fn set_exit(&mut self, block: u32, value: ValueId)
        ensures
            final(self)@ == (HirView { exits: old(self)@.exits.insert(block, value), ..old(self)@ }),
    {
        self.exit_values.insert(block, value);
    }
}

// ─── Validation ─────────────────────────────────────────────────────────────

fn is_power_of_two(n: u32) -> (r: bool)
    ensures
        r == power_of_two(n as nat),
{
    let mut m: u32 = n;
    while m > 1 && m % 2 == 0
        invariant
            power_of_two(m as nat) == power_of_two(n as nat),
        decreases m,
    {
        m = m / 2;
    }
    m == 1
}

impl HirFunction {
    fn require_value(&self, value: ValueId) -> (r: Result<(), HirValidationError>)
        ensures
            match r {
                Ok(_) => self@.value_fault(value) is None,
                Err(e) => self@.value_fault(value) == Some(e),
            },
    {
        if self.value(value).is_some() {
            Ok(())
        } else {
            Err(HirValidationError::UnknownValue { value })
        }
    }

    fn require_memory_object(&self, object: MemoryObjectId) -> (r: Result<(), HirValidationError>)
        ensures
            match r {
                Ok(_) => self@.object_fault(object) is None,
                Err(e) => self@.object_fault(object) == Some(e),
            },
    {
        if self.memory_object(object).is_some() {
            Ok(())
        } else {
            Err(HirValidationError::UnknownMemoryObject { object })
        }
    }

    fn check_values(&self) -> (r: Result<(), HirValidationError>)
        requires
            self@.fits(),
        ensures
            match r {
                Ok(_) => self@.values_fault(0) is None,
                Err(e) => self@.values_fault(0) == Some(e),
            },
    {
        let mut i: usize = 0;
        while i < self.values.len()
            invariant
                self@.fits(),
                i <= self.values@.len(),
                self@.values_fault(i as int) == self@.values_fault(0),
            decreases self.values@.len() - i,
        {
            let v = &self.values[i];
            assert(self@.values[i as int] == v@);
            let expected = ValueId::new(i as u32);
            if v.id != expected {
                return Err(HirValidationError::ValueIdMismatch { expected, actual: v.id });
            }
            if v.bit_width == Some(0u16) {
                return Err(HirValidationError::InvalidValueWidth { value: v.id });
            }
            i += 1;
        }
        Ok(())
    }

    fn check_objects(&self) -> (r: Result<(), HirValidationError>)
        requires
            self@.fits(),
        ensures
            match r {
                Ok(_) => self@.objects_fault(0) is None,
                Err(e) => self@.objects_fault(0) == Some(e),
            },
    {
        let mut i: usize = 0;
        while i < self.memory_objects.len()
            invariant
                self@.fits(),
                i <= self.memory_objects@.len(),
                self@.objects_fault(i as int) == self@.objects_fault(0),
            decreases self.memory_objects@.len() - i,
        {
            let o = &self.memory_objects[i];
            assert(self@.objects[i as int] == o@);
            let expected = MemoryObjectId::new(i as u32);
            if o.id != expected {
                return Err(HirValidationError::MemoryObjectIdMismatch { expected, actual: o.id });
            }
            if o.size_bytes == Some(0u64) {
                return Err(HirValidationError::InvalidMemoryObjectSize { object: o.id });
            }
            if let Some(alignment) = o.alignment {
                if !is_power_of_two(alignment) {
                    return Err(
                        HirValidationError::InvalidMemoryAlignment { object: o.id, alignment },
                    );
                }
            }
            if let MemoryObjectKind::Heap { allocation: Some(value) } = o.kind {
                if let Err(e) = self.require_value(value) {
                    return Err(e);
                }
            }
            i += 1;
        }
        Ok(())
    }

    fn check_refs(&self, refs: &Vec<ValueId>) -> (r: Result<(), HirValidationError>)
        ensures
            match r {
                Ok(_) => self@.refs_fault(refs@, 0) is None,
                Err(e) => self@.refs_fault(refs@, 0) == Some(e),
            },
    {
        let mut i: usize = 0;
        while i < refs.len()
            invariant
                i <= refs@.len(),
                self@.refs_fault(refs@, i as int) == self@.refs_fault(refs@, 0),
            decreases refs@.len() - i,
        {
            if let Err(e) = self.require_value(refs[i]) {
                return Err(e);
            }
            i += 1;
        }
        Ok(())
    }

    fn check_object_refs(&self, refs: &Vec<MemoryObjectId>) -> (r: Result<(), HirValidationError>)
        ensures
            match r {
                Ok(_) => self@.object_refs_fault(refs@, 0) is None,
                Err(e) => self@.object_refs_fault(refs@, 0) == Some(e),
            },
    {
        let mut i: usize = 0;
        while i < refs.len()
            invariant
                i <= refs@.len(),
                self@.object_refs_fault(refs@, i as int) == self@.object_refs_fault(refs@, 0),
            decreases refs@.len() - i,
        {
            if let Err(e) = self.require_memory_object(refs[i]) {
                return Err(e);
            }
            i += 1;
        }
        Ok(())
    }

    fn check_operations(&self) -> (r: Result<(), HirValidationError>)
        requires
            self@.fits(),
        ensures
            match r {
                Ok(_) => self@.operations_fault(0) is None,
                Err(e) => self@.operations_fault(0) == Some(e),
            },
    {
        let mut i: usize = 0;
        while i < self.operations.len()
            invariant
                self@.fits(),
                i <= self.operations@.len(),
                self@.operations_fault(i as int) == self@.operations_fault(0),
            decreases self.operations@.len() - i,
        {
            let o = &self.operations[i];
            assert(self@.operations[i as int] == o@);
            let expected = OperationId::new(i as u32);
            if o.id != expected {
                return Err(HirValidationError::OperationIdMismatch { expected, actual: o.id });
            }
            if let Err(e) = self.check_refs(&o.inputs) {
                return Err(e);
            }
            if let Some(value) = o.output {
                if let Err(e) = self.require_value(value) {
                    return Err(e);
                }
            }
            i += 1;
        }
        Ok(())
    }

    fn check_exits(&self) -> (r: Result<(), HirValidationError>)
        ensures
            match r {
                Ok(_) => self@.exits_fault() is None,
                Err(e) => self@.exits_fault() == Some(e),
            },
    {
        let ghost view = self@;
        let mut worst: Option<u32> = None;
        let keys = self.exit_values.keys();
        proof {
            let listed = vstd::std_specs::iter::IteratorSpec::remaining(&keys);
            assert forall|b: u32| view.exit_dangles(b) implies exists|i: int|
                0 <= i < listed.len() && *#[trigger] listed[i] == b by {
                assert(listed.unref().to_set().contains(b));
                let i = choose|i: int| 0 <= i < listed.unref().len() && listed.unref()[i] == b;
                assert(*listed[i] == b);
            }
        }
        for b in it: keys
            invariant
                view == self@,
                view.exits == self.exit_values@,
                forall|b: u32|
                    #[trigger] view.exit_dangles(b) ==> exists|i: int|
                        0 <= i < it.seq().len() && *#[trigger] it.seq()[i] == b,
                match worst {
                    Some(w) => view.exit_dangles(w) && forall|i: int|
                        0 <= i < it.index() && view.exit_dangles(*#[trigger] it.seq()[i]) ==> w
                            <= *it.seq()[i],
                    None => forall|i: int|
                        0 <= i < it.index() ==> !view.exit_dangles(*#[trigger] it.seq()[i]),
                },
        {
            let value = self.exit_values.get(b);
            if let Some(value) = value {
                if self.value(*value).is_none() {
                    match worst {
                        Some(w) => if *b < w {
                            worst = Some(*b);
                        },
                        None => {
                            worst = Some(*b);
                        },
                    }
                }
            }
        }
        match worst {
            Some(w) => {
                assert(view.first_dangling(w));
                assert(self.exit_values@.dom().contains(w));
                let value = self.exit_values.get(&w);
                assert(value is Some);
                Err(HirValidationError::UnknownValue { value: *value.unwrap() })
            },
            None => Ok(()),
        }
    }

    fn check_arguments(&self, call: CallSiteId, site: &Win64CallSite) -> (r: Result<(), HirValidationError>)
        ensures
            match r {
                Ok(_) => self@.arguments_fault(call, site@.arguments, 0) is None,
                Err(e) => self@.arguments_fault(call, site@.arguments, 0) == Some(e),
            },
    {
        let ghost arguments = site@.arguments;
        let mut positions: BTreeSet<u16> = BTreeSet::new();
        let mut i: usize = 0;
        while i < site.arguments.len()
            invariant
                i <= site.arguments@.len(),
                arguments == site@.arguments,
                forall|p: u16|
                    #[trigger] positions@.contains(p) <==> exists|j: int|
                        0 <= j < i && (#[trigger] arguments[j]).position == p,
                self@.arguments_fault(call, arguments, i as int) == self@.arguments_fault(
                    call,
                    arguments,
                    0,
                ),
            decreases site.arguments@.len() - i,
        {
            let a = &site.arguments[i];
            assert(arguments[i as int] == a@);
            if let Err(e) = self.require_value(a.value) {
                return Err(e);
            }
            let ghost before = positions@;
            let fresh = positions.insert(a.position);
            if !fresh {
                assert(before.contains(a.position));
                return Err(
                    HirValidationError::DuplicateArgumentPosition { call, position: a.position },
                );
            }
            assert(!before.contains(a.position));
            if a.locations.len() == 0 {
                return Err(
                    HirValidationError::EmptyArgumentLocations { call, position: a.position },
                );
            }
            let ghost places = a@.locations;
            let mut k: usize = 0;
            while k < a.locations.len()
                invariant
                    k <= a.locations@.len(),
                    places == a@.locations,
                    self@.places_fault(call, a.position, places, k as int) == self@.places_fault(
                        call,
                        a.position,
                        places,
                        0,
                    ),
                    arguments == site@.arguments,
                    i < arguments.len(),
                    arguments[i as int] == a@,
                    self@.value_fault(a.value) is None,
                    a.locations@.len() > 0,
                    forall|j: int| 0 <= j < i ==> (#[trigger] arguments[j]).position != a.position,
                    self@.arguments_fault(call, arguments, i as int) == self@.arguments_fault(
                        call,
                        arguments,
                        0,
                    ),
                decreases a.locations@.len() - k,
            {
                assert(places[k as int] == a.locations@[k as int]@);
                if let Win64ArgumentLocation::Stack { offset_from_pre_call_rsp } = a.locations[k] {
                    if offset_from_pre_call_rsp < 32 || offset_from_pre_call_rsp % 8 != 0 {
                        return Err(
                            HirValidationError::InvalidStackArgumentLocation {
                                call,
                                position: a.position,
                                offset_from_pre_call_rsp,
                            },
                        );
                    }
                }
                k += 1;
            }
            proof {
                assert forall|p: u16| #[trigger] positions@.contains(p) <==> exists|j: int|
                    0 <= j < i + 1 && (#[trigger] arguments[j]).position == p by {
                    if exists|j: int| 0 <= j < i + 1 && (#[trigger] arguments[j]).position == p {
                        let j = choose|j: int|
                            0 <= j < i + 1 && (#[trigger] arguments[j]).position == p;
                        assert(j < i ==> before.contains(p));
                    }
                    if before.contains(p) {
                    } else if positions@.contains(p) {
                        assert(arguments[i as int].position == p);
                    }
                }
            }
            i += 1;
        }
        Ok(())
    }

    fn check_call(&self, call: CallSiteId, site: &Win64CallSite) -> (r: Result<(), HirValidationError>)
        ensures
            match r {
                Ok(_) => self@.call_fault(call, site@) is None,
                Err(e) => self@.call_fault(call, site@) == Some(e),
            },
    {
        if let CallTarget::Indirect { target, .. } = &site.target {
            if let Err(e) = self.require_value(*target) {
                return Err(e);
            }
        }
        if let Err(e) = self.check_arguments(call, site) {
            return Err(e);
        }
        if let Some(result) = site.result {
            if let Err(e) = self.require_value(result.value) {
                return Err(e);
            }
            if let Win64ResultLocation::Indirect { storage_pointer, .. } = result.location {
                if let Err(e) = self.require_value(storage_pointer) {
                    return Err(e);
                }
            }
        }
        if let MemoryClobber::Objects(objects) = &site.clobbers.memory {
            if let Err(e) = self.check_object_refs(objects) {
                return Err(e);
            }
        }
        Ok(())
    }

    fn check_calls(&self) -> (r: Result<(), HirValidationError>)
        requires
            self@.fits(),
        ensures
            match r {
                Ok(_) => self@.calls_fault(0) is None,
                Err(e) => self@.calls_fault(0) == Some(e),
            },
    {
        let mut i: usize = 0;
        while i < self.call_sites.len()
            invariant
                self@.fits(),
                i <= self.call_sites@.len(),
                self@.calls_fault(i as int) == self@.calls_fault(0),
            decreases self.call_sites@.len() - i,
        {
            assert(self@.calls[i as int] == self.call_sites@[i as int]@);
            if let Err(e) = self.check_call(CallSiteId::new(i as u32), &self.call_sites[i]) {
                return Err(e);
            }
            i += 1;
        }
        Ok(())
    }

    /// Verify the ids of the arenas and every reference among them.
    pub fn validate(&self) -> (r: Result<(), HirValidationError>)
        requires
            self@.fits(),
        ensures
            match r {
                Ok(_) => self@.fault() is None,
                Err(e) => self@.fault() == Some(e),
            },
    {
        if let Err(e) = self.check_values() {
            return Err(e);
        }
        if let Err(e) = self.check_objects() {
            return Err(e);
        }
        if let Err(e) = self.check_operations() {
            return Err(e);
        }
        if let Err(e) = self.check_exits() {
            return Err(e);
        }
        self.check_calls()
    }
}

} // verus!
