//! A semantic intermediate form: values with provenance, register slices, memory
//! objects and calls with their Windows x64 contract.
//!
//! Identities are local to one function. Register aliases are slices of one
//! physical register, memory is partitioned into objects, and every fact keeps the
//! P-code that it came from.

use vstd::prelude::*;
use crate::numbers::{dec, dec_text};
use crate::text::{chars_of, push_text, string_of};

pub mod abi;
pub mod arguments;
pub mod convention;
pub mod faithful;
pub mod function;
pub mod lowering;
pub mod register;

pub use crate::hir::abi::{CallClobbers, CallTarget, MemoryClobber, Win64Argument, Win64ArgumentClass, Win64ArgumentLocation, Win64CallSite, Win64Result, Win64ResultClass, Win64ResultLocation, WIN64_SHADOW_SPACE_BYTES, WIN64_STACK_ARGUMENT_SLOT_BYTES};
pub use crate::hir::function::{AliasClass, HirFunction, HirOperation, HirOperationKind, HirValidationError, MemoryAccess, MemoryObject, MemoryObjectKind, Value};
pub use crate::hir::lowering::{lift_win64_calls, lower_from_ssa, SsaLowering, SsaOperationKey};
pub use crate::hir::register::{Gpr, Register, RegisterSlice, RegisterSliceError, RegisterWriteSemantics, X86_MAX_VECTOR_REGISTER_COUNT};

verus! {

/// A value of the function, by its position among the values.
#[derive(Clone, Copy, Debug, PartialEq, Eq, Hash, PartialOrd, Ord, Structural)]
pub struct ValueId(pub u32);

impl ValueId {
    /// Construct an id from its zero-based position.
    pub fn new(index: u32) -> (r: ValueId)
        ensures
            r == ValueId(index),
    {
        ValueId(index)
    }

    /// The zero-based position.
    pub fn index(self) -> (r: u32)
        ensures
            r == self.0,
    {
        self.0
    }

    /// How the id is written.
    pub open spec fn label(self) -> Seq<char> {
        "v"@ + dec(self.0 as nat)
    }

    /// The id as text.
    pub fn to_text(self) -> (r: String)
        ensures
            r@ == self.label(),
    {
        let mut t = chars_of("v");
        push_text(&mut t, &dec_text(self.0 as u64));
        string_of(&t)
    }
}

/// A memory object of the function, by its position among the objects.
#[derive(Clone, Copy, Debug, PartialEq, Eq, Hash, PartialOrd, Ord, Structural)]
pub struct MemoryObjectId(pub u32);

impl MemoryObjectId {
    /// Construct an id from its zero-based position.
    pub fn new(index: u32) -> (r: MemoryObjectId)
        ensures
            r == MemoryObjectId(index),
    {
        MemoryObjectId(index)
    }

    /// The zero-based position.
    pub fn index(self) -> (r: u32)
        ensures
            r == self.0,
    {
        self.0
    }

    /// How the id is written.
    pub open spec fn label(self) -> Seq<char> {
        "mem"@ + dec(self.0 as nat)
    }

    /// The id as text.
    pub fn to_text(self) -> (r: String)
        ensures
            r@ == self.label(),
    {
        let mut t = chars_of("mem");
        push_text(&mut t, &dec_text(self.0 as u64));
        string_of(&t)
    }
}

/// A call site of the function, by its position among the call sites.
#[derive(Clone, Copy, Debug, PartialEq, Eq, Hash, PartialOrd, Ord, Structural)]
pub struct CallSiteId(pub u32);

impl CallSiteId {
    /// Construct an id from its zero-based position.
    pub fn new(index: u32) -> (r: CallSiteId)
        ensures
            r == CallSiteId(index),
    {
        CallSiteId(index)
    }

    /// The zero-based position.
    pub fn index(self) -> (r: u32)
        ensures
            r == self.0,
    {
        self.0
    }

    /// How the id is written.
    pub open spec fn label(self) -> Seq<char> {
        "call"@ + dec(self.0 as nat)
    }

    /// The id as text.
    pub fn to_text(self) -> (r: String)
        ensures
            r@ == self.label(),
    {
        let mut t = chars_of("call");
        push_text(&mut t, &dec_text(self.0 as u64));
        string_of(&t)
    }
}

/// An operation of the function, by its position among the operations.
#[derive(Clone, Copy, Debug, PartialEq, Eq, Hash, PartialOrd, Ord, Structural)]
pub struct OperationId(pub u32);

impl OperationId {
    /// Construct an id from its zero-based position.
    pub fn new(index: u32) -> (r: OperationId)
        ensures
            r == OperationId(index),
    {
        OperationId(index)
    }

    /// The zero-based position.
    pub fn index(self) -> (r: u32)
        ensures
            r == self.0,
    {
        self.0
    }
}

/// A version of one memory object. The versions of two objects are unrelated.
#[derive(Clone, Copy, Debug, PartialEq, Eq, Hash, PartialOrd, Ord, Structural)]
pub struct MemoryVersion(pub u32);

impl MemoryVersion {
    /// The version on function entry.
    pub fn entry() -> (r: MemoryVersion)
        ensures
            r == MemoryVersion(0),
    {
        MemoryVersion(0)
    }

    /// Construct a version.
    pub fn new(version: u32) -> (r: MemoryVersion)
        ensures
            r == MemoryVersion(version),
    {
        MemoryVersion(version)
    }

    /// The version number.
    pub fn index(self) -> (r: u32)
        ensures
            r == self.0,
    {
        self.0
    }
}

/// Where one lifted operation comes from: its machine instruction, and its
/// position in the SSA block.
#[derive(Clone, Copy, Debug, PartialEq, Eq, Hash, PartialOrd, Ord, Structural)]
pub struct PcodeOrigin {
    pub instruction_va: u64,
    pub lowered_operation_ordinal: u32,
}

impl PcodeOrigin {
    /// Construct one source position.
    pub fn new(instruction_va: u64, lowered_operation_ordinal: u32) -> (r: PcodeOrigin)
        ensures
            r == (PcodeOrigin { instruction_va, lowered_operation_ordinal }),
    {
        PcodeOrigin { instruction_va, lowered_operation_ordinal }
    }
}

/// A range of source positions, both ends included.
#[derive(Clone, Copy, Debug, PartialEq, Eq, Hash, Structural)]
pub struct OriginSpan {
    pub first: PcodeOrigin,
    pub last: PcodeOrigin,
}

/// The range that holds one operation.
pub open spec fn single_span(instruction_va: u64, ordinal: u32) -> OriginSpan {
    let origin = PcodeOrigin { instruction_va, lowered_operation_ordinal: ordinal };
    OriginSpan { first: origin, last: origin }
}

impl OriginSpan {
    /// Create a range, in execution order.
    pub fn new(first: PcodeOrigin, last: PcodeOrigin) -> (r: OriginSpan)
        ensures
            r == (OriginSpan { first, last }),
    {
        OriginSpan { first, last }
    }

    /// Create a range that holds exactly one operation.
    pub fn single(instruction_va: u64, lowered_operation_ordinal: u32) -> (r: OriginSpan)
        ensures
            r == single_span(instruction_va, lowered_operation_ordinal),
    {
        let origin = PcodeOrigin::new(instruction_va, lowered_operation_ordinal);
        OriginSpan::new(origin, origin)
    }
}

/// Why a fact exists, besides its source positions.
#[derive(Clone, Copy, Debug, Default, PartialEq, Eq, Hash, Structural)]
pub enum ProvenanceKind {
    /// Lifted from a P-code operation.
    Lifted,
    /// Given by a rule of the calling convention.
    Abi,
    /// Introduced by a merge of the control flow.
    Phi,
    /// A value of the function's entry.
    Entry,
    /// Introduced by a simplification.
    Simplified,
    /// Introduced by type, target or other recovery.
    Recovered,
    /// Without a source.
    #[default]
    Synthetic,
}

/// The evidence for a fact: its direct source, if any, and further ones.
#[derive(Clone, Debug, PartialEq, Eq)]
pub struct Provenance {
    pub primary: Option<OriginSpan>,
    pub contributors: Vec<OriginSpan>,
    pub kind: ProvenanceKind,
}

/// Provenance as a value.
#[verifier::ext_equal]
pub ghost struct ProvenanceView {
    pub primary: Option<OriginSpan>,
    pub contributors: Seq<OriginSpan>,
    pub kind: ProvenanceKind,
}

impl View for Provenance {
    type V = ProvenanceView;

    open spec fn view(&self) -> ProvenanceView {
        ProvenanceView {
            primary: self.primary,
            contributors: self.contributors@,
            kind: self.kind,
        }
    }
}

fn copy_spans(v: &Vec<OriginSpan>) -> (r: Vec<OriginSpan>)
    ensures
        r@ == v@,
{
    let mut r: Vec<OriginSpan> = Vec::new();
    let mut i: usize = 0;
    while i < v.len()
        invariant
            i <= v@.len(),
            r@ == v@.take(i as int),
        decreases v@.len() - i,
    {
        r.push(v[i]);
        assert(v@.take(i + 1) =~= v@.take(i as int).push(v@[i as int]));
        i += 1;
    }
    assert(v@.take(v@.len() as int) =~= v@);
    r
}

impl Provenance {
    /// Provenance of what was lifted directly from P-code.
    pub fn lifted(span: OriginSpan) -> (r: Provenance)
        ensures
            r@ == (ProvenanceView {
                primary: Some(span),
                contributors: Seq::empty(),
                kind: ProvenanceKind::Lifted,
            }),
    {
        let r = Provenance {
            primary: Some(span),
            contributors: Vec::new(),
            kind: ProvenanceKind::Lifted,
        };
        assert(r.contributors@ =~= Seq::empty());
        r
    }

    /// Provenance of a derived fact.
    pub fn derived(kind: ProvenanceKind, primary: Option<OriginSpan>, contributors: Vec<OriginSpan>) -> (r: Provenance)
        ensures
            r@ == (ProvenanceView { primary, contributors: contributors@, kind }),
    {
        Provenance { primary, contributors, kind }
    }

    /// Provenance without a source.
    pub fn synthetic(kind: ProvenanceKind) -> (r: Provenance)
        ensures
            r@ == (ProvenanceView { primary: None, contributors: Seq::empty(), kind }),
    {
        let none: Vec<OriginSpan> = Vec::new();
        assert(none@ =~= Seq::empty());
        Provenance::derived(kind, None, none)
    }

    /// The direct source first, followed by every contributor.
    pub fn spans(&self) -> (r: Vec<OriginSpan>)
        ensures
            r@ == match self.primary {
                Some(p) => seq![p] + self.contributors@,
                None => self.contributors@,
            },
    {
        let mut r: Vec<OriginSpan> = Vec::new();
        if let Some(p) = self.primary {
            r.push(p);
        }
        let ghost start = r@;
        let mut i: usize = 0;
        while i < self.contributors.len()
            invariant
                i <= self.contributors@.len(),
                r@ == start + self.contributors@.take(i as int),
            decreases self.contributors@.len() - i,
        {
            r.push(self.contributors[i]);
            assert(self.contributors@.take(i + 1) =~= self.contributors@.take(i as int).push(
                self.contributors@[i as int],
            ));
            assert(r@ =~= start + self.contributors@.take(i + 1));
            i += 1;
        }
        assert(self.contributors@.take(self.contributors@.len() as int) =~= self.contributors@);
        r
    }

    /// The same evidence for a fact of another kind.
    pub fn recast(&self, kind: ProvenanceKind) -> (r: Provenance)
        ensures
            r@ == (ProvenanceView { kind, ..self@ }),
    {
        Provenance::derived(kind, self.primary, copy_spans(&self.contributors))
    }

    /// The same provenance, as a new value.
    pub fn copied(&self) -> (r: Provenance)
        ensures
            r@ == self@,
    {
        self.recast(self.kind)
    }
}

impl Default for Provenance {
    fn default() -> (r: Provenance)
        ensures
            r@ == (ProvenanceView {
                primary: None,
                contributors: Seq::empty(),
                kind: ProvenanceKind::Synthetic,
            }),
    {
        Provenance::synthetic(ProvenanceKind::Synthetic)
    }
}

} // verus!
