//! Faults, reports and the calling convention of the semantic form.

use windydec::hir::{CallClobbers, CallSiteId, CallTarget, Gpr, HirFunction, HirOperationKind, HirValidationError, MemoryClobber, MemoryObjectId, MemoryObjectKind, OperationId, OriginSpan, PcodeOrigin, Provenance, ProvenanceKind, Register, RegisterSlice, RegisterSliceError, ValueId, Win64Argument, Win64ArgumentClass, Win64ArgumentLocation, Win64CallSite, Win64Result, Win64ResultClass, Win64ResultLocation};

fn source() -> Provenance {
    Provenance::synthetic(ProvenanceKind::Synthetic)
}

fn call_with(arguments: Vec<Win64Argument>) -> Win64CallSite {
    Win64CallSite::new(source(), CallTarget::Unknown, arguments)
}

#[test]
fn values_of_no_width_are_refused() {
    let mut hir = HirFunction::default();
    hir.add_value(Some(0), source());
    let e = hir.validate().unwrap_err();
    assert_eq!(e, HirValidationError::InvalidValueWidth { value: ValueId(0) });
    assert_eq!(e.to_text(), "v0 has a zero-bit width");
}

#[test]
fn values_out_of_place_are_refused() {
    let mut hir = HirFunction::default();
    let v = hir.add_value(None, source());
    hir.value_mut(v).unwrap().id = ValueId(7);
    let e = hir.validate().unwrap_err();
    assert_eq!(e.to_text(), "value arena expected v0, found v7");
}

#[test]
fn objects_need_a_size_and_an_alignment() {
    let mut hir = HirFunction::default();
    hir.add_memory_object(MemoryObjectKind::Unknown, Some(0), None, source());
    let e = hir.validate().unwrap_err();
    assert_eq!(e, HirValidationError::InvalidMemoryObjectSize { object: MemoryObjectId(0) });
    let mut other = HirFunction::default();
    other.add_memory_object(MemoryObjectKind::Unknown, Some(4), Some(12), source());
    let e = other.validate().unwrap_err();
    assert_eq!(e, HirValidationError::InvalidMemoryAlignment { object: MemoryObjectId(0), alignment: 12 });
    let mut fine = HirFunction::default();
    fine.add_memory_object(MemoryObjectKind::Unknown, Some(4), Some(16), source());
    assert!(fine.validate().is_ok());
}

#[test]
fn dangling_references_are_refused() {
    let mut hir = HirFunction::default();
    hir.add_operation(HirOperationKind::Load, vec![ValueId(3)], None, source());
    assert_eq!(hir.validate(), Err(HirValidationError::UnknownValue { value: ValueId(3) }));
    let mut calls = HirFunction::default();
    let mut call = call_with(vec![]);
    call.clobbers = CallClobbers { registers: vec![], memory: MemoryClobber::Objects(vec![MemoryObjectId(1)]) };
    calls.add_call_site(call);
    assert_eq!(calls.validate(), Err(HirValidationError::UnknownMemoryObject { object: MemoryObjectId(1) }));
    let mut exits = HirFunction::default();
    exits.exit_values.insert(4, ValueId(9));
    assert_eq!(exits.validate(), Err(HirValidationError::UnknownValue { value: ValueId(9) }));
}

#[test]
fn arguments_need_a_place_of_their_own() {
    let mut hir = HirFunction::default();
    let v = hir.add_value(Some(64), source());
    let at = |position, locations| Win64Argument::new(position, v, Win64ArgumentClass::Integer, locations);
    let stack = |n| vec![Win64ArgumentLocation::Stack { offset_from_pre_call_rsp: n }];
    let mut empty = hir.clone();
    empty.add_call_site(call_with(vec![at(0, vec![])]));
    let e = empty.validate().unwrap_err();
    assert_eq!(e, HirValidationError::EmptyArgumentLocations { call: CallSiteId(0), position: 0 });
    let mut twice = hir.clone();
    twice.add_call_site(call_with(vec![at(5, stack(40)), at(5, stack(48))]));
    assert_eq!(
        twice.validate(),
        Err(HirValidationError::DuplicateArgumentPosition { call: CallSiteId(0), position: 5 })
    );
    let mut low = hir.clone();
    low.add_call_site(call_with(vec![at(4, stack(8))]));
    assert_eq!(
        low.validate(),
        Err(HirValidationError::InvalidStackArgumentLocation {
            call: CallSiteId(0),
            position: 4,
            offset_from_pre_call_rsp: 8
        })
    );
}

#[test]
fn faults_are_reported_in_words() {
    let texts = [
        (
            HirValidationError::OperationIdMismatch { expected: OperationId(1), actual: OperationId(2) },
            "operation arena expected op1, found op2",
        ),
        (HirValidationError::UnknownValue { value: ValueId(3) }, "reference to unknown v3"),
    ];
    for (e, t) in texts {
        assert_eq!(e.to_text(), t);
    }
    assert_eq!(
        RegisterSlice::new(Register::Gpr(Gpr::Rax), 63, 2).unwrap_err().to_text(),
        "slice Gpr(Rax)[63..65] exceeds its 64-bit container"
    );
    assert_eq!(
        RegisterSlice::new(Register::Rip, 0, 0),
        Err(RegisterSliceError::EmptySlice)
    );
    assert_eq!(
        RegisterSlice::zmm(32).unwrap_err().to_text(),
        "vector register index 32 is outside 0..32"
    );
}

#[test]
fn slices_share_bits_of_one_register() {
    let ymm = RegisterSlice::ymm(3).unwrap();
    let xmm = RegisterSlice::xmm(3).unwrap();
    let other = RegisterSlice::xmm(4).unwrap();
    assert!(ymm.overlaps(xmm) && xmm.overlaps(ymm));
    assert!(!ymm.overlaps(other));
    assert_eq!((ymm.bit_offset(), ymm.bit_width()), (0, 256));
    assert!(RegisterSlice::full(Register::Rflags).unwrap().overlaps(RegisterSlice::new(Register::Rflags, 6, 1).unwrap()));
}

#[test]
fn results_have_their_registers() {
    let r = Win64Result::integer(ValueId(1));
    assert_eq!(r.location, Win64ResultLocation::Register(RegisterSlice::gpr(Gpr::Rax)));
    let f = Win64Result::floating_point(ValueId(1));
    assert_eq!(f.location, Win64ResultLocation::Register(RegisterSlice::xmm(0).unwrap()));
    assert_eq!(f.class, Win64ResultClass::FloatingPoint);
    let a = Win64Result::aggregate_indirect(ValueId(1), ValueId(2));
    assert_eq!(a.class, Win64ResultClass::AggregateIndirect);
}

#[test]
fn outgoing_area_grows_with_stack_arguments() {
    assert_eq!(call_with(vec![]).required_outgoing_stack_bytes(), 32);
    let six = Win64Argument::standard(6, ValueId(0), Win64ArgumentClass::Integer).unwrap();
    assert_eq!(six.locations, vec![Win64ArgumentLocation::Stack { offset_from_pre_call_rsp: 48 }]);
    assert_eq!(call_with(vec![six]).required_outgoing_stack_bytes(), 56);
}

#[test]
fn default_clobbers_leave_saved_registers() {
    let c = CallClobbers::windows_x64_default();
    for g in [Gpr::Rax, Gpr::Rcx, Gpr::Rdx, Gpr::R8, Gpr::R9, Gpr::R10, Gpr::R11] {
        assert!(c.clobbers_register(RegisterSlice::gpr(g)));
    }
    for g in [Gpr::Rbx, Gpr::Rbp, Gpr::Rsi, Gpr::Rdi, Gpr::R12, Gpr::R15] {
        assert!(!c.clobbers_register(RegisterSlice::gpr(g)));
    }
    assert!(c.clobbers_memory(MemoryObjectId(0)));
    let none = CallClobbers { registers: vec![], memory: MemoryClobber::Nothing };
    assert!(!none.clobbers_memory(MemoryObjectId(0)));
}

#[test]
fn spans_list_the_direct_source_first() {
    let a = OriginSpan::single(0x10, 0);
    let b = OriginSpan::new(PcodeOrigin::new(0x20, 1), PcodeOrigin::new(0x20, 3));
    let p = Provenance::derived(ProvenanceKind::Recovered, Some(a), vec![b]);
    assert_eq!(p.spans(), vec![a, b]);
    assert!(Provenance::default().spans().is_empty());
}
