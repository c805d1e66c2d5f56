//! The semantic representation and its lowering.

use pcode_ir::{PcodeOp, Varnode};
use windydec::hir::{lift_win64_calls, lower_from_ssa, AliasClass, CallTarget, Gpr, HirFunction, HirOperationKind, HirValidationError, MemoryAccess, MemoryObjectKind, MemoryVersion, OriginSpan, Provenance, ProvenanceKind, Register, RegisterSlice, RegisterSliceError, RegisterWriteSemantics, SsaOperationKey, ValueId, Win64Argument, Win64ArgumentClass, Win64ArgumentLocation, Win64CallSite, Win64Result, WIN64_SHADOW_SPACE_BYTES, X86_MAX_VECTOR_REGISTER_COUNT};
use windydec::ssa::{Location, SsaBlock, SsaFunction, SsaOp, SsaOpKind, SsaVar};


fn provenance_at(va: u64) -> Provenance {
    Provenance::lifted(OriginSpan::single(va, 0))
}

fn ssa_var(offset: u64, version: u32) -> SsaVar {
    SsaVar {
        location: Location::Register {
            base_offset: offset,
        },
        version,
    }
}

fn define_register(va: u64, offset: u64, version: u32) -> SsaOp {
    SsaOp {
        va,
        kind: SsaOpKind::Pcode(PcodeOp::Copy {
            out: Varnode::register(offset, 8),
            input: Varnode::constant(u64::from(version), 8),
        }),
        def: Some(ssa_var(offset, version)),
        uses: Vec::new(),
    }
}

fn direct_call(va: u64, target: u64, uses: Vec<SsaVar>) -> SsaOp {
    SsaOp {
        va,
        kind: SsaOpKind::Pcode(PcodeOp::Call {
            dest: Varnode::constant(target, 8),
        }),
        def: None,
        uses,
    }
}

fn single_block_ssa(ops: Vec<SsaOp>) -> SsaFunction {
    SsaFunction {
        entry_va: 0x401000,
        bitness: 64,
        blocks: vec![SsaBlock {
            id: 0,
            entry_va: 0x401000,
            ops,
            predecessor_ids: Vec::new(),
            successor_ids: Vec::new(),
        }],
        image_base: 0x140000000,
    }
}

#[test]
fn lowering_records_distinct_rax_values_for_each_exit() {
    let make_exit = |id: u32, va: u64, version: u32| {
        let rax = ssa_var(0, version);
        SsaBlock {
            id,
            entry_va: va,
            ops: vec![
                define_register(va, 0, version),
                SsaOp {
                    va: va + 1,
                    kind: SsaOpKind::Pcode(PcodeOp::Return {
                        dest: Varnode::constant(0, 8),
                    }),
                    def: None,
                    uses: vec![rax],
                },
            ],
            predecessor_ids: Vec::new(),
            successor_ids: Vec::new(),
        }
    };
    let ssa = SsaFunction {
        entry_va: 0x401000,
        bitness: 64,
        blocks: vec![make_exit(0, 0x401000, 1), make_exit(1, 0x402000, 2)],
        image_base: 0x140000000,
    };
    let lowered = lower_from_ssa(&ssa);
    assert_eq!(lowered.hir.exit_values.len(), 2);
    assert_ne!(lowered.hir.exit_values[&0], lowered.hir.exit_values[&1]);
    assert_eq!(lowered.exit_ssa_var(0), Some(&ssa_var(0, 1)));
    assert_eq!(lowered.exit_ssa_var(1), Some(&ssa_var(0, 2)));
    assert!(lowered.hir.validate().is_ok());
}

#[test]
fn lowering_records_rax_defined_in_an_exit_predecessor() {
    let rax = ssa_var(0, 1);
    let ssa = SsaFunction {
        entry_va: 0x401000,
        bitness: 64,
        blocks: vec![
            SsaBlock {
                id: 0,
                entry_va: 0x401000,
                ops: vec![define_register(0x401000, 0, 1)],
                predecessor_ids: Vec::new(),
                successor_ids: vec![1],
            },
            SsaBlock {
                id: 1,
                entry_va: 0x401010,
                ops: vec![SsaOp {
                    va: 0x401010,
                    kind: SsaOpKind::Pcode(PcodeOp::Return {
                        dest: Varnode::constant(0, 8),
                    }),
                    def: None,
                    uses: Vec::new(),
                }],
                predecessor_ids: vec![0],
                successor_ids: Vec::new(),
            },
        ],
        image_base: 0x140000000,
    };

    let lowered = lower_from_ssa(&ssa);
    assert_eq!(lowered.exit_ssa_var(1), Some(&rax));
    assert!(lowered.hir.validate().is_ok());
}

#[test]
fn register_slices_model_aliases_and_zero_extension() {
    let rax = RegisterSlice::gpr(Gpr::Rax);
    let eax = RegisterSlice::new(Register::Gpr(Gpr::Rax), 0, 32).unwrap();
    let ah = RegisterSlice::new(Register::Gpr(Gpr::Rax), 8, 8).unwrap();
    let al = RegisterSlice::new(Register::Gpr(Gpr::Rax), 0, 8).unwrap();

    assert!(rax.overlaps(eax));
    assert!(eax.overlaps(ah));
    assert!(!al.overlaps(ah));
    assert_eq!(
        eax.write_semantics(),
        RegisterWriteSemantics::ZeroExtendToContainer
    );
    assert_eq!(
        ah.write_semantics(),
        RegisterWriteSemantics::PreserveOutsideSlice
    );
    assert!(matches!(
        RegisterSlice::new(Register::Gpr(Gpr::Rax), 63, 2),
        Err(RegisterSliceError::OutOfBounds { .. })
    ));
    assert!(matches!(
        RegisterSlice::xmm(X86_MAX_VECTOR_REGISTER_COUNT),
        Err(RegisterSliceError::InvalidVectorRegister { .. })
    ));
}

#[test]
fn memory_objects_keep_partitions_and_memory_versions_explicit() {
    let mut hir = HirFunction::default();
    let stack = hir.add_memory_object(
        MemoryObjectKind::StackSlot {
            frame_offset: -0x20,
        },
        Some(16),
        Some(8),
        provenance_at(0x401000),
    );
    let string = hir.add_memory_object(
        MemoryObjectKind::ReadOnlyData {
            va: 0x0001_4001_a000,
        },
        Some(6),
        Some(1),
        provenance_at(0x401004),
    );
    let access = MemoryAccess {
        object: stack,
        byte_offset: 4,
        width_bytes: 4,
        version: MemoryVersion::entry(),
    };

    assert_eq!(
        hir.memory_object(stack).unwrap().alias_class(),
        AliasClass::Stack
    );
    assert_eq!(
        hir.memory_object(string).unwrap().alias_class(),
        AliasClass::ReadOnlyData
    );
    assert_eq!(access.version, MemoryVersion::entry());
    assert_eq!(access.object, stack);
    assert!(hir.validate().is_ok());
}

#[test]
fn win64_call_models_slots_result_and_volatile_state() {
    let mut hir = HirFunction::default();
    let a = hir.add_value(Some(64), provenance_at(0x401000));
    let b = hir.add_value(Some(64), provenance_at(0x401000));
    let c = hir.add_value(Some(64), provenance_at(0x401000));
    let d = hir.add_value(Some(64), provenance_at(0x401000));
    let e = hir.add_value(Some(64), provenance_at(0x401000));
    let result = hir.add_value(Some(64), provenance_at(0x401005));
    let arguments = vec![
        Win64Argument::standard(0, a, Win64ArgumentClass::Integer).unwrap(),
        Win64Argument::standard(1, b, Win64ArgumentClass::FloatingPoint).unwrap(),
        Win64Argument::standard(2, c, Win64ArgumentClass::Integer).unwrap(),
        Win64Argument::standard(3, d, Win64ArgumentClass::Integer).unwrap(),
        Win64Argument::standard(4, e, Win64ArgumentClass::Integer).unwrap(),
    ];
    let mut call = Win64CallSite::new(
        provenance_at(0x401005),
        CallTarget::Direct { va: 0x401100 },
        arguments,
    );
    call.result = Some(Win64Result::integer(result));

    assert_eq!(
        call.arguments[0].locations,
        vec![Win64ArgumentLocation::Register(RegisterSlice::gpr(
            Gpr::Rcx
        ))]
    );
    assert_eq!(
        call.arguments[1].locations,
        vec![Win64ArgumentLocation::Register(
            RegisterSlice::xmm(1).unwrap()
        )]
    );
    assert_eq!(
        call.arguments[4].locations,
        vec![Win64ArgumentLocation::Stack {
            offset_from_pre_call_rsp: 32
        }]
    );
    assert_eq!(call.required_outgoing_stack_bytes(), 40);
    assert!(
        call.clobbers
            .clobbers_register(RegisterSlice::gpr(Gpr::Rax))
    );
    assert!(
        !call
            .clobbers
            .clobbers_register(RegisterSlice::gpr(Gpr::Rbx))
    );
    assert!(
        call.clobbers
            .clobbers_register(RegisterSlice::xmm(0).unwrap())
    );

    hir.add_call_site(call);
    assert!(hir.validate().is_ok());
}

#[test]
fn validation_rejects_dangling_values_and_bad_stack_slots() {
    let mut hir = HirFunction::default();
    let known = hir.add_value(Some(64), provenance_at(0x401000));
    let argument = Win64Argument::new(
        0,
        ValueId::new(42),
        Win64ArgumentClass::Integer,
        vec![Win64ArgumentLocation::Stack {
            offset_from_pre_call_rsp: 8,
        }],
    );
    hir.add_call_site(Win64CallSite::new(
        provenance_at(0x401010),
        CallTarget::Indirect {
            target: known,
            candidates: Vec::new(),
        },
        vec![argument],
    ));

    assert!(matches!(
        hir.validate(),
        Err(HirValidationError::UnknownValue { value: ValueId(42) })
    ));
}

#[test]
fn ssa_bridge_assigns_one_value_per_ssa_var_and_preserves_pcode_va() {
    let rcx_entry = ssa_var(0x08, 1);
    let rax_result = ssa_var(0x00, 2);
    let copy = SsaOp {
        va: 0x401000,
        kind: SsaOpKind::Pcode(PcodeOp::Copy {
            out: Varnode::register(0x00, 8),
            input: Varnode::register(0x08, 8),
        }),
        def: Some(rax_result.clone()),
        uses: vec![rcx_entry.clone()],
    };
    let ssa = SsaFunction {
        entry_va: 0x401000,
        bitness: 64,
        blocks: vec![SsaBlock {
            id: 0,
            entry_va: 0x401000,
            ops: vec![copy],
            predecessor_ids: Vec::new(),
            successor_ids: Vec::new(),
        }],
        image_base: 0x140000000,
    };

    let lowered = lower_from_ssa(&ssa);
    let input = *lowered.values.get(&rcx_entry).unwrap();
    let output = *lowered.values.get(&rax_result).unwrap();
    assert_ne!(input, output);
    let operation = lowered
        .hir
        .operation(
            *lowered.operations.get(&SsaOperationKey { block_id: 0, operation_index: 0 }).unwrap(),
        )
        .unwrap();
    assert_eq!(operation.inputs, vec![input]);
    assert_eq!(operation.output, Some(output));
    assert_eq!(operation.kind, HirOperationKind::Pcode);
    assert_eq!(
        operation.provenance.primary,
        Some(OriginSpan::single(0x401000, 0))
    );
    assert_eq!(
        lowered.hir.value(output).unwrap().provenance.primary,
        Some(OriginSpan::single(0x401000, 0))
    );
    assert!(lowered.hir.validate().is_ok());
}

#[test]
fn win64_call_lifter_recovers_direct_target_and_same_block_gpr_args() {
    let rcx = ssa_var(0x08, 2);
    let rdx = ssa_var(0x10, 2);
    let r8 = ssa_var(0x80, 2);
    let ssa = single_block_ssa(vec![
        define_register(0x401000, 0x08, 2),
        define_register(0x401004, 0x10, 2),
        define_register(0x401008, 0x80, 2),
        direct_call(
            0x40100c,
            0x401100,
            vec![rcx.clone(), rdx.clone(), r8.clone()],
        ),
    ]);
    let mut lowered = lower_from_ssa(&ssa);
    let values_before = lowered.hir.values().len();
    let lifted = lift_win64_calls(&ssa, &mut lowered);

    assert_eq!(lifted.len(), 1);
    assert_eq!(lowered.hir.values().len(), values_before);
    let call = lowered.hir.call_site(lifted[0]).unwrap();
    assert_eq!(call.target, CallTarget::Direct { va: 0x401100 });
    assert_eq!(
        call.arguments
            .iter()
            .map(|argument| (argument.position, argument.value))
            .collect::<Vec<_>>(),
        vec![
            (0, *lowered.values.get(&rcx).unwrap()),
            (1, *lowered.values.get(&rdx).unwrap()),
            (2, *lowered.values.get(&r8).unwrap()),
        ]
    );
    assert_eq!(
        call.arguments[0].locations,
        vec![Win64ArgumentLocation::Register(RegisterSlice::gpr(
            Gpr::Rcx
        ))]
    );
    assert_eq!(
        call.arguments[1].locations,
        vec![Win64ArgumentLocation::Register(RegisterSlice::gpr(
            Gpr::Rdx
        ))]
    );
    assert_eq!(
        call.arguments[2].locations,
        vec![Win64ArgumentLocation::Register(RegisterSlice::gpr(Gpr::R8))]
    );
    assert!(
        call.result.is_none(),
        "the pass must not invent a return value"
    );
    assert!(
        call.arguments.iter().all(|argument| argument
            .locations
            .iter()
            .all(|location| !location.is_stack())),
        "the pass must not invent stack arguments"
    );
    assert_eq!(
        call.required_outgoing_stack_bytes(),
        WIN64_SHADOW_SPACE_BYTES
    );
    assert_eq!(
        call.provenance.primary,
        Some(OriginSpan::single(0x40100c, 3))
    );
    assert_eq!(call.provenance.kind, ProvenanceKind::Abi);
    assert!(
        call.clobbers
            .clobbers_register(RegisterSlice::gpr(Gpr::Rax))
    );
    assert!(
        !call
            .clobbers
            .clobbers_register(RegisterSlice::gpr(Gpr::Rbx))
    );
    assert!(lowered.hir.validate().is_ok());

    assert!(
        lift_win64_calls(&ssa, &mut lowered).is_empty(),
        "lifting must be idempotent"
    );
}

#[test]
fn win64_call_lifter_recovers_indirect_target_without_fabricated_values() {
    let target_register = ssa_var(0x00, 2);
    let call_indirect = SsaOp {
        va: 0x401008,
        kind: SsaOpKind::Pcode(PcodeOp::CallInd {
            dest: Varnode::register(0x00, 8),
        }),
        def: None,
        uses: vec![target_register.clone()],
    };
    let ssa = single_block_ssa(vec![
        define_register(0x401000, 0x00, 2),
        define_register(0x401004, 0x08, 2),
        call_indirect,
    ]);
    let mut lowered = lower_from_ssa(&ssa);
    let values_before = lowered.hir.values().len();
    let lifted = lowered.lift_win64_calls(&ssa);

    assert_eq!(lifted.len(), 1);
    assert_eq!(lowered.hir.values().len(), values_before);
    let call = lowered.hir.call_site(lifted[0]).unwrap();
    assert_eq!(
        call.target,
        CallTarget::Indirect {
            target: *lowered.values.get(&target_register).unwrap(),
            candidates: Vec::new(),
        }
    );
    assert!(
        call.arguments.is_empty(),
        "indirect calls must not receive an inferred argument contract"
    );
    assert!(call.result.is_none());
    assert!(call.arguments.iter().all(|argument| {
        argument
            .locations
            .iter()
            .all(|location| !location.is_stack())
    }));
    assert!(lowered.hir.validate().is_ok());
}

#[test]
fn win64_call_lifter_does_not_reuse_register_args_across_a_call() {
    let rcx = ssa_var(0x08, 2);
    let ssa = single_block_ssa(vec![
        define_register(0x401000, 0x08, 2),
        direct_call(0x401004, 0x401100, vec![rcx.clone()]),
        direct_call(0x401008, 0x401200, vec![rcx]),
    ]);
    let mut lowered = lower_from_ssa(&ssa);
    let lifted = lift_win64_calls(&ssa, &mut lowered);

    assert_eq!(lifted.len(), 2);
    assert_eq!(lowered.hir.call_site(lifted[0]).unwrap().arguments.len(), 1);
    assert!(
        lowered
            .hir
            .call_site(lifted[1])
            .unwrap()
            .arguments
            .is_empty(),
        "volatile argument registers must not be carried across a call"
    );
    assert!(lowered.hir.validate().is_ok());
}
