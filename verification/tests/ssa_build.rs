//! From lifted operations to SSA form and on.

use std::collections::{BTreeMap, HashMap};

use pcode_ir::{AddressSpaceId, PcodeOp, Varnode};
use windydec::hir::{lift_win64_calls, lower_from_ssa};
use windydec::program::{BasicBlock, CodeIndex, DecodedInstr, Edge, Function};
use windydec::ssa::lower::{reg_name, register_container_base, resolve_op};
use windydec::ssa::{all_locations, build_ssa_with_call_abi_inputs, reaching_register_at_return, simplify, verify_no_uninitialized_register_uses, CallAbiInputs, Location, SsaFunction, SsaOpKind, SsaVar};
use windydec::structure::{decompile, decompile_structured_pure, NameCtx};

fn copy(to: u64, from: Varnode) -> PcodeOp {
    PcodeOp::Copy { out: Varnode::register(to, 8), input: from }
}

/// 0 branches to 1 and 2, which set RAX and meet at 3, which returns.
fn diamond() -> SsaFunction {
    let edge = |target| Edge { target };
    let block = |entry_va, succ: Vec<u64>, pred: Vec<u64>| BasicBlock {
        entry_va,
        exit_va: entry_va,
        successors: succ.into_iter().map(edge).collect(),
        predecessors: pred.into_iter().map(edge).collect(),
    };
    let func = Function {
        entry_va: 0x10,
        blocks: vec![
            block(0x10, vec![0x20, 0x30], vec![]),
            block(0x20, vec![0x40], vec![0x10]),
            block(0x30, vec![0x40], vec![0x10]),
            block(0x40, vec![], vec![0x20, 0x30]),
        ],
    };
    let index = CodeIndex {
        instrs: [0x10u64, 0x20, 0x30, 0x40]
            .iter()
            .map(|va| DecodedInstr { va: *va, next_ip: va + 1, bytes: vec![0x90] })
            .collect(),
    };
    let mut pcode: HashMap<u64, Vec<PcodeOp>> = HashMap::new();
    pcode.insert(
        0x10,
        vec![PcodeOp::CBranch { dest: Varnode::constant(0x30, 8), cond: Varnode::register(0x08, 1) }],
    );
    pcode.insert(0x20, vec![copy(0x00, Varnode::constant(1, 8))]);
    pcode.insert(0x30, vec![copy(0x00, Varnode::register(0x10, 8))]);
    pcode.insert(0x40, vec![PcodeOp::Return { dest: Varnode::register(0x00, 8) }]);
    build_ssa_with_call_abi_inputs(
        &func,
        &pcode,
        &index,
        &BTreeMap::new(),
        64,
        0x1_4000_0000,
        &CallAbiInputs::default(),
    )
}

fn reg(base_offset: u64, version: u32) -> SsaVar {
    SsaVar { location: Location::Register { base_offset }, version }
}

#[test]
fn join_of_two_definitions_gets_a_phi() {
    let ssa = diamond();
    let join = &ssa.blocks[3];
    match &join.ops[0].kind {
        SsaOpKind::Phi(phi) => {
            assert_eq!(phi.out, reg(0x00, 4));
            assert_eq!(phi.args, vec![Some(reg(0x00, 2)), Some(reg(0x00, 3))]);
        }
        other => panic!("expected a phi, got {other:?}"),
    }
    assert_eq!(join.ops[1].uses, vec![reg(0x00, 4)]);
    assert_eq!(ssa.blocks[2].ops[0].uses, vec![reg(0x10, 1)]);
    assert_eq!(ssa.blocks[0].successor_ids, vec![1, 2]);
    assert_eq!(join.predecessor_ids, vec![1, 2]);
}

#[test]
fn every_definition_has_a_version_of_its_own() {
    let ssa = diamond();
    let mut defs: Vec<SsaVar> = Vec::new();
    for b in &ssa.blocks {
        for o in &b.ops {
            if let Some(d) = &o.def {
                assert!(!defs.contains(d), "{d:?} is defined twice");
                defs.push(*d);
            }
        }
    }
    assert_eq!(defs.len(), 3);
    assert!(verify_no_uninitialized_register_uses(&ssa));
}

#[test]
fn simplification_keeps_the_guarantees() {
    let ssa = diamond();
    let (opt, analysis) = simplify(&ssa);
    assert!(verify_no_uninitialized_register_uses(&opt));
    assert!(analysis.op_count_after <= analysis.op_count_before);
    assert_eq!(analysis.constants.len(), 1);
    assert_eq!(analysis.constants[0].value, 1);
}

#[test]
fn return_sees_the_merged_register() {
    let ssa = diamond();
    assert_eq!(reaching_register_at_return(&ssa, 3, 0x00), Some(reg(0x00, 4)));
    let places = all_locations(&ssa);
    assert!(places.contains(&Location::Register { base_offset: 0x00 }));
    assert!(places.contains(&Location::Register { base_offset: 0x10 }));
}

#[test]
fn lowering_and_lifting_fit_the_built_form() {
    let ssa = diamond();
    let mut lowered = lower_from_ssa(&ssa);
    assert!(lowered.hir.validate().is_ok());
    assert_eq!(lowered.exit_ssa_var(3), Some(&reg(0x00, 4)));
    assert!(lift_win64_calls(&ssa, &mut lowered).is_empty());
}

#[test]
fn printing_twice_gives_one_text() {
    let ssa = diamond();
    let names = NameCtx::empty();
    let text = decompile(&ssa, None, None, 64, &[], &names);
    assert_eq!(text, decompile(&ssa, None, None, 64, &[], &names));
    assert!(text.contains("return"), "{text}");
    let pure = decompile_structured_pure(&ssa, None, None, 64, &[], &names);
    assert_eq!(pure, decompile_structured_pure(&ssa, None, None, 64, &[], &names));
}

#[test]
fn registers_have_containers_and_names() {
    assert_eq!(register_container_base(0x08), 0x08);
    assert_eq!(reg_name(0x00), "rax");
    assert_eq!(reg_name(0x80), "r8");
}

#[test]
fn operations_without_a_form_show_their_parts() {
    let op = PcodeOp::IntCarry {
        out: Varnode::register(0x200, 1),
        left: Varnode::register(0x00, 4),
        right: Varnode::register(0x08, 4),
    };
    let (def, uses) = resolve_op(&op, 0x10, &[], &[]);
    assert_eq!(def, Some(Location::Register { base_offset: 0x200 }));
    assert_eq!(
        uses,
        vec![Location::Register { base_offset: 0x00 }, Location::Register { base_offset: 0x08 }]
    );
}

#[test]
fn stores_through_a_slot_are_resolved() {
    let t = Varnode::unique(0x40, 8);
    let add = PcodeOp::IntAdd { out: t, left: Varnode::register(0x20, 8), right: Varnode::constant(0x18, 8) };
    let store = PcodeOp::Store { space: AddressSpaceId::Ram, ptr: t, val: Varnode::register(0x08, 8) };
    let (def, _) = resolve_op(&store, 0x10, &[add], &[]);
    assert_eq!(def, Some(Location::StackSlot { base_reg: 0x20, disp: 0x18 }));
}
