//! Which definition reaches a use.

use std::collections::{BTreeMap, HashMap};

use pcode_ir::{PcodeOp, Varnode};
use windydec::program::{BasicBlock, CodeIndex, DecodedInstr, Edge, Function};
use windydec::ssa::{build_ssa_with_call_abi_inputs, reaching_register_at_return, simplify, verify_no_uninitialized_register_uses, CallAbiInputs, Location, PhiNode, SsaBlock, SsaFunction, SsaOp, SsaOpKind, SsaVar};
use windydec::structure::contracts::ContractSet;
use windydec::structure::rd_model::SemanticGraph;
use windydec::structure::region::Region;

/// One instruction per block; edges by address.
fn build(entry_va: u64, blocks: Vec<(u64, Vec<u64>, Vec<PcodeOp>)>) -> SsaFunction {
    let func = Function {
        entry_va,
        blocks: blocks
            .iter()
            .map(|(va, succ, _)| BasicBlock {
                entry_va: *va,
                exit_va: *va,
                successors: succ.iter().map(|t| Edge { target: *t }).collect(),
                predecessors: blocks
                    .iter()
                    .filter(|(_, s, _)| s.contains(va))
                    .map(|(t, _, _)| Edge { target: *t })
                    .collect(),
            })
            .collect(),
    };
    let index = CodeIndex {
        instrs: blocks
            .iter()
            .map(|(va, _, _)| DecodedInstr { va: *va, next_ip: va + 1, bytes: vec![0x90] })
            .collect(),
    };
    let mut pcode: HashMap<u64, Vec<PcodeOp>> = HashMap::new();
    for (va, _, ops) in blocks {
        pcode.insert(va, ops);
    }
    build_ssa_with_call_abi_inputs(&func, &pcode, &index, &BTreeMap::new(), 64, 0, &CallAbiInputs::default())
}

fn reg(base_offset: u64, version: u32) -> SsaVar {
    SsaVar { location: Location::Register { base_offset }, version }
}

fn set(to: u64, from: Varnode) -> PcodeOp {
    PcodeOp::Copy { out: Varnode::register(to, 8), input: from }
}

fn step(of: u64) -> PcodeOp {
    PcodeOp::IntAdd {
        out: Varnode::register(of, 8),
        left: Varnode::register(of, 8),
        right: Varnode::constant(1, 8),
    }
}

fn branch_on(of: u64) -> PcodeOp {
    PcodeOp::CBranch { dest: Varnode::constant(0, 8), cond: Varnode::register(of, 1) }
}

fn ret(of: u64) -> PcodeOp {
    PcodeOp::Return { dest: Varnode::register(of, 8) }
}

fn pcode_ops(b: &SsaBlock) -> Vec<&SsaOp> {
    b.ops.iter().filter(|o| matches!(o.kind, SsaOpKind::Pcode(_))).collect()
}

fn phi_of(b: &SsaBlock, base_offset: u64) -> Option<&PhiNode> {
    b.ops.iter().find_map(|o| match &o.kind {
        SsaOpKind::Phi(p) if p.out.location == (Location::Register { base_offset }) => Some(p),
        _ => None,
    })
}

#[test]
fn entry_block_need_not_come_first() {
    let ssa = build(
        0x20,
        vec![
            (0x10, vec![], vec![ret(0x00)]),
            (0x20, vec![0x10], vec![set(0x00, Varnode::constant(7, 8))]),
        ],
    );
    let entry = pcode_ops(&ssa.blocks[1]);
    assert_eq!(entry.len(), 1);
    assert_eq!(entry[0].va, 0x20);
    assert_eq!(entry[0].def, Some(reg(0x00, 2)));
    let last = pcode_ops(&ssa.blocks[0]);
    assert_eq!(last.len(), 1);
    assert_eq!(last[0].uses, vec![reg(0x00, 2)]);
    assert!(verify_no_uninitialized_register_uses(&ssa));
}

#[test]
fn entry_block_in_the_middle_keeps_every_block() {
    let ssa = build(
        0x20,
        vec![
            (0x10, vec![0x30], vec![step(0x08)]),
            (0x20, vec![0x10, 0x30], vec![branch_on(0x08)]),
            (0x30, vec![], vec![ret(0x08)]),
        ],
    );
    for b in &ssa.blocks {
        assert_eq!(pcode_ops(b).len(), 1);
    }
    assert_eq!(pcode_ops(&ssa.blocks[1])[0].uses, vec![reg(0x08, 1)]);
    let phi = phi_of(&ssa.blocks[2], 0x08).expect("a phi where the ways meet");
    let stepped = pcode_ops(&ssa.blocks[0])[0].def.expect("a definition");
    let slots = &ssa.blocks[2].predecessor_ids;
    for (slot, p) in slots.iter().enumerate() {
        let want = if *p == 0 { stepped } else { reg(0x08, 1) };
        assert_eq!(phi.args[slot], Some(want));
    }
    assert_eq!(pcode_ops(&ssa.blocks[2])[0].uses, vec![phi.out]);
}

#[test]
fn one_definition_in_a_loop_is_carried_round() {
    let ssa = build(
        0x10,
        vec![
            (0x10, vec![0x20], vec![set(0x10, Varnode::constant(3, 8))]),
            (0x20, vec![0x30, 0x40], vec![branch_on(0x08)]),
            (0x30, vec![0x20], vec![step(0x08)]),
            (0x40, vec![], vec![ret(0x08)]),
        ],
    );
    let phi = phi_of(&ssa.blocks[1], 0x08).expect("a phi at the loop header");
    assert_eq!(phi.out, reg(0x08, 2));
    assert_eq!(phi.args, vec![Some(reg(0x08, 1)), Some(reg(0x08, 3))]);
    assert_eq!(pcode_ops(&ssa.blocks[1])[0].uses, vec![reg(0x08, 2)]);
    assert_eq!(pcode_ops(&ssa.blocks[2])[0].uses, vec![reg(0x08, 2)]);
    assert_eq!(pcode_ops(&ssa.blocks[3])[0].uses, vec![reg(0x08, 2)]);
    assert!(phi_of(&ssa.blocks[1], 0x10).is_none());
}

#[test]
fn coming_back_to_the_entry_starts_over() {
    let ssa = build(
        0x10,
        vec![
            (0x10, vec![0x10, 0x20], vec![step(0x08), branch_on(0x08)]),
            (0x20, vec![], vec![ret(0x08)]),
        ],
    );
    let entry = pcode_ops(&ssa.blocks[0]);
    assert_eq!(entry[0].uses, vec![reg(0x08, 1)]);
    assert_eq!(entry[1].uses, vec![reg(0x08, 2)]);
    assert_eq!(pcode_ops(&ssa.blocks[1])[0].uses, vec![reg(0x08, 2)]);
}

fn with_phi(args: Vec<Option<SsaVar>>, constant: bool) -> SsaFunction {
    let input = if constant { Varnode::constant(5, 8) } else { Varnode::register(0x18, 8) };
    let def = SsaOp {
        va: 0x1000,
        kind: if constant {
            SsaOpKind::Pcode(set(0x00, input))
        } else {
            SsaOpKind::Pcode(step(0x00))
        },
        def: Some(reg(0x00, 2)),
        uses: if constant { vec![] } else { vec![reg(0x00, 1)] },
    };
    let out = reg(0x00, 3);
    let phi = SsaOp {
        va: 0,
        kind: SsaOpKind::Phi(PhiNode { out, args }),
        def: Some(out),
        uses: vec![],
    };
    let store = SsaOp {
        va: 0x1008,
        kind: SsaOpKind::Pcode(PcodeOp::Call { dest: Varnode::register(0x00, 8) }),
        def: None,
        uses: vec![out],
    };
    SsaFunction {
        entry_va: 0x1000,
        bitness: 64,
        blocks: vec![SsaBlock {
            id: 0,
            entry_va: 0x1000,
            ops: vec![def, phi, store],
            predecessor_ids: vec![],
            successor_ids: vec![],
        }],
        image_base: 0,
    }
}

#[test]
fn phi_whose_defined_arguments_agree_collapses() {
    let v = reg(0x00, 2);
    let (opt, analysis) = simplify(&with_phi(vec![None, Some(v), Some(v)], false));
    assert_eq!(analysis.phis_collapsed, 1);
    let last = opt.blocks[0].ops.last().expect("the call stays");
    assert_eq!(last.uses, vec![v]);
}

#[test]
fn phi_without_a_defined_argument_stays() {
    let (opt, analysis) = simplify(&with_phi(vec![None, None], false));
    assert_eq!(analysis.phis_collapsed, 0);
    let last = opt.blocks[0].ops.last().expect("the call stays");
    assert_eq!(last.uses, vec![reg(0x00, 3)]);
}

#[test]
fn constant_phi_keeps_its_operation() {
    let v = reg(0x00, 2);
    for args in [vec![Some(v), Some(v)], vec![None, Some(v)]] {
        let (opt, analysis) = simplify(&with_phi(args, true));
        assert_eq!(analysis.phis_collapsed, 0);
        assert!(opt.blocks[0].ops.iter().any(|o| matches!(o.kind, SsaOpKind::Phi(_))));
    }
}

#[test]
fn regions_beyond_the_blocks_are_recovered_and_reported() {
    let ssa = build(0x10, vec![(0x10, vec![], vec![ret(0x00)])]);
    let mut regions: HashMap<u32, Region> = HashMap::new();
    regions.insert(u32::MAX, Region::While { body_entry: 0, exit: 0 });
    regions.insert(9, Region::While { body_entry: 0, exit: 0 });
    let contracts = ContractSet::from_regions(&ssa, &regions);
    let headers: Vec<u32> = contracts.loops.iter().map(|l| l.header).collect();
    assert_eq!(headers, vec![9, u32::MAX]);
    let issues = contracts.validate_against_semantic(&SemanticGraph::from_ssa(&ssa), &ssa);
    assert_eq!(issues.iter().filter(|t| **t == "loop_header_oob").count(), 2);
}

#[test]
fn edges_are_listed_at_both_ends() {
    let block = |entry_va, succ: Vec<u64>, pred: Vec<u64>| BasicBlock {
        entry_va,
        exit_va: entry_va,
        successors: succ.into_iter().map(|target| Edge { target }).collect(),
        predecessors: pred.into_iter().map(|target| Edge { target }).collect(),
    };
    let func = |blocks| Function { entry_va: 0x10, blocks };
    assert!(!func(vec![]).is_well_formed());
    assert!(func(vec![block(0x10, vec![0x20], vec![]), block(0x20, vec![], vec![0x10])]).is_well_formed());
    assert!(!func(vec![block(0x10, vec![0x20], vec![]), block(0x20, vec![], vec![])]).is_well_formed());
    assert!(!func(vec![block(0x10, vec![], vec![]), block(0x20, vec![], vec![0x10])]).is_well_formed());
    assert!(func(vec![block(0x10, vec![0x90], vec![])]).is_well_formed());
}

/// Blocks without operations, but for those that set RAX, and a return at `last`.
fn lattice(blocks: Vec<(Option<u32>, Vec<u32>)>, last: usize) -> SsaFunction {
    let n = blocks.len();
    let preds: Vec<Vec<u32>> = (0..n)
        .map(|b| (0..n).filter(|a| blocks[*a].1.contains(&(b as u32))).map(|a| a as u32).collect())
        .collect();
    let made = blocks
        .into_iter()
        .enumerate()
        .map(|(i, (version, succ))| {
            let mut ops: Vec<SsaOp> = Vec::new();
            if let Some(v) = version {
                ops.push(SsaOp {
                    va: 0,
                    kind: SsaOpKind::Pcode(set(0x00, Varnode::constant(1, 8))),
                    def: Some(reg(0x00, v)),
                    uses: vec![],
                });
            }
            if i == last {
                ops.push(SsaOp {
                    va: 0,
                    kind: SsaOpKind::Pcode(PcodeOp::Return { dest: Varnode::constant(0, 8) }),
                    def: None,
                    uses: vec![],
                });
            }
            SsaBlock {
                id: i as u32,
                entry_va: i as u64,
                ops,
                predecessor_ids: preds[i].clone(),
                successor_ids: succ,
            }
        })
        .collect();
    SsaFunction { entry_va: 0, bitness: 64, blocks: made, image_base: 0 }
}

#[test]
fn return_sees_what_every_path_comes_to() {
    let split = |a, b, top| lattice(vec![(top, vec![1, 2]), (a, vec![3]), (b, vec![3]), (None, vec![])], 3);
    assert_eq!(reaching_register_at_return(&split(None, None, Some(5)), 3, 0x00), Some(reg(0x00, 5)));
    assert_eq!(reaching_register_at_return(&split(Some(4), Some(4), None), 3, 0x00), Some(reg(0x00, 4)));
    assert_eq!(reaching_register_at_return(&split(Some(4), None, Some(5)), 3, 0x00), None);
    assert_eq!(reaching_register_at_return(&split(None, None, None), 3, 0x00), None);
    assert_eq!(reaching_register_at_return(&split(None, None, Some(5)), 1, 0x00), None);
    let round = lattice(vec![(Some(2), vec![1]), (None, vec![2]), (None, vec![1, 3]), (None, vec![])], 3);
    assert_eq!(reaching_register_at_return(&round, 3, 0x00), None);
}
