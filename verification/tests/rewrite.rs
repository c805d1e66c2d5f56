//! Rewrites of the region tree.

use pcode_ir::{AddressSpaceId, PcodeOp, Varnode};
use windydec::ssa::{SsaBlock, SsaFunction, SsaOp, SsaOpKind};
use windydec::structure::rd_model::{CheckResult, DualDecompModel, EffectKind, ResidualReason};
use windydec::structure::region::Region;
use windydec::structure::rewrite::{apply_moves, check_move, residual_reason_for_emit_tag, RewriteMove, RewriteOutcome};


fn blk(id: u32, va: u64, ops: Vec<SsaOp>, succs: Vec<u32>) -> SsaBlock {
    SsaBlock {
        id,
        entry_va: va,
        ops,
        successor_ids: succs,
        predecessor_ids: vec![],
    }
}

fn link(blocks: &mut [SsaBlock]) {
    for b in blocks.iter_mut() {
        b.predecessor_ids.clear();
    }
    let edges: Vec<(u32, u32)> = blocks
        .iter()
        .flat_map(|b| b.successor_ids.iter().map(|&s| (b.id, s)))
        .collect();
    for (f, t) in edges {
        if let Some(bb) = blocks.iter_mut().find(|b| b.id == t) {
            bb.predecessor_ids.push(f);
        }
    }
}

/// Both arms non-empty (store vs store) so presentation classify keeps IfElse.
fn if_else_with_store_ssa() -> SsaFunction {
    let mut blocks = vec![
        blk(
            0,
            0x1000,
            vec![SsaOp {
                va: 0x1000,
                kind: SsaOpKind::Pcode(PcodeOp::CBranch {
                    cond: Varnode::constant(1, 1),
                    dest: Varnode::constant(0, 8),
                }),
                def: None,
                uses: vec![],
            }],
            vec![1, 2],
        ),
        blk(
            1,
            0x1010,
            vec![SsaOp {
                va: 0x1010,
                kind: SsaOpKind::Pcode(PcodeOp::Store {
                    space: AddressSpaceId::Ram,
                    ptr: Varnode::register(0x28, 8),
                    val: Varnode::register(0, 4),
                }),
                def: None,
                uses: vec![],
            }],
            vec![3],
        ),
        blk(
            2,
            0x1020,
            vec![SsaOp {
                va: 0x1020,
                kind: SsaOpKind::Pcode(PcodeOp::Store {
                    space: AddressSpaceId::Ram,
                    ptr: Varnode::register(0x30, 8),
                    val: Varnode::register(1, 4),
                }),
                def: None,
                uses: vec![],
            }],
            vec![3],
        ),
        blk(
            3,
            0x1030,
            vec![SsaOp {
                va: 0x1030,
                kind: SsaOpKind::Pcode(PcodeOp::Return {
                    dest: Varnode::constant(0, 8),
                }),
                def: None,
                uses: vec![],
            }],
            vec![],
        ),
    ];
    link(&mut blocks);
    SsaFunction {
        entry_va: 0x1000,
        bitness: 64,
        blocks,
        image_base: 0,
    }
}

/// IfElse with pure return then-arm and store else-arm (early-return candidate).
fn if_else_early_return_ssa() -> SsaFunction {
    let mut blocks = vec![
        blk(
            0,
            0x1000,
            vec![SsaOp {
                va: 0x1000,
                kind: SsaOpKind::Pcode(PcodeOp::CBranch {
                    cond: Varnode::constant(1, 1),
                    dest: Varnode::constant(0, 8),
                }),
                def: None,
                uses: vec![],
            }],
            vec![1, 2],
        ),
        blk(
            1,
            0x1010,
            vec![SsaOp {
                va: 0x1010,
                kind: SsaOpKind::Pcode(PcodeOp::Return {
                    dest: Varnode::constant(0, 8),
                }),
                def: None,
                uses: vec![],
            }],
            vec![],
        ),
        blk(
            2,
            0x1020,
            vec![SsaOp {
                va: 0x1020,
                kind: SsaOpKind::Pcode(PcodeOp::Store {
                    space: AddressSpaceId::Ram,
                    ptr: Varnode::register(0x28, 8),
                    val: Varnode::register(0, 4),
                }),
                def: None,
                uses: vec![],
            }],
            vec![3],
        ),
        blk(
            3,
            0x1030,
            vec![SsaOp {
                va: 0x1030,
                kind: SsaOpKind::Pcode(PcodeOp::Return {
                    dest: Varnode::constant(0, 8),
                }),
                def: None,
                uses: vec![],
            }],
            vec![],
        ),
    ];
    link(&mut blocks);
    SsaFunction {
        entry_va: 0x1000,
        bitness: 64,
        blocks,
        image_base: 0,
    }
}

fn call_block_ssa() -> SsaFunction {
    let mut blocks = vec![blk(
        0,
        0x1000,
        vec![
            SsaOp {
                va: 0x1000,
                kind: SsaOpKind::Pcode(PcodeOp::Call {
                    dest: Varnode::constant(0x140001000, 8),
                }),
                def: None,
                uses: vec![],
            },
            SsaOp {
                va: 0x1004,
                kind: SsaOpKind::Pcode(PcodeOp::Return {
                    dest: Varnode::constant(0, 8),
                }),
                def: None,
                uses: vec![],
            },
        ],
        vec![],
    )];
    link(&mut blocks);
    SsaFunction {
        entry_va: 0x1000,
        bitness: 64,
        blocks,
        image_base: 0,
    }
}

#[test]
fn inversion_accepted_when_effects_preserved() {
    // Balanced stores: fidelity holds but no presentation gain → reject.
    let ssa = if_else_with_store_ssa();
    let dual = DualDecompModel::build(&ssa, &[]);
    assert!(
        matches!(dual.regions.get(&0), Some(Region::IfElse { .. })),
        "fixture must classify as IfElse: {:?}",
        dual.regions.get(&0)
    );
    let mv = RewriteMove::InvertBranch { header: 0 };
    assert_eq!(
        check_move(&dual, &mv),
        CheckResult::Reject("no_presentation_gain"),
        "balanced arms must not free-invert"
    );
}

#[test]
fn inversion_apply_swaps_arms_and_polarity() {
    // Else is pure return → inversion has presentation gain.
    let ssa = if_else_early_return_ssa();
    let mut dual = DualDecompModel::build(&ssa, &[]);
    let (t0, e0) = match dual.regions.get(&0) {
        Some(Region::IfElse {
            then_entry,
            else_entry,
            ..
        }) => (*then_entry, *else_entry),
        other => panic!("expected IfElse, got {other:?}"),
    };
    // Force InvertBranch only (before EarlyReturn rewrites shape away).
    let selected = vec![(
        RewriteMove::InvertBranch { header: 0 },
        RewriteOutcome::Applied {
            cost_before: 0,
            cost_after: -1,
        },
    )];
    assert_eq!(
        check_move(&dual, &RewriteMove::InvertBranch { header: 0 }),
        CheckResult::Accept
    );
    apply_moves(&mut dual, &selected, &ssa);
    match dual.regions.get(&0) {
        Some(Region::IfElse {
            then_entry,
            else_entry,
            invert,
            ..
        }) => {
            assert_eq!(*then_entry, e0);
            assert_eq!(*else_entry, t0);
            assert!(*invert);
        }
        other => panic!("expected IfElse after invert apply, got {other:?}"),
    }
}

#[test]
fn early_return_extract_accepted_and_applied() {
    let ssa = if_else_early_return_ssa();
    let mut dual = DualDecompModel::build(&ssa, &[]);
    // Ensure IfElse: then=return (block1 taken), else=store (block2 fall).
    // SSA succ [1,2] → fall=1, taken=2 per cbranch_arms.
    // Wait: fall=successor[0]=1 (return), taken=2 (store).
    // IfElse then=taken=2 (store), else=fall=1 (return).
    assert!(
        matches!(dual.regions.get(&0), Some(Region::IfElse { .. })),
        "early-return fixture must be IfElse: {:?}",
        dual.regions.get(&0)
    );
    let mv = RewriteMove::EarlyReturnExtract { header: 0 };
    assert_eq!(
        check_move(&dual, &mv),
        CheckResult::Accept,
        "pure return arm must pass fidelity"
    );
    let selected = vec![(
        mv,
        RewriteOutcome::Applied {
            cost_before: 0,
            cost_after: -2,
        },
    )];
    apply_moves(&mut dual, &selected, &ssa);
    assert!(
        matches!(dual.regions.get(&0), Some(Region::IfThenFallthrough { .. })),
        "early-return must rewrite to IfThenFallthrough: {:?}",
        dual.regions.get(&0)
    );
}

#[test]
fn early_return_rejected_without_pure_return_arm() {
    let ssa = if_else_with_store_ssa();
    let dual = DualDecompModel::build(&ssa, &[]);
    let mv = RewriteMove::EarlyReturnExtract { header: 0 };
    assert_eq!(
        check_move(&dual, &mv),
        CheckResult::Reject("no_pure_return_arm")
    );
}

#[test]
fn duplication_of_call_block_rejected() {
    let ssa = call_block_ssa();
    let dual = DualDecompModel::build(&ssa, &[]);
    let fx = dual.semantic.block_effect_kinds(0);
    assert!(
        fx.iter().any(|e| matches!(e, EffectKind::Call { .. })),
        "expected call effect"
    );
    let mv = RewriteMove::DuplicatePureBlock { block: 0 };
    assert_eq!(
        check_move(&dual, &mv),
        CheckResult::Reject("cannot_duplicate_effectful_block")
    );
}

#[test]
fn select_moves_records_reject_reasons() {
    let ssa = call_block_ssa();
    let dual = DualDecompModel::build(&ssa, &[]);
    let forced = check_move(&dual, &RewriteMove::DuplicatePureBlock { block: 0 });
    assert!(matches!(forced, CheckResult::Reject(_)));
}

#[test]
fn residual_reason_classification() {
    assert_eq!(
        residual_reason_for_emit_tag("cross_region_escape"),
        ResidualReason::CrossRegionEscape
    );
    assert_eq!(
        residual_reason_for_emit_tag("multi_entry_scc").as_str(),
        "multi_entry_scc"
    );
}
