//! The semantic and the presentation view of a function.

use pcode_ir::{AddressSpaceId, PcodeOp, Varnode};
use windydec::ssa::{SsaBlock, SsaFunction, SsaOp, SsaOpKind};
use windydec::structure::contracts::CasePartition;
use windydec::structure::rd_model::{check_effect_fidelity, check_pure_duplication_allowed, CheckResult, DualDecompModel, EffectKind, ResidualReason, SemanticGraph};


fn mk_block(id: u32, va: u64, ops: Vec<SsaOp>, succs: Vec<u32>) -> SsaBlock {
    SsaBlock {
        id,
        entry_va: va,
        ops,
        successor_ids: succs,
        predecessor_ids: vec![],
    }
}

fn ret_op(va: u64) -> SsaOp {
    SsaOp {
        va,
        kind: SsaOpKind::Pcode(PcodeOp::Return {
            dest: Varnode::constant(0, 8),
        }),
        def: None,
        uses: vec![],
    }
}

fn cbranch_op(va: u64) -> SsaOp {
    SsaOp {
        va,
        kind: SsaOpKind::Pcode(PcodeOp::CBranch {
            cond: Varnode::constant(1, 1),
            dest: Varnode::constant(0, 8),
        }),
        def: None,
        uses: vec![],
    }
}

fn store_op(va: u64) -> SsaOp {
    SsaOp {
        va,
        kind: SsaOpKind::Pcode(PcodeOp::Store {
            space: AddressSpaceId::Ram,
            ptr: Varnode::register(0x28, 8),
            val: Varnode::register(0x00, 4),
        }),
        def: None,
        uses: vec![],
    }
}

fn link_preds(blocks: &mut [SsaBlock]) {
    for b in blocks.iter_mut() {
        b.predecessor_ids.clear();
    }
    let edges: Vec<(u32, u32)> = blocks
        .iter()
        .flat_map(|b| b.successor_ids.iter().map(|&s| (b.id, s)))
        .collect();
    for (from, to) in edges {
        if let Some(t) = blocks.iter_mut().find(|b| b.id == to) {
            t.predecessor_ids.push(from);
        }
    }
}

/// Ordinary diamond: entry → then/else → merge → return.
fn diamond_ssa() -> SsaFunction {
    let mut blocks = vec![
        mk_block(0, 0x1000, vec![cbranch_op(0x1000)], vec![1, 2]),
        mk_block(1, 0x1010, vec![store_op(0x1010)], vec![3]),
        mk_block(2, 0x1020, vec![], vec![3]),
        mk_block(3, 0x1030, vec![ret_op(0x1030)], vec![]),
    ];
    link_preds(&mut blocks);
    SsaFunction {
        entry_va: 0x1000,
        bitness: 64,
        blocks,
        image_base: 0,
    }
}

#[test]
fn dual_model_separates_semantic_effects_from_presentation() {
    let ssa = diamond_ssa();
    let dual = DualDecompModel::build(&ssa, &[]);
    // Semantic graph records the store on then-arm.
    let then_fx = dual.semantic.block_effect_kinds(1);
    assert!(
        then_fx.iter().any(|e| matches!(e, EffectKind::Store)),
        "semantic graph must observe store on then arm: {then_fx:?}"
    );
    // Presentation collapses empty forwarding arms (2 → 3), so entry may
    // see then(1) and merge(3) directly — that is the dual-graph point.
    assert!(
        dual.presentation.succ[0].contains(&1),
        "then-arm must remain reachable in presentation: {:?}",
        dual.presentation.succ[0]
    );
    assert_eq!(dual.presentation.succ[0].len(), 2);
    // Contracts see a return.
    assert!(
        dual.contracts
            .returns
            .as_ref()
            .is_some_and(|r| r.has_return),
        "return contract expected"
    );
}

#[test]
fn cookie_overlay_does_not_claim_ordinary_store_block() {
    let ssa = diamond_ssa();
    let sem = SemanticGraph::from_ssa(&ssa);
    // Store block is not a cookie overlay.
    assert!(!sem.cookie_overlay.contains(&1));
    assert!(!sem.is_overlay(1));
}

#[test]
fn checker_rejects_dropped_call_effect() {
    let before = vec![EffectKind::Call { target_hint: None }, EffectKind::Return];
    let after = vec![EffectKind::Return];
    assert_eq!(
        check_effect_fidelity(&before, &after),
        CheckResult::Reject("effect_multiset_mismatch")
    );
}

#[test]
fn checker_accepts_preserved_effects() {
    let before = vec![EffectKind::Store, EffectKind::Return];
    let after = vec![EffectKind::Store, EffectKind::Return];
    assert_eq!(check_effect_fidelity(&before, &after), CheckResult::Accept);
}

#[test]
fn checker_rejects_duplicating_call_block() {
    let fx = vec![EffectKind::Call { target_hint: None }];
    assert_eq!(
        check_pure_duplication_allowed(&fx),
        CheckResult::Reject("cannot_duplicate_effectful_block")
    );
}

#[test]
fn checker_allows_duplicating_pure_block() {
    let fx: Vec<EffectKind> = vec![];
    assert_eq!(check_pure_duplication_allowed(&fx), CheckResult::Accept);
}

#[test]
fn residual_reason_codes_round_trip() {
    assert_eq!(
        ResidualReason::from_emit_tag("join_already_emitted"),
        ResidualReason::JoinAlreadyEmitted
    );
    assert_eq!(ResidualReason::MultiEntryScc.as_str(), "multi_entry_scc");
}

#[test]
fn contract_fingerprint_stable_for_same_regions() {
    let ssa = diamond_ssa();
    let dual = DualDecompModel::build(&ssa, &[]);
    let fp1 = dual.contracts.fingerprint();
    let dual2 = DualDecompModel::build(&ssa, &[]);
    assert_eq!(fp1, dual2.contracts.fingerprint());
}

#[test]
fn presentation_cost_is_finite() {
    let ssa = diamond_ssa();
    let dual = DualDecompModel::build(&ssa, &[]);
    let _ = dual.presentation_cost();
}

#[test]
fn presentation_adj_drives_region_classify() {
    let ssa = diamond_ssa();
    let dual = DualDecompModel::build(&ssa, &[]);
    // Presentation must be non-empty and dual regions derived from it.
    assert!(!dual.presentation.succ.is_empty());
    // Entry is a region header (If / IfElse) after presentation classify.
    assert!(
        dual.regions.contains_key(&0),
        "presentation-driven classify must recover a region at entry: {:?}",
        dual.regions
    );
}

/// Criterion 3: wrong return class is detected by validate.
#[test]
fn contract_validate_rejects_wrong_return_class() {
    let ssa = diamond_ssa();
    let dual = DualDecompModel::build(&ssa, &[]);
    let mut bad = dual.contracts.clone();
    if let Some(r) = bad.returns.as_mut() {
        r.class_tag = "xor".into();
        r.has_return = true;
    }
    let issues = bad.validate_against_semantic(&dual.semantic, &ssa);
    assert!(
        issues.contains(&"wrong_return_class_xor"),
        "expected wrong_return_class_xor in {issues:?}"
    );
}

/// Criterion 3: incomplete case partition fails validation.
#[test]
fn contract_validate_rejects_incomplete_case_partition() {
    let ssa = diamond_ssa();
    let dual = DualDecompModel::build(&ssa, &[]);
    let mut bad = dual.contracts.clone();
    bad.cases.push(CasePartition {
        switch_block: 0,
        case_values: vec![],
        merge: 3,
    });
    let issues = bad.validate_against_semantic(&dual.semantic, &ssa);
    assert!(
        issues.contains(&"incomplete_case_partition"),
        "expected incomplete_case_partition in {issues:?}"
    );
}

/// Criterion 3: valid dual-model contracts pass validation.
#[test]
fn contract_validate_accepts_recovered_contracts() {
    let ssa = diamond_ssa();
    let dual = DualDecompModel::build(&ssa, &[]);
    let issues = dual.validate_contracts(&ssa);
    assert!(
        issues.is_empty(),
        "recovered contracts must validate clean: {issues:?}"
    );
    assert!(
        dual.contracts
            .returns
            .as_ref()
            .is_some_and(|r| r.has_return),
        "return contract expected on diamond"
    );
}

/// Fail-closed sanitize drops a fabricated wrong-xor return class.
#[test]
fn sanitize_contracts_drops_wrong_return_class() {
    let ssa = diamond_ssa();
    let mut dual = DualDecompModel::build(&ssa, &[]);
    if let Some(r) = dual.contracts.returns.as_mut() {
        r.class_tag = "xor".into();
        r.has_return = true;
    }
    let issues = dual.sanitize_contracts(&ssa);
    assert!(
        issues.contains(&"wrong_return_class_xor"),
        "expected wrong_return_class_xor: {issues:?}"
    );
    assert!(
        dual.contracts.returns.is_none(),
        "sanitize must clear contradictory return contract"
    );
}

/// Criterion 3: case partition recovered from eq-ladder constants.
#[test]
fn eq_ladder_recovers_case_partition_contract() {
    // Three CBranch blocks each subtracting a distinct constant.
    let mut blocks = vec![
        mk_block(
            0,
            0x1000,
            vec![
                SsaOp {
                    va: 0x1000,
                    kind: SsaOpKind::Pcode(PcodeOp::IntSub {
                        out: Varnode::unique(0x10, 4),
                        left: Varnode::register(0x00, 4),
                        right: Varnode::constant(1, 4),
                    }),
                    def: None,
                    uses: vec![],
                },
                cbranch_op(0x1004),
            ],
            vec![1, 3],
        ),
        mk_block(
            1,
            0x1010,
            vec![
                SsaOp {
                    va: 0x1010,
                    kind: SsaOpKind::Pcode(PcodeOp::IntSub {
                        out: Varnode::unique(0x20, 4),
                        left: Varnode::register(0x00, 4),
                        right: Varnode::constant(2, 4),
                    }),
                    def: None,
                    uses: vec![],
                },
                cbranch_op(0x1014),
            ],
            vec![2, 3],
        ),
        mk_block(
            2,
            0x1020,
            vec![
                SsaOp {
                    va: 0x1020,
                    kind: SsaOpKind::Pcode(PcodeOp::IntSub {
                        out: Varnode::unique(0x30, 4),
                        left: Varnode::register(0x00, 4),
                        right: Varnode::constant(3, 4),
                    }),
                    def: None,
                    uses: vec![],
                },
                cbranch_op(0x1024),
            ],
            vec![3, 3],
        ),
        mk_block(3, 0x1030, vec![ret_op(0x1030)], vec![]),
    ];
    link_preds(&mut blocks);
    let ssa = SsaFunction {
        entry_va: 0x1000,
        bitness: 64,
        blocks,
        image_base: 0,
    };
    let dual = DualDecompModel::build(&ssa, &[]);
    assert!(
        !dual.contracts.cases.is_empty(),
        "eq-ladder must recover case partition: {:?}",
        dual.contracts.fingerprint()
    );
    assert!(
        dual.contracts.cases[0].case_values.len() >= 2,
        "expected ≥2 case values: {:?}",
        dual.contracts.cases
    );
    assert!(
        dual.contracts.cases[0]
            .case_values
            .iter()
            .any(|&v| v == 1 || v == 2 || v == 3),
        "expected fixture case labels 1/2/3: {:?}",
        dual.contracts.cases
    );
    let issues = dual.validate_contracts(&ssa);
    assert!(
        issues.is_empty(),
        "case contracts must validate: {issues:?}"
    );
}

/// Criterion 3: loop contract recovered on self-loop.
#[test]
fn loop_contract_recovered_on_self_loop() {
    let mut blocks = vec![
        mk_block(0, 0x1000, vec![cbranch_op(0x1000)], vec![1, 0]),
        mk_block(1, 0x1010, vec![ret_op(0x1010)], vec![]),
    ];
    link_preds(&mut blocks);
    let ssa = SsaFunction {
        entry_va: 0x1000,
        bitness: 64,
        blocks,
        image_base: 0,
    };
    let dual = DualDecompModel::build(&ssa, &[]);
    assert!(
        !dual.contracts.loops.is_empty(),
        "expected loop contract: {:?}",
        dual.contracts.fingerprint()
    );
    let issues = dual.validate_contracts(&ssa);
    assert!(
        !issues.contains(&"missing_loop_recurrence"),
        "loop recurrence must validate: {issues:?}"
    );
}
