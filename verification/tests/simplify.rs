//! Simplification of SSA form.

use pcode_ir::{AddressSpaceId, PcodeOp, Varnode};
use windydec::ssa::{simplify, verify_no_uninitialized_register_uses, Location, PhiNode, SsaBlock, SsaFunction, SsaOp, SsaOpKind, SsaVar};

fn copy_op(out_offset: u64, out_version: u32, input: Varnode) -> SsaOp {
    let uses = if input.space == AddressSpaceId::Register {
        vec![reg(input.offset, 1)]
    } else {
        vec![]
    };
    SsaOp {
        va: 0x1000,
        kind: SsaOpKind::Pcode(PcodeOp::Copy {
            out: Varnode::register(out_offset, 8),
            input,
        }),
        def: Some(reg(out_offset, out_version)),
        uses,
    }
}

fn build_test_ssa(ops: Vec<SsaOp>) -> SsaFunction {
    SsaFunction {
        entry_va: 0x1000,
        bitness: 64,
        blocks: vec![SsaBlock {
            id: 0,
            entry_va: 0x1000,
            ops,
            predecessor_ids: vec![],
            successor_ids: vec![],
        }],
        image_base: 0x140000000,
    }
}


fn reg(offset: u64, version: u32) -> SsaVar {
    SsaVar {
        location: Location::Register {
            base_offset: offset,
        },
        version,
    }
}

#[test]
fn copy_chain_collapses() {
    // B = A;  C = B;   (both plain register copies)
    let b_def = reg(0x08, 2);
    let c_def = reg(0x10, 3);
    let ops = vec![
        copy_op(0x08, 2, Varnode::register(0x00, 8)),
        copy_op(0x10, 3, Varnode::register(0x08, 8)),
    ];
    let _ = (b_def, c_def);
    let ssa = build_test_ssa(ops);
    let (opt, analysis) = simplify(&ssa);
    // The two copy ops are aliases and become dead (nothing uses C).
    assert_eq!(analysis.op_count_before, 2);
    assert_eq!(
        analysis.op_count_after, 0,
        "copy chain must be fully removed"
    );
    assert_eq!(analysis.copies_propagated, 2);
    assert!(verify_no_uninitialized_register_uses(&opt));
}

#[test]
fn const_reaches_live_use() {
    // B = const 5;  a live Return reads B, so the const copy survives.
    let b_def = reg(0x08, 2);
    let const_copy = copy_op(0x08, 2, Varnode::constant(5, 4));

    let ret = SsaOp {
        va: 0x1004,
        kind: SsaOpKind::Pcode(PcodeOp::Return {
            dest: Varnode::register(0x08, 8),
        }),
        def: None,
        uses: vec![b_def.clone()],
    };
    let ssa = build_test_ssa(vec![const_copy, ret]);
    let (opt, analysis) = simplify(&ssa);
    assert_eq!(
        analysis.op_count_after, 2,
        "const copy feeding Return stays"
    );
    assert_eq!(analysis.constants_propagated, 1);
    assert!(verify_no_uninitialized_register_uses(&opt));
}

#[test]
fn trivial_phi_collapses() {
    // P = phi(A, A, A); live use of P via Return -> phi collapsed, Return kept.
    let a = reg(0x00, 1);
    let p_def = reg(0x18, 4);
    let phi = SsaOp {
        va: 0,
        kind: SsaOpKind::Phi(PhiNode {
            out: p_def.clone(),
            args: vec![Some(a.clone()), Some(a.clone()), Some(a.clone())],
        }),
        def: Some(p_def.clone()),
        uses: vec![],
    };
    let ret = SsaOp {
        va: 0x1004,
        kind: SsaOpKind::Pcode(PcodeOp::Return {
            dest: Varnode::register(0x18, 8),
        }),
        def: None,
        uses: vec![p_def.clone()],
    };
    let ssa = build_test_ssa(vec![phi, ret]);
    let (opt, analysis) = simplify(&ssa);
    assert_eq!(analysis.phis_collapsed, 1, "trivial phi must collapse");
    assert_eq!(analysis.op_count_after, 1, "only the Return should remain");
    assert!(verify_no_uninitialized_register_uses(&opt));
}

#[test]
fn side_effect_op_kept() {
    // A store is always kept even if its value register is uninteresting.
    let store = SsaOp {
        va: 0x1000,
        kind: SsaOpKind::Pcode(PcodeOp::Store {
            space: AddressSpaceId::Ram,
            ptr: Varnode::register(0x20, 8),
            val: Varnode::register(0x00, 4),
        }),
        def: Some(SsaVar {
            location: Location::RawRam,
            version: 1,
        }),
        uses: vec![reg(0x00, 1), reg(0x20, 1)],
    };
    let ssa = build_test_ssa(vec![store]);
    let (opt, analysis) = simplify(&ssa);
    assert_eq!(analysis.op_count_after, 1, "store must be kept");
    assert!(verify_no_uninitialized_register_uses(&opt));
}

#[test]
fn op_count_never_increases() {
    let add = SsaOp {
        va: 0x1000,
        kind: SsaOpKind::Pcode(PcodeOp::IntAdd {
            out: Varnode::register(0x00, 4),
            left: Varnode::register(0x08, 4),
            right: Varnode::register(0x10, 4),
        }),
        def: Some(reg(0x00, 2)),
        uses: vec![reg(0x08, 1), reg(0x10, 1)],
    };
    let ret = SsaOp {
        va: 0x1004,
        kind: SsaOpKind::Pcode(PcodeOp::Return {
            dest: Varnode::register(0x00, 8),
        }),
        def: None,
        uses: vec![reg(0x00, 2)],
    };
    let ssa = build_test_ssa(vec![add, ret]);
    let (opt, analysis) = simplify(&ssa);
    assert!(analysis.op_count_after <= analysis.op_count_before);
    assert_eq!(analysis.op_count_after, 2);
    assert!(verify_no_uninitialized_register_uses(&opt));
}

#[test]
fn copy_propagation_follows_instruction_scoped_unique_chain() {
    let instruction_va = 0x1400_0010;
    let t0 = SsaVar {
        location: Location::Unique {
            instruction_va,
            offset: 0x40,
            size: 8,
        },
        version: 1,
    };
    let t1 = SsaVar {
        location: Location::Unique {
            instruction_va,
            offset: 0x48,
            size: 8,
        },
        version: 1,
    };
    let rax = reg(0x00, 2);
    let rcx = reg(0x08, 1);

    // t0 = rcx; t1 = t0; rax = t1; return rax. The frozen P-code is
    // retained, but the SSA use chain should collapse through both Unique
    // locations back to the live-in RCX definition.
    let copies = vec![
        SsaOp {
            va: instruction_va,
            kind: SsaOpKind::Pcode(PcodeOp::Copy {
                out: Varnode::unique(0x40, 8),
                input: Varnode::register(0x08, 8),
            }),
            def: Some(t0.clone()),
            uses: vec![rcx.clone()],
        },
        SsaOp {
            va: instruction_va,
            kind: SsaOpKind::Pcode(PcodeOp::Copy {
                out: Varnode::unique(0x48, 8),
                input: Varnode::unique(0x40, 8),
            }),
            def: Some(t1.clone()),
            uses: vec![t0],
        },
        SsaOp {
            va: instruction_va,
            kind: SsaOpKind::Pcode(PcodeOp::Copy {
                out: Varnode::register(0x00, 8),
                input: Varnode::unique(0x48, 8),
            }),
            def: Some(rax.clone()),
            uses: vec![t1],
        },
        SsaOp {
            va: instruction_va,
            kind: SsaOpKind::Pcode(PcodeOp::Return {
                dest: Varnode::register(0x00, 8),
            }),
            def: None,
            uses: vec![rax],
        },
    ];

    let (optimized, analysis) = simplify(&build_test_ssa(copies));
    assert_eq!(analysis.copies_propagated, 3);
    // Last RAX materialization stays live (ABI return); Unique chain may fold.
    assert!(
        analysis.op_count_after >= 1 && analysis.op_count_after <= 3,
        "copies collapse toward return, got {}",
        analysis.op_count_after
    );
    let has_return = optimized.blocks[0]
        .ops
        .iter()
        .any(|o| matches!(&o.kind, SsaOpKind::Pcode(PcodeOp::Return { .. })));
    assert!(has_return, "return must remain");
    let _ = rcx;
}

#[test]
fn sete_cmp_chain_survives_dce_as_return() {
    // Model: cmp eax, imm → ZF; sete al → RAX; return.
    // Previously DCE dropped ZF when RAX was aliased to the flag.
    let eax_in = reg(0x00, 1);
    let zf = SsaVar {
        location: Location::Register { base_offset: 518 },
        version: 2,
    };
    let rax_out = reg(0x00, 2);
    let tmp = SsaVar {
        location: Location::Unique {
            instruction_va: 0x1000,
            offset: 0x99,
            size: 4,
        },
        version: 1,
    };
    let ops = vec![
        SsaOp {
            va: 0x1000,
            kind: SsaOpKind::Pcode(PcodeOp::IntSub {
                out: Varnode::unique(0x99, 4),
                left: Varnode::register(0x00, 4),
                right: Varnode::constant(0xc000_0005, 4),
            }),
            def: Some(tmp.clone()),
            uses: vec![eax_in.clone()],
        },
        SsaOp {
            va: 0x1000,
            kind: SsaOpKind::Pcode(PcodeOp::IntEq {
                out: Varnode::register(518, 1),
                left: Varnode::unique(0x99, 4),
                right: Varnode::constant(0, 4),
            }),
            def: Some(zf.clone()),
            uses: vec![tmp],
        },
        SsaOp {
            va: 0x1004,
            kind: SsaOpKind::Pcode(PcodeOp::Copy {
                out: Varnode::register(0x00, 1),
                input: Varnode::register(518, 1),
            }),
            def: Some(rax_out.clone()),
            uses: vec![zf],
        },
        SsaOp {
            va: 0x1005,
            kind: SsaOpKind::Pcode(PcodeOp::Return {
                dest: Varnode::register(648, 8),
            }),
            def: None,
            uses: vec![],
        },
    ];
    let (optimized, _) = simplify(&build_test_ssa(ops));
    let kinds: Vec<&str> = optimized.blocks[0]
        .ops
        .iter()
        .map(|o| match &o.kind {
            SsaOpKind::Pcode(PcodeOp::IntSub { .. }) => "sub",
            SsaOpKind::Pcode(PcodeOp::IntEq { .. }) => "eq",
            SsaOpKind::Pcode(PcodeOp::Copy { .. }) => "copy",
            SsaOpKind::Pcode(PcodeOp::Return { .. }) => "ret",
            _ => "other",
        })
        .collect();
    assert!(
        kinds.contains(&"sub") && kinds.contains(&"eq"),
        "cmp/sete chain must remain live for return, got {kinds:?}"
    );
    assert!(kinds.contains(&"ret"));
}
