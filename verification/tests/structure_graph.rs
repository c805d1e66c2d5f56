//! Post-dominance, regions and jump-only blocks.

use pcode_ir::{PcodeOp, Varnode};
use windydec::ssa::{Location, SsaBlock, SsaFunction, SsaOp, SsaOpKind, SsaVar};
use windydec::structure::cfg_norm::{is_jump_only, resolve_jump_target};
use windydec::structure::pdom::{build_ipdom, pdt_children, virtual_exit};
use windydec::structure::region::{classify, reach, Region};


/// Diamond: 0 → {1,2} → 3 → ∅. Virtual exit = 4.
fn diamond() -> (Vec<Vec<u32>>, Vec<Vec<u32>>) {
    let succ = vec![
        vec![1, 2], // 0 branch
        vec![3],    // 1 then
        vec![3],    // 2 else
        vec![],     // 3 join
    ];
    let pred = vec![vec![], vec![0], vec![0], vec![1, 2]];
    (succ, pred)
}

#[test]
fn diamond_post_dominators() {
    let (succ, pred) = diamond();
    let ipdom = build_ipdom(&succ, &pred);
    let ve = virtual_exit(4);

    // Virtual exit post-dominates itself.
    assert_eq!(ipdom[ve as usize], Some(ve));
    // Join's ipdom is the virtual exit.
    assert_eq!(ipdom[3], Some(ve), "join ipdom should be virtual exit");
    // Then / else are immediately post-dominated by the join.
    assert_eq!(ipdom[1], Some(3), "then → join");
    assert_eq!(ipdom[2], Some(3), "else → join");
    // Branch is immediately post-dominated by the join (both arms meet there).
    assert_eq!(ipdom[0], Some(3), "branch ipdom should be join");
}

#[test]
fn diamond_pdt_children() {
    let (succ, pred) = diamond();
    let ipdom = build_ipdom(&succ, &pred);
    let children = pdt_children(&ipdom);
    let ve = virtual_exit(4) as usize;

    // Join is a child of the virtual exit.
    assert!(children[ve].contains(&3));
    // Then and else (and branch) hang under the join.
    assert!(children[3].contains(&1));
    assert!(children[3].contains(&2));
    assert!(children[3].contains(&0));
}



fn reg(offset: u64, version: u32) -> SsaVar {
    SsaVar {
        location: Location::Register {
            base_offset: offset,
        },
        version,
    }
}

fn empty_block(id: u32, entry_va: u64, preds: Vec<u32>, succs: Vec<u32>) -> SsaBlock {
    SsaBlock {
        id,
        entry_va,
        ops: vec![],
        predecessor_ids: preds,
        successor_ids: succs,
    }
}

fn cbranch_block(id: u32, entry_va: u64, preds: Vec<u32>, succs: Vec<u32>) -> SsaBlock {
    let op = SsaOp {
        va: entry_va,
        kind: SsaOpKind::Pcode(PcodeOp::CBranch {
            dest: Varnode::constant(0, 8),
            cond: Varnode::register(0x00, 1),
        }),
        def: None,
        uses: vec![reg(0x00, 1)],
    };
    SsaBlock {
        id,
        entry_va,
        ops: vec![op],
        predecessor_ids: preds,
        successor_ids: succs,
    }
}

/// Diamond: 0 cbranch → then(1)/else(2) → join(3 return).
fn diamond_ssa() -> SsaFunction {
    let b0 = cbranch_block(0, 0x1000, vec![], vec![2, 1]); // fall=else(2), taken=then(1)
    let b1 = empty_block(1, 0x1010, vec![0], vec![3]);
    let b2 = empty_block(2, 0x1020, vec![0], vec![3]);
    let mut b3 = empty_block(3, 0x1030, vec![1, 2], vec![]);
    b3.ops.push(SsaOp {
        va: 0x1030,
        kind: SsaOpKind::Pcode(PcodeOp::Return {
            dest: Varnode::register(0x00, 8),
        }),
        def: None,
        uses: vec![reg(0x00, 1)],
    });
    SsaFunction {
        entry_va: 0x1000,
        bitness: 64,
        blocks: vec![b0, b1, b2, b3],
        image_base: 0,
    }
}

/// Self-loop: 0 cbranch → fall=exit(1), taken=self(0).
fn self_loop_ssa() -> SsaFunction {
    let b0 = cbranch_block(0, 0x1000, vec![0], vec![1, 0]); // fall=exit, taken=self
    let mut b1 = empty_block(1, 0x1100, vec![0], vec![]);
    b1.ops.push(SsaOp {
        va: 0x1100,
        kind: SsaOpKind::Pcode(PcodeOp::Return {
            dest: Varnode::register(0x00, 8),
        }),
        def: None,
        uses: vec![],
    });
    SsaFunction {
        entry_va: 0x1000,
        bitness: 64,
        blocks: vec![b0, b1],
        image_base: 0,
    }
}

/// If-then only: 0 cbranch → fall=merge(2), taken=body(1) → merge(2).
fn if_then_ssa() -> SsaFunction {
    let b0 = cbranch_block(0, 0x1000, vec![], vec![2, 1]); // fall=merge, taken=body
    let b1 = empty_block(1, 0x1010, vec![0], vec![2]);
    let mut b2 = empty_block(2, 0x1020, vec![0, 1], vec![]);
    b2.ops.push(SsaOp {
        va: 0x1020,
        kind: SsaOpKind::Pcode(PcodeOp::Return {
            dest: Varnode::register(0x00, 8),
        }),
        def: None,
        uses: vec![],
    });
    SsaFunction {
        entry_va: 0x1000,
        bitness: 64,
        blocks: vec![b0, b1, b2],
        image_base: 0,
    }
}

#[test]
fn diamond_classifies_as_if_else() {
    let ssa = diamond_ssa();
    let regions = classify(&ssa, &[]);
    match regions.get(&0) {
        Some(Region::IfElse {
            then_entry,
            else_entry,
            merge,
        ..
        }) => {
            assert_eq!(*then_entry, 1);
            assert_eq!(*else_entry, 2);
            assert_eq!(*merge, 3);
        }
        other => panic!("expected IfElse, got {other:?}"),
    }
}

#[test]
fn self_loop_classifies_as_while_or_do_while() {
    let ssa = self_loop_ssa();
    let regions = classify(&ssa, &[]);
    match regions.get(&0) {
        Some(Region::DoWhile { exit, .. }) | Some(Region::While { exit, .. }) => {
            assert_eq!(*exit, 1);
        }
        other => panic!("expected While/DoWhile, got {other:?}"),
    }
}

#[test]
fn one_dead_arm_classifies_as_if() {
    let ssa = if_then_ssa();
    let regions = classify(&ssa, &[]);
    match regions.get(&0) {
        Some(Region::If {
            body_entry,
            merge,
            invert,
        }) => {
            assert_eq!(*body_entry, 1);
            assert_eq!(*merge, 2);
            assert!(!*invert);
        }
        other => panic!("expected If, got {other:?}"),
    }
}

#[test]
fn reach_excludes_stop() {
    let succ = vec![vec![1, 2], vec![3], vec![3], vec![]];
    let r = reach(1, 3, &succ);
    assert!(r.contains(&1));
    assert!(!r.contains(&3));
    assert!(!r.contains(&2));
}



fn empty_jump(id: u32, va: u64, to: u32) -> SsaBlock {
    SsaBlock {
        id,
        entry_va: va,
        ops: vec![SsaOp {
            va,
            kind: SsaOpKind::Pcode(PcodeOp::Branch {
                dest: Varnode::constant(0, 8),
            }),
            def: None,
            uses: vec![],
        }],
        predecessor_ids: vec![],
        successor_ids: vec![to],
    }
}

#[test]
fn jump_only_chain_resolves() {
    // 0 -> 1 (jump) -> 2 (return)
    let b0 = empty_jump(0, 0x1000, 1);
    let b1 = empty_jump(1, 0x1010, 2);
    let b2 = SsaBlock {
        id: 2,
        entry_va: 0x1020,
        ops: vec![SsaOp {
            va: 0x1020,
            kind: SsaOpKind::Pcode(PcodeOp::Return {
                dest: Varnode::register(0, 8),
            }),
            def: None,
            uses: vec![SsaVar {
                location: Location::Register { base_offset: 0 },
                version: 1,
            }],
        }],
        predecessor_ids: vec![1],
        successor_ids: vec![],
    };
    let ssa = SsaFunction {
        entry_va: 0x1000,
        bitness: 64,
        blocks: vec![b0, b1, b2],
        image_base: 0,
    };
    assert!(is_jump_only(&ssa.blocks[0]));
    assert!(is_jump_only(&ssa.blocks[1]));
    assert!(!is_jump_only(&ssa.blocks[2]));
    assert_eq!(resolve_jump_target(&ssa, 0, 16), 2);
    assert_eq!(resolve_jump_target(&ssa, 1, 16), 2);
}
