//! What memory operations point to.

use std::collections::HashMap;

use pcode_ir::{AddressSpaceId, PcodeOp, Varnode};
use windydec::analysis::points_to::{compute_points_to, PointsToCtx, PointsToKind};
use windydec::program::{AddressSpace, SymbolTable};
use windydec::ssa::{Location, SsaBlock, SsaFunction, SsaOp, SsaOpKind, SsaVar};


fn empty_space() -> AddressSpace {
    AddressSpace::new(0x140000000, &[])
}

#[test]
fn stack_ref_from_stack_slot_use() {
    let op = SsaOp {
        va: 0x1000,
        kind: SsaOpKind::Pcode(PcodeOp::Load {
            out: Varnode::register(0x00, 4),
            space: AddressSpaceId::Ram,
            ptr: Varnode::register(0x28, 8),
        }),
        def: Some(SsaVar {
            location: Location::Register { base_offset: 0x00 },
            version: 2,
        }),
        uses: vec![SsaVar {
            location: Location::StackSlot {
                base_reg: 0x28,
                disp: -0x10,
            },
            version: 1,
        }],
    };
    let ssa = SsaFunction {
        entry_va: 0x1000,
        bitness: 64,
        blocks: vec![SsaBlock {
            id: 0,
            entry_va: 0x1000,
            ops: vec![op],
            predecessor_ids: vec![],
            successor_ids: vec![],
        }],
        image_base: 0x140000000,
    };
    let space = empty_space();
    let symbols = SymbolTable::default();
    let insn_global = HashMap::new();
    let iat_slots: Vec<u64> = Vec::new();
    let ctx = PointsToCtx {
        address_space: &space,
        symbols: &symbols,
        insn_global: &insn_global,
        iat_slots: &iat_slots,
    };
    let map = compute_points_to(&ssa, &ctx);
    let e = map.by_instruction(0x1000).expect("entry");
    assert_eq!(e.kind, PointsToKind::StackRef);
    assert_eq!(e.stack_disp, Some(-0x10));
}

#[test]
fn two_globals_via_insn_map() {
    let load1 = SsaOp {
        va: 0x1000,
        kind: SsaOpKind::Pcode(PcodeOp::Load {
            out: Varnode::register(0x00, 4),
            space: AddressSpaceId::Ram,
            ptr: Varnode::register(0x08, 8),
        }),
        def: Some(SsaVar {
            location: Location::RawRam,
            version: 1,
        }),
        uses: vec![SsaVar {
            location: Location::Register { base_offset: 0x08 },
            version: 1,
        }],
    };
    let load2 = SsaOp {
        va: 0x1010,
        kind: SsaOpKind::Pcode(PcodeOp::Load {
            out: Varnode::register(0x00, 4),
            space: AddressSpaceId::Ram,
            ptr: Varnode::register(0x08, 8),
        }),
        def: Some(SsaVar {
            location: Location::RawRam,
            version: 2,
        }),
        uses: vec![SsaVar {
            location: Location::Register { base_offset: 0x08 },
            version: 1,
        }],
    };
    let ssa = SsaFunction {
        entry_va: 0x1000,
        bitness: 64,
        blocks: vec![SsaBlock {
            id: 0,
            entry_va: 0x1000,
            ops: vec![load1, load2],
            predecessor_ids: vec![],
            successor_ids: vec![],
        }],
        image_base: 0x140000000,
    };
    let space = empty_space();
    let mut symbols = SymbolTable::default();
    symbols.insert(0x140001000, "g_count");
    symbols.insert(0x140005000, "g_total");
    let mut insn_global = HashMap::new();
    insn_global.insert(0x1000, 0x140001000);
    insn_global.insert(0x1010, 0x140005000);
    let iat_slots: Vec<u64> = Vec::new();
    let ctx = PointsToCtx {
        address_space: &space,
        symbols: &symbols,
        insn_global: &insn_global,
        iat_slots: &iat_slots,
    };
    let map = compute_points_to(&ssa, &ctx);
    let vas = map.global_vas();
    assert_eq!(vas.len(), 2);
    assert!(vas.contains(&0x140001000));
    assert!(vas.contains(&0x140005000));
    assert_eq!(
        map.by_instruction(0x1000).and_then(|e| e.symbol.as_deref()),
        Some("g_count")
    );
    assert_eq!(
        map.by_instruction(0x1010).and_then(|e| e.symbol.as_deref()),
        Some("g_total")
    );
}
