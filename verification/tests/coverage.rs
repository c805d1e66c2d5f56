//! Every block of a function reaches the printed text.

use pcode_ir::{AddressSpaceId, PcodeOp, Varnode};
use windydec::ssa::{SsaBlock, SsaFunction, SsaOp, SsaOpKind};
use windydec::structure::{structure_emit_core, NameCtx};

fn op(va: u64, kind: PcodeOp) -> SsaOp {
    SsaOp {
        va,
        kind: SsaOpKind::Pcode(kind),
        def: None,
        uses: vec![],
    }
}

fn store(va: u64, value: u64) -> SsaOp {
    op(
        va,
        PcodeOp::Store {
            space: AddressSpaceId::Ram,
            ptr: Varnode::constant(0x5000, 8),
            val: Varnode::constant(value, 4),
        },
    )
}

fn ret(va: u64) -> SsaOp {
    op(
        va,
        PcodeOp::Return {
            dest: Varnode::constant(0, 8),
        },
    )
}

fn block(id: u32, entry_va: u64, ops: Vec<SsaOp>) -> SsaBlock {
    SsaBlock {
        id,
        entry_va,
        ops,
        predecessor_ids: vec![],
        successor_ids: vec![],
    }
}

fn text_of(blocks: Vec<SsaBlock>) -> String {
    let ssa = SsaFunction {
        entry_va: 0x1000,
        bitness: 64,
        blocks,
        image_base: 0x140000000,
    };
    structure_emit_core(&ssa, None, None, 64, &[], &NameCtx::empty())
}

#[test]
fn unreached_block_with_a_statement_is_printed() {
    let text = text_of(vec![
        block(0, 0x1000, vec![store(0x1000, 0x77), ret(0x1004)]),
        block(1, 0x2000, vec![store(0x2000, 0x99), ret(0x2004)]),
    ]);
    assert!(text.contains("0x77"), "{text}");
    assert!(text.contains("0x99"), "{text}");
    assert!(text.ends_with("}\n"), "{text}");
}

#[test]
fn unreached_block_of_control_alone_adds_no_line() {
    let one = text_of(vec![block(0, 0x1000, vec![store(0x1000, 0x77), ret(0x1004)])]);
    let two = text_of(vec![
        block(0, 0x1000, vec![store(0x1000, 0x77), ret(0x1004)]),
        block(1, 0x2000, vec![ret(0x2004)]),
    ]);
    assert_eq!(one, two);
}
