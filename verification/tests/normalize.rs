//! Recognition of operations that presentation treats alike.

use pcode_ir::{AddressSpaceId, PcodeOp, Varnode};
use windydec::normalize::{is_arith_contractible, is_param_home_store, is_protected_schema_op, is_stable_contractible_pure, looks_like_byte_zero_test};
use windydec::ssa::{Location, SsaOp, SsaOpKind, SsaVar};


fn store_home(disp: i64, reg_base: u64) -> SsaOp {
    SsaOp {
        va: 0x1000,
        kind: SsaOpKind::Pcode(PcodeOp::Store {
            space: AddressSpaceId::Ram,
            ptr: Varnode {
                space: AddressSpaceId::Register,
                offset: 0x20,
                size: 8,
            },
            val: Varnode {
                space: AddressSpaceId::Register,
                offset: reg_base,
                size: 8,
            },
        }),
        def: Some(SsaVar {
            location: Location::StackSlot {
                base_reg: 0x20,
                disp,
            },
            version: 1,
        }),
        uses: vec![SsaVar {
            location: Location::Register {
                base_offset: reg_base,
            },
            version: 1,
        }],
    }
}

#[test]
fn detects_param_home_store() {
    assert!(is_param_home_store(&store_home(0x8, 0x08)));
    assert!(is_param_home_store(&store_home(0x10, 0x10)));
    assert!(!is_param_home_store(&store_home(0x8, 0x00)));
}

#[test]
fn multi_use_arith_is_stable_contractible() {
    let add = SsaOp {
        va: 0x1000,
        kind: SsaOpKind::Pcode(PcodeOp::IntAdd {
            out: Varnode::register(0x00, 8),
            left: Varnode::register(0x08, 8),
            right: Varnode::register(0x10, 8),
        }),
        def: Some(SsaVar {
            location: Location::Register { base_offset: 0 },
            version: 2,
        }),
        uses: vec![
            SsaVar {
                location: Location::Register { base_offset: 0x08 },
                version: 1,
            },
            SsaVar {
                location: Location::Register { base_offset: 0x10 },
                version: 1,
            },
        ],
    };
    assert!(is_arith_contractible(&add));
    assert!(is_stable_contractible_pure(&add));
    assert!(!is_protected_schema_op(&add));
}

#[test]
fn byte_zero_test_heuristic() {
    assert!(looks_like_byte_zero_test("*(char *)(p)"));
    assert!(looks_like_byte_zero_test("uint8 x"));
    assert!(!looks_like_byte_zero_test("(rax_4 & rax_4)"));
    assert!(!looks_like_byte_zero_test("param_1"));
    assert!(!looks_like_byte_zero_test("*(mem_1)"));
}

#[test]
fn local_stack_store_is_not_param_home() {
    // Accumulator at [rsp+4] written from RCX after `s += n` must not be
    // classified as a Win64 param-home echo (that used to drop b05 stores).
    let op = SsaOp {
        va: 0x1000,
        kind: SsaOpKind::Pcode(PcodeOp::Store {
            space: AddressSpaceId::Ram,
            ptr: Varnode::register(0x20, 8),
            val: Varnode::register(0x08, 4),
        }),
        def: Some(SsaVar {
            location: Location::StackSlot {
                base_reg: 0x20,
                disp: 4,
            },
            version: 1,
        }),
        uses: vec![SsaVar {
            location: Location::Register { base_offset: 0x08 },
            version: 1,
        }],
    };
    assert!(
        !is_param_home_store(&op),
        "local disp=4 must not be treated as Win64 param home"
    );
}
