//! Machine code: the walk over it, operands and the text section.

use windydec::analysis::points_to::{iced_rip_target_at, PointsToMap};
use windydec::lift::{collect_function_instructions, locate_text_section, record_lifted, DecodeMode, LiftedInstr, RegionLift};
use windydec::program::{BasicBlock, CodeIndex, DecodedInstr, Function};

fn instr(va: u64, bytes: &[u8]) -> DecodedInstr {
    DecodedInstr { va, next_ip: va + bytes.len() as u64, bytes: bytes.to_vec() }
}

#[test]
fn instructions_come_in_block_order() {
    let index = CodeIndex { instrs: vec![instr(0x10, &[0x90]), instr(0x11, &[0x8b, 0xc1]), instr(0x20, &[0xc3])] };
    let block = |entry_va, exit_va| BasicBlock { entry_va, exit_va, successors: vec![], predecessors: vec![] };
    let func = Function { entry_va: 0x10, blocks: vec![block(0x20, 0x20), block(0x10, 0x11), block(0x99, 0x99)] };
    let got = collect_function_instructions(&func, &index);
    assert_eq!(got, vec![(0x20, vec![0xc3]), (0x10, vec![0x90]), (0x11, vec![0x8b, 0xc1])]);
}

#[test]
fn undecodable_bytes_are_skipped() {
    let lifted = |va, len| LiftedInstr { va, len, disasm: String::new(), ops: vec![] };
    let mut walk = RegionLift::new(4, 0x1000);
    assert_eq!(walk.next(), Some((0, 0x1000)));
    walk.advance(None);
    assert_eq!(walk.next(), Some((1, 0x1001)));
    walk.advance(Some(lifted(0x1001, 0)));
    assert_eq!(walk.next(), Some((2, 0x1002)));
    walk.advance(Some(lifted(0x1002, 2)));
    assert_eq!(walk.next(), None);
    assert_eq!(walk.out.len(), 1);
    assert_eq!(walk.out[0].va, 0x1002);
}

#[test]
fn walk_does_not_leave_the_addresses() {
    let walk = RegionLift::new(4, u64::MAX);
    assert!(!walk.can_advance(&None));
    assert!(RegionLift::new(4, u64::MAX - 1).can_advance(&None));
}

#[test]
fn failed_lifts_leave_no_trace() {
    let mut out = Vec::new();
    record_lifted(&mut out, 0x10, None);
    record_lifted(&mut out, 0x11, Some(vec![]));
    assert_eq!(out.len(), 1);
    assert_eq!(out[0].0, 0x11);
}

#[test]
fn any_other_width_is_narrow() {
    assert_eq!(DecodeMode::for_bitness(64), DecodeMode::X86_64);
    assert_eq!(DecodeMode::for_bitness(32), DecodeMode::X86_32);
    assert_eq!(DecodeMode::for_bitness(16), DecodeMode::X86_32);
}

#[test]
fn rip_relative_operands_have_a_target() {
    // mov eax, [rip+0x10] and mov eax, [rcx+0x10]
    let rip = instr(0x1000, &[0x8b, 0x05, 0x10, 0, 0, 0]);
    assert_eq!(iced_rip_target_at(&rip, 64), Some(0x1016));
    let based = instr(0x1000, &[0x8b, 0x41, 0x10]);
    assert_eq!(iced_rip_target_at(&based, 64), None);
}

fn image(machine: u16, sections: &[(&[u8; 8], u32, u32, u32)]) -> Vec<u8> {
    let mut b = vec![0u8; 0x40];
    b[0x3c] = 0x40;
    b.extend_from_slice(b"PE\0\0");
    b.extend_from_slice(&machine.to_le_bytes());
    b.extend_from_slice(&(sections.len() as u16).to_le_bytes());
    b.extend_from_slice(&[0; 12]);
    b.extend_from_slice(&0x20u16.to_le_bytes());
    b.extend_from_slice(&[0; 2]);
    let mut opt = [0u8; 0x20];
    opt[0x10..0x14].copy_from_slice(&0x0040_0000u32.to_le_bytes());
    opt[0x18..0x20].copy_from_slice(&0x1_4000_0000u64.to_le_bytes());
    b.extend_from_slice(&opt);
    for (name, va, size, off) in sections {
        b.extend_from_slice(*name);
        b.extend_from_slice(&[0; 4]);
        b.extend_from_slice(&va.to_le_bytes());
        b.extend_from_slice(&size.to_le_bytes());
        b.extend_from_slice(&off.to_le_bytes());
        b.extend_from_slice(&[0; 16]);
    }
    b
}

#[test]
fn text_section_is_found() {
    let sections: [(&[u8; 8], u32, u32, u32); 2] = [(b".rdata\0\0", 0x2000, 0x10, 0x600), (b".text\0\0\0", 0x1000, 0x200, 0x400)];
    assert_eq!(locate_text_section(&image(0x8664, &sections)), Some((0x1_4000_0000, 0x1000, 0x400, 0x200)));
    assert_eq!(locate_text_section(&image(0x014c, &sections)), Some((0x0040_0000, 0x1000, 0x400, 0x200)));
    assert_eq!(locate_text_section(&image(0x8664, &sections[..1])), None);
}

#[test]
fn other_files_have_no_text_section() {
    assert_eq!(locate_text_section(&[]), None);
    let mut b = image(0x8664, &[]);
    b[0x40] = b'X';
    assert_eq!(locate_text_section(&b), None);
    let mut far = image(0x8664, &[]);
    far[0x3f] = 0xff;
    assert_eq!(locate_text_section(&far), None);
}

#[test]
fn empty_map_has_no_rows() {
    assert!(PointsToMap::default().rows().is_empty());
}
