//! Lifting of machine code: which bytes are lifted at which address, and what
//! becomes of what the decoder gives back.

use vstd::prelude::*;
use pcode_ir::PcodeOp;
use crate::program::{CodeIndex, Function};

verus! {

/// Stack that decoding needs: the decoder recurses deeply.
pub const DECODE_STACK_SIZE: usize = 134217728;

/// The machine mode in which code is decoded.
#[derive(Clone, Copy, Debug, PartialEq, Eq, Structural)]
pub enum DecodeMode {
    X86_64,
    X86_32,
}

impl DecodeMode {
    /// The mode for a width: 64 bits, or 32 for any other.
    pub fn for_bitness(bitness: u32) -> (r: DecodeMode)
        ensures
            r == if bitness == 64 {
                DecodeMode::X86_64
            } else {
                DecodeMode::X86_32
            },
    {
        if bitness == 64 {
            DecodeMode::X86_64
        } else {
            DecodeMode::X86_32
        }
    }
}

/// One lifted machine instruction.
#[derive(Clone, Debug)]
pub struct LiftedInstr {
    /// Address of the instruction.
    pub va: u64,
    /// Length in bytes.
    pub len: u64,
    /// Disassembly.
    pub disasm: String,
    /// P-code operations in execution order.
    pub ops: Vec<PcodeOp>,
}

// ─── The instructions of a function ─────────────────────────────────────────

/// Address and bytes of an instruction.
pub ghost struct InstrView {
    pub va: u64,
    pub bytes: Seq<u8>,
}

/// The instructions as values.
pub open spec fn instr_views(v: Seq<(u64, Vec<u8>)>) -> Seq<InstrView> {
    Seq::new(v.len(), |i: int| InstrView { va: v[i].0, bytes: v[i].1@ })
}

/// `acc` with the instructions from `va` to `exit` behind it, as far as they are known.
pub open spec fn instrs_from(index: CodeIndex, va: u64, exit: u64, acc: Seq<InstrView>) -> Seq<InstrView>
    decreases u64::MAX - va,
{
    match index.position(va) {
        None => acc,
        Some(i) => {
            let here = acc.push(InstrView { va, bytes: index.instrs@[i].bytes@ });
            let next = index.instrs@[i].next_ip;
            if va == exit || next <= va {
                here
            } else {
                instrs_from(index, next, exit, here)
            }
        },
    }
}

/// The instructions of the first `n` blocks, in block order.
pub open spec fn function_instrs(func: Function, index: CodeIndex, n: int) -> Seq<InstrView>
    decreases n,
{
    if n <= 0 {
        Seq::empty()
    } else {
        instrs_from(
            index,
            func.blocks@[n - 1].entry_va,
            func.blocks@[n - 1].exit_va,
            function_instrs(func, index, n - 1),
        )
    }
}

fn copy_bytes(v: &Vec<u8>) -> (r: Vec<u8>)
    ensures
        r@ == v@,
{
    let mut r: Vec<u8> = Vec::new();
    let mut i: usize = 0;
    while i < v.len()
        invariant
            i <= v@.len(),
            r@ == v@.take(i as int),
        decreases v@.len() - i,
    {
        r.push(v[i]);
        assert(v@.take(i + 1) =~= v@.take(i as int).push(v@[i as int]));
        i += 1;
    }
    assert(v@.take(v@.len() as int) =~= v@);
    r
}

/// Address and bytes of every instruction of `func`, in block order.
pub fn collect_function_instructions(func: &Function, code_index: &CodeIndex) -> (r: Vec<(u64, Vec<u8>)>)
    requires
        code_index.wf(),
    ensures
        instr_views(r@) == function_instrs(*func, *code_index, func.blocks@.len() as int),
{
    let mut r: Vec<(u64, Vec<u8>)> = Vec::new();
    let mut b: usize = 0;
    assert(instr_views(r@) =~= Seq::empty());
    while b < func.blocks.len()
        invariant
            b <= func.blocks@.len(),
            code_index.wf(),
            instr_views(r@) == function_instrs(*func, *code_index, b as int),
        decreases func.blocks@.len() - b,
    {
        let exit = func.blocks[b].exit_va;
        let mut va = func.blocks[b].entry_va;
        let ghost want = function_instrs(*func, *code_index, b + 1);
        let mut done = false;
        while !done
            invariant
                code_index.wf(),
                done ==> instr_views(r@) == want,
                !done ==> instrs_from(*code_index, va, exit, instr_views(r@)) == want,
            decreases (if done {
                    0int
                } else {
                    1 + u64::MAX - va
                }),
        {
            match code_index.at_va(va) {
                None => {
                    done = true;
                },
                Some(d) => {
                    let ghost before = r@;
                    let bytes = copy_bytes(&d.bytes);
                    r.push((va, bytes));
                    assert(instr_views(r@) =~= instr_views(before).push(
                        InstrView { va, bytes: d.bytes@ },
                    ));
                    if va == exit {
                        done = true;
                    } else {
                        va = d.next_ip;
                    }
                },
            }
        }
        b += 1;
    }
    r
}

/// Append the operations of the instruction at `va`, if it could be lifted.
pub fn record_lifted(out: &mut Vec<(u64, Vec<PcodeOp>)>, va: u64, lifted: Option<Vec<PcodeOp>>)
    ensures
        final(out)@ == match lifted {
            Some(ops) => old(out)@.push((va, ops)),
            None => old(out)@,
        },
{
    if let Some(ops) = lifted {
        out.push((va, ops));
    }
}

// ─── A region of code ───────────────────────────────────────────────────────

/// A walk over a contiguous region. The caller decodes at the place that `next`
/// names and hands the outcome to `advance`.
pub struct RegionLift {
    pub size: usize,
    pub off: usize,
    pub va: u64,
    pub out: Vec<LiftedInstr>,
}

impl RegionLift {
    /// Start at the first byte.
    pub fn new(size: usize, base_va: u64) -> (r: RegionLift)
        ensures
            r.size == size,
            r.off == 0,
            r.va == base_va,
            r.out@.len() == 0,
    {
        RegionLift { size, off: 0, va: base_va, out: Vec::new() }
    }

    /// Where to decode next: the offset into the region and its address.
    pub fn next(&self) -> (r: Option<(usize, u64)>)
        ensures
            r == if self.off < self.size {
                Some((self.off, self.va))
            } else {
                None
            },
    {
        if self.off < self.size {
            Some((self.off, self.va))
        } else {
            None
        }
    }

    /// Bytes that an outcome covers: the instruction, or one byte where nothing could
    /// be decoded.
    pub open spec fn covered(decoded: Option<LiftedInstr>) -> u64 {
        match decoded {
            Some(i) => if i.len == 0 {
                1
            } else {
                i.len
            },
            None => 1,
        }
    }

    /// Whether the walk stays within addresses behind an outcome.
    pub fn can_advance(&self, decoded: &Option<LiftedInstr>) -> (r: bool)
        ensures
            r == (self.off + RegionLift::covered(*decoded) <= usize::MAX && self.va + RegionLift::covered(
                *decoded,
            ) <= u64::MAX),
    {
        let n: u64 = match decoded {
            Some(i) => if i.len == 0 {
                1
            } else {
                i.len
            },
            None => 1,
        };
        n as u128 + self.off as u128 <= usize::MAX as u128 && n <= u64::MAX - self.va
    }

    /// Take the outcome of decoding at the current place. An instruction is kept and
    /// passed over; an undecodable byte, or a decoding of length zero, is skipped.
    pub fn advance(&mut self, decoded: Option<LiftedInstr>)
        requires
            old(self).off < old(self).size,
            old(self).off + RegionLift::covered(decoded) <= usize::MAX,
            old(self).va + RegionLift::covered(decoded) <= u64::MAX,
        ensures
            final(self).size == old(self).size,
            final(self).off == old(self).off + RegionLift::covered(decoded),
            final(self).va == old(self).va + RegionLift::covered(decoded),
            final(self).out@ == match decoded {
                Some(i) => if i.len == 0 {
                    old(self).out@
                } else {
                    old(self).out@.push(i)
                },
                None => old(self).out@,
            },
    {
        match decoded {
            Some(i) => {
                if i.len == 0 {
                    self.off += 1;
                    self.va += 1;
                } else {
                    self.off += i.len as usize;
                    self.va += i.len;
                    self.out.push(i);
                }
            },
            None => {
                self.off += 1;
                self.va += 1;
            },
        }
    }
}

/// Address and offset move in step: a walk that has covered `off` bytes stands at the
/// base address and `off`.
pub proof fn law_walk_keeps_step(base: u64, before: RegionLift, after: RegionLift, decoded: Option<LiftedInstr>)
    requires
        before.va == base + before.off,
        after.off == before.off + RegionLift::covered(decoded),
        after.va == before.va + RegionLift::covered(decoded),
    ensures
        after.va == base + after.off,
        after.off > before.off,
{
}

// ─── The text section ───────────────────────────────────────────────────────

/// Two bytes at `i`, low byte first.
pub open spec fn le16(b: Seq<u8>, i: int) -> int {
    b[i] + b[i + 1] * 0x100
}

/// Four bytes at `i`, low byte first.
pub open spec fn le32(b: Seq<u8>, i: int) -> int {
    le16(b, i) + le16(b, i + 2) * 0x1_0000
}

/// Eight bytes at `i`, low byte first.
pub open spec fn le64(b: Seq<u8>, i: int) -> int {
    le32(b, i) + le32(b, i + 4) * 0x1_0000_0000
}

/// Offset of the PE signature.
pub open spec fn signature_at(b: Seq<u8>) -> int {
    le32(b, 0x3c)
}

/// The file holds a PE signature and a COFF header.
pub open spec fn has_signature(b: Seq<u8>) -> bool {
    let e = signature_at(b);
    &&& b.len() >= 0x40
    &&& e + 24 <= b.len()
    &&& b[e] == 0x50
    &&& b[e + 1] == 0x45
    &&& b[e + 2] == 0
    &&& b[e + 3] == 0
}

/// The machine is x86-64.
pub open spec fn is_wide(b: Seq<u8>) -> bool {
    le16(b, signature_at(b) + 4) == 0x8664
}

/// The optional header reaches as far as the low half of the image base.
pub open spec fn has_base(b: Seq<u8>) -> bool {
    signature_at(b) + 24 + (if is_wide(b) {
        0x18int
    } else {
        0x10int
    }) + 4 <= b.len()
}

/// The preferred load address.
pub open spec fn image_base(b: Seq<u8>) -> int {
    if is_wide(b) {
        le64(b, signature_at(b) + 24 + 0x18)
    } else {
        le32(b, signature_at(b) + 24 + 0x10)
    }
}

/// Offset of section header `i`.
pub open spec fn section_at(b: Seq<u8>, i: int) -> int {
    signature_at(b) + 24 + le16(b, signature_at(b) + 20) + i * 40
}

/// The name of the section header at `sh` starts with `.text`.
pub open spec fn named_text(b: Seq<u8>, sh: int) -> bool {
    b[sh] == 0x2e && b[sh + 1] == 0x74 && b[sh + 2] == 0x65 && b[sh + 3] == 0x78 && b[sh + 4] == 0x74
}

/// The first text section from header `i` on, up to the first header that does not fit.
pub open spec fn text_from(b: Seq<u8>, i: int) -> Option<(u64, u64, usize, usize)>
    decreases le16(b, signature_at(b) + 6) - i,
{
    let sh = section_at(b, i);
    if i < 0 || i >= le16(b, signature_at(b) + 6) || sh + 40 > b.len() {
        None
    } else if named_text(b, sh) {
        Some(
            (
                image_base(b) as u64,
                le32(b, sh + 12) as u64,
                le32(b, sh + 20) as usize,
                le32(b, sh + 16) as usize,
            ),
        )
    } else {
        text_from(b, i + 1)
    }
}

/// Image base, address, file offset and file size of the text section.
pub open spec fn text_section(b: Seq<u8>) -> Option<(u64, u64, usize, usize)> {
    if has_signature(b) && has_base(b) {
        text_from(b, 0)
    } else {
        None
    }
}

fn read16(b: &[u8], i: usize) -> (r: u16)
    requires
        i + 2 <= b@.len(),
    ensures
        r == le16(b@, i as int),
{
    b[i] as u16 + b[i + 1] as u16 * 0x100
}

fn read32(b: &[u8], i: usize) -> (r: u32)
    requires
        i + 4 <= b@.len(),
    ensures
        r == le32(b@, i as int),
{
    let n: usize = b.len();
    assert(i + 4 <= n);
    read16(b, i) as u32 + read16(b, i + 2) as u32 * 0x1_0000
}

fn read64(b: &[u8], i: usize) -> (r: u64)
    requires
        i + 8 <= b@.len(),
    ensures
        r == le64(b@, i as int),
{
    let n: usize = b.len();
    assert(i + 8 <= n);
    read32(b, i) as u64 + read32(b, i + 4) as u64 * 0x1_0000_0000
}

/// Locate the text section of a PE file.
///
/// Returns its image base, its address, its offset in the file and its size there.
pub fn locate_text_section(bytes: &[u8]) -> (r: Option<(u64, u64, usize, usize)>)
    requires
        has_signature(bytes@) && has_base(bytes@) && is_wide(bytes@) ==> signature_at(bytes@) + 24
            + 0x20 <= bytes@.len(),
    ensures
        r == text_section(bytes@),
{
    if bytes.len() < 0x40 {
        return None;
    }
    let e64: u64 = read32(bytes, 0x3c) as u64;
    if e64 + 24 > bytes.len() as u64 {
        return None;
    }
    let e: usize = e64 as usize;
    if bytes[e] != 0x50 || bytes[e + 1] != 0x45 || bytes[e + 2] != 0 || bytes[e + 3] != 0 {
        return None;
    }
    let coff: usize = e + 4;
    let num_sections: u16 = read16(bytes, coff + 2);
    let opt_header_size: u16 = read16(bytes, coff + 16);
    let is_pe32plus = read16(bytes, coff) == 0x8664;
    let opt_off: usize = coff + 20;
    let base_off: u64 = if is_pe32plus {
        0x18
    } else {
        0x10
    };
    if opt_off as u64 + base_off + 4 > bytes.len() as u64 {
        return None;
    }
    let base: u64 = if is_pe32plus {
        read64(bytes, opt_off + 0x18)
    } else {
        read32(bytes, opt_off + 0x10) as u64
    };
    let mut i: u16 = 0;
    while i < num_sections
        invariant
            i <= num_sections,
            num_sections == le16(bytes@, signature_at(bytes@) + 6),
            opt_header_size == le16(bytes@, signature_at(bytes@) + 20),
            has_signature(bytes@),
            has_base(bytes@),
            opt_off == signature_at(bytes@) + 24,
            opt_off <= bytes@.len(),
            base == image_base(bytes@),
            text_from(bytes@, i as int) == text_section(bytes@),
        decreases num_sections - i,
    {
        let at: u64 = opt_off as u64 + opt_header_size as u64 + i as u64 * 40;
        assert(at == section_at(bytes@, i as int));
        if at + 40 > bytes.len() as u64 {
            return None;
        }
        let sh: usize = at as usize;
        if bytes[sh] == 0x2e && bytes[sh + 1] == 0x74 && bytes[sh + 2] == 0x65 && bytes[sh + 3] == 0x78
            && bytes[sh + 4] == 0x74 {
            let virtual_address: u64 = read32(bytes, sh + 12) as u64;
            let raw_offset: usize = read32(bytes, sh + 20) as usize;
            let raw_size: usize = read32(bytes, sh + 16) as usize;
            return Some((base, virtual_address, raw_offset, raw_size));
        }
        i += 1;
    }
    None
}

} // verus!
