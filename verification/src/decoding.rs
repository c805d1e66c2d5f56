//! Laws of reading an image and its instructions.

use vstd::prelude::*;
use crate::lift::{instrs_from, le16, le32, le64, named_text, section_at, signature_at, text_from, text_section, InstrView};
use crate::program::CodeIndex;

verus! {

/// The number that bytes stand for, the low one first.
pub open spec fn little(s: Seq<u8>) -> int
    decreases s.len(),
{
    if s.len() == 0 {
        0
    } else {
        s[0] + 0x100 * little(s.skip(1))
    }
}

/// Numbers are read with the low byte first.
pub proof fn law_numbers_are_little_endian(b: Seq<u8>, i: int)
    requires
        0 <= i,
        i + 8 <= b.len(),
    ensures
        le16(b, i) == little(b.subrange(i, i + 2)),
        le32(b, i) == little(b.subrange(i, i + 4)),
        le64(b, i) == little(b.subrange(i, i + 8)),
{
    reveal_with_fuel(little, 9);
    let s = b.subrange(i, i + 8);
    assert(b.subrange(i, i + 2).skip(1) =~= b.subrange(i + 1, i + 2));
    assert(b.subrange(i + 1, i + 2).skip(1) =~= Seq::<u8>::empty());
    assert(b.subrange(i, i + 4).skip(1) =~= b.subrange(i + 1, i + 4));
    assert(b.subrange(i + 1, i + 4).skip(1) =~= b.subrange(i + 2, i + 4));
    assert(b.subrange(i + 2, i + 4).skip(1) =~= b.subrange(i + 3, i + 4));
    assert(b.subrange(i + 3, i + 4).skip(1) =~= Seq::<u8>::empty());
    assert(s.skip(1) =~= b.subrange(i + 1, i + 8));
    assert(b.subrange(i + 1, i + 8).skip(1) =~= b.subrange(i + 2, i + 8));
    assert(b.subrange(i + 2, i + 8).skip(1) =~= b.subrange(i + 3, i + 8));
    assert(b.subrange(i + 3, i + 8).skip(1) =~= b.subrange(i + 4, i + 8));
    assert(b.subrange(i + 4, i + 8).skip(1) =~= b.subrange(i + 5, i + 8));
    assert(b.subrange(i + 5, i + 8).skip(1) =~= b.subrange(i + 6, i + 8));
    assert(b.subrange(i + 6, i + 8).skip(1) =~= b.subrange(i + 7, i + 8));
    assert(b.subrange(i + 7, i + 8).skip(1) =~= Seq::<u8>::empty());
}

/// The header at `sh` is that of a section whose name begins with `.text`.
pub open spec fn text_header(b: Seq<u8>, sh: int) -> bool {
    b.subrange(sh, sh + 5) == seq![0x2eu8, 0x74u8, 0x65u8, 0x78u8, 0x74u8]
}

proof fn lemma_named(b: Seq<u8>, sh: int)
    requires
        0 <= sh,
        sh + 40 <= b.len(),
    ensures
        named_text(b, sh) == text_header(b, sh),
{
    let s = b.subrange(sh, sh + 5);
    let t = seq![0x2eu8, 0x74u8, 0x65u8, 0x78u8, 0x74u8];
    if named_text(b, sh) {
        assert(s =~= t);
    }
    if text_header(b, sh) {
        assert(s[0] == t[0] && s[1] == t[1] && s[2] == t[2] && s[3] == t[3] && s[4] == t[4]);
    }
}

/// Header `k` is the first one from `i` on of a section named so, and these are its address, its
/// place in the file and its size there.
pub open spec fn first_text(b: Seq<u8>, i: int, k: int, va: u64, offset: usize, size: usize) -> bool {
    let sh = section_at(b, k);
    &&& i <= k < le16(b, signature_at(b) + 6)
    &&& sh + 40 <= b.len()
    &&& text_header(b, sh)
    &&& forall|j: int| i <= j < k ==> !#[trigger] text_header(b, section_at(b, j))
    &&& va == little(b.subrange(sh + 12, sh + 16)) as u64
    &&& size == little(b.subrange(sh + 16, sh + 20)) as usize
    &&& offset == little(b.subrange(sh + 20, sh + 24)) as usize
}

proof fn lemma_text_from(b: Seq<u8>, i: int)
    requires
        0 <= i,
        b.len() >= 0x40,
        signature_at(b) + 24 <= b.len(),
    ensures
        text_from(b, i) matches Some((_, va, offset, size)) ==> exists|k: int| #[trigger]
            first_text(b, i, k, va, offset, size),
    decreases le16(b, signature_at(b) + 6) - i,
{
    let sh = section_at(b, i);
    if i < le16(b, signature_at(b) + 6) && sh + 40 <= b.len() {
        assert(sh >= 0);
        lemma_named(b, sh);
        if let Some((base, va, offset, size)) = text_from(b, i) {
            if named_text(b, sh) {
                law_numbers_are_little_endian(b, sh + 12);
                law_numbers_are_little_endian(b, sh + 16);
                law_numbers_are_little_endian(b, sh + 20);
                assert(first_text(b, i, i, va, offset, size));
            } else {
                lemma_text_from(b, i + 1);
                let k = choose|k: int| #[trigger] first_text(b, i + 1, k, va, offset, size);
                assert(first_text(b, i, k, va, offset, size));
            }
        }
    }
}

/// The text section that is found is the first one of that name: its address, its size in the
/// file and its place there are the second, the third and the fourth number behind the name.
pub proof fn law_text_section(b: Seq<u8>)
    ensures
        text_section(b) matches Some((_, va, offset, size)) ==> exists|k: int| #[trigger]
            first_text(b, 0, k, va, offset, size),
{
    if text_section(b) is Some {
        lemma_text_from(b, 0);
    }
}

// ─── Instructions ───────────────────────────────────────────────────────────

/// The index has the instruction, under its address and with its bytes, and `next` behind it.
pub open spec fn indexed(index: CodeIndex, x: InstrView, next: u64) -> bool {
    exists|i: int|
        0 <= i < index.instrs@.len() && (#[trigger] index.instrs@[i]).va == x.va && index.instrs@[i].bytes@ == x.bytes
            && index.instrs@[i].next_ip == next
}

/// The index has the instruction.
pub open spec fn known(index: CodeIndex, x: InstrView) -> bool {
    exists|next: u64| #[trigger] indexed(index, x, next)
}

/// The instruction at position `k` is known, and the next one stands right behind it; none comes
/// behind the one at `exit`.
pub open spec fn linked(index: CodeIndex, r: Seq<InstrView>, k: int, exit: u64) -> bool {
    &&& known(index, r[k])
    &&& k + 1 < r.len() ==> indexed(index, r[k], r[k + 1].va) && r[k].va < r[k + 1].va && r[k].va != exit
}

/// From position `n` on, the instructions follow one another.
pub open spec fn followed(index: CodeIndex, r: Seq<InstrView>, n: int, exit: u64) -> bool {
    forall|k: int| n <= k < r.len() ==> #[trigger] linked(index, r, k, exit)
}

proof fn lemma_position(index: CodeIndex, va: u64, i: int)
    requires
        0 <= i <= index.instrs@.len(),
    ensures
        index.position_from(va, i) matches Some(p) ==> 0 <= p < index.instrs@.len() && index.instrs@[p].va == va,
    decreases index.instrs@.len() - i,
{
    if i < index.instrs@.len() {
        lemma_position(index, va, i + 1);
    }
}

proof fn lemma_instrs_from(index: CodeIndex, va: u64, exit: u64, acc: Seq<InstrView>)
    ensures
        ({
            let r = instrs_from(index, va, exit, acc);
            &&& acc.is_prefix_of(r)
            &&& followed(index, r, acc.len() as int, exit)
            &&& r.len() > acc.len() ==> r[acc.len() as int].va == va
        }),
    decreases u64::MAX - va,
{
    lemma_position(index, va, 0);
    if let Some(i) = index.position(va) {
        let x = InstrView { va, bytes: index.instrs@[i].bytes@ };
        let here = acc.push(x);
        let next = index.instrs@[i].next_ip;
        let n = acc.len() as int;
        assert(index.instrs@[i].va == x.va);
        assert(indexed(index, x, next));
        let r = instrs_from(index, va, exit, acc);
        if va == exit || next <= va {
            assert(r == here);
            assert(acc.is_prefix_of(r));
            assert forall|k: int| n <= k < r.len() implies #[trigger] linked(index, r, k, exit) by {
                assert(r[k] == x);
            }
        } else {
            lemma_instrs_from(index, next, exit, here);
            assert(r == instrs_from(index, next, exit, here));
            assert(r[n] == here[n]);
            assert(acc.is_prefix_of(r)) by {
                assert forall|k: int| 0 <= k < acc.len() implies #[trigger] r[k] == acc[k] by {
                    assert(here[k] == acc[k]);
                }
                assert(r.subrange(0, acc.len() as int) =~= acc);
            }
            assert forall|k: int| n <= k < r.len() implies #[trigger] linked(index, r, k, exit) by {
                if k == n {
                    assert(r[k] == x);
                }
            }
        }
    } else {
        assert(acc.is_prefix_of(acc));
    }
}

/// The instructions of a block follow one another in the index, from its entry on, and end at
/// its exit or where the index knows no more.
pub proof fn law_instructions_follow(index: CodeIndex, entry: u64, exit: u64)
    ensures
        followed(index, instrs_from(index, entry, exit, Seq::empty()), 0, exit),
        instrs_from(index, entry, exit, Seq::empty()).len() > 0 ==> instrs_from(index, entry, exit, Seq::empty())[0].va
            == entry,
{
    lemma_instrs_from(index, entry, exit, Seq::empty());
}

} // verus!
