//! What is read out of printed tests, and what returned values stand for.

use vstd::prelude::*;
use pcode_ir::{PcodeOp, Varnode};
use crate::lines::compact;
use crate::numbers::{dec, hex, law_numbers_read_back, prefixed_hex};
use crate::ssa::{SsaBlock, SsaOp, SsaOpKind, SsaVar};
use crate::structure::expr::operand_text;
use crate::structure::ladder::{behind, behind_value, difference_label, equality_label, from_on, label_of_test, literal, subtracted, tested, up_to};
use crate::structure::names::Names;
use crate::structure::return_value::{compare_step, compared_from, copied_code, equality_return, large_difference, subtraction_before, Compared};
use crate::text::{after, before, cut_prefix, find, find_any, strip_end, strip_start, ws};
use crate::wording::{law_find_is_first, law_pieces, law_strip_and_cut, occurs};

verus! {

// ─── Numbers ────────────────────────────────────────────────────────────────

/// A digit, decimal or hexadecimal.
pub open spec fn digital(c: char) -> bool {
    ('0' <= c && c <= '9') || ('a' <= c && c <= 'f')
}

proof fn lemma_dec_digits(n: nat)
    ensures
        dec(n).len() > 0,
        forall|i: int| 0 <= i < dec(n).len() ==> '0' <= #[trigger] dec(n)[i] && dec(n)[i] <= '9',
    decreases n,
{
    if n >= 10 {
        lemma_dec_digits(n / 10);
    }
}

proof fn lemma_hex_digits(n: nat)
    ensures
        hex(n).len() > 0,
        forall|i: int| 0 <= i < hex(n).len() ==> digital(#[trigger] hex(n)[i]),
    decreases n,
{
    if n >= 16 {
        lemma_hex_digits(n / 16);
    }
}

proof fn lemma_strip_nothing(t: Seq<char>, set: Seq<char>)
    requires
        t.len() > 0,
        !set.contains(t[0]),
        !set.contains(t.last()),
    ensures
        strip_start(t, set) == t,
        strip_end(t, set) == t,
{
    law_strip_and_cut(t, set, Seq::empty());
    let s = strip_start(t, set);
    if s.len() < t.len() {
        assert(set.contains(t[0]));
    }
    assert(t.skip(0) =~= t);
    let e = strip_end(t, set);
    if e.len() < t.len() {
        assert(set.contains(t[t.len() - 1]));
    }
    assert(e =~= t);
}

/// A number reads as itself, in decimal and in hexadecimal.
pub proof fn law_literals(n: nat)
    requires
        n <= i64::MAX,
    ensures
        literal(dec(n)) == Some(n as int),
        literal(prefixed_hex(n)) == Some(n as int),
{
    reveal_strlit("()");
    reveal_strlit("0x");
    reveal_strlit("0X");
    lemma_dec_digits(n);
    lemma_hex_digits(n);
    law_numbers_read_back(n, n as int);
    let d = dec(n);
    assert(d.last() == d[d.len() - 1]);
    lemma_strip_nothing(d, "()"@);
    law_strip_and_cut(d, Seq::empty(), "0x"@);
    law_strip_and_cut(d, Seq::empty(), "0X"@);
    if cut_prefix(d, "0x"@) is Some {
        assert(d[1] == 'x');
    }
    if cut_prefix(d, "0X"@) is Some {
        assert(d[1] == 'X');
    }
    assert(d.skip(0) =~= d);
    let h = prefixed_hex(n);
    assert(h[0] == '0' && h.last() == hex(n).last());
    assert(hex(n).last() == hex(n)[hex(n).len() - 1]);
    lemma_strip_nothing(h, "()"@);
    law_strip_and_cut(h, Seq::empty(), "0x"@);
    assert(occurs(h, "0x"@, 0));
    let rest = cut_prefix(h, "0x"@)->0;
    assert(rest =~= hex(n)) by {
        assert(h == "0x"@ + rest);
        assert(h.skip(2) =~= rest);
        assert(h.skip(2) =~= hex(n));
    }
    assert(hex(n).skip(0) =~= hex(n));
}

// ─── Labels of tests ────────────────────────────────────────────────────────

/// A value as a test may hold it: no blank, no sign that ends it, and no parenthesis or star
/// before it.
pub open spec fn plain_value(s: Seq<char>) -> bool {
    &&& s.len() > 0
    &&& s[0] != '(' && s[0] != '*'
    &&& forall|i: int| 0 <= i < s.len() ==> !ws(#[trigger] s[i]) && s[i] != '='
}

proof fn lemma_compact_plain(s: Seq<char>)
    requires
        forall|i: int| 0 <= i < s.len() ==> !ws(#[trigger] s[i]),
    ensures
        compact(s) == s,
    decreases s.len(),
{
    if s.len() > 0 {
        lemma_compact_plain(s.drop_last());
        assert(!ws(s[s.len() - 1]));
        assert(s.drop_last().push(s.last()) =~= s);
    }
}

proof fn lemma_first_at(t: Seq<char>, x: Seq<char>, p: int)
    requires
        occurs(t, x, p),
        forall|j: int| 0 <= j < p ==> !#[trigger] occurs(t, x, j),
    ensures
        find(t, x) == Some(p),
{
    law_find_is_first(t, x);
    if let Some(q) = find(t, x) {
        if q < p {
            assert(!occurs(t, x, q));
        } else if p < q {
            assert(!occurs(t, x, p));
        }
    } else {
        assert(!occurs(t, x, p));
    }
}

proof fn lemma_up_to(d: Seq<char>, rest: Seq<char>, set: Seq<char>)
    requires
        rest.len() > 0,
        set.contains(rest[0]),
        forall|i: int| 0 <= i < d.len() ==> !set.contains(#[trigger] d[i]),
    ensures
        up_to(d + rest, set) == d,
        from_on(d + rest, set) == rest,
{
    let t = d + rest;
    law_pieces(t, set);
    let a = crate::text::first_piece(t, set);
    assert(a == up_to(t, set));
    if a.len() < d.len() {
        assert(t[a.len() as int] == d[a.len() as int]);
    }
    if a.len() > d.len() {
        assert(a[d.len() as int] == t[d.len() as int]);
        assert(t[d.len() as int] == rest[0]);
    }
    assert(a =~= d);
    assert(find_any(t, set) is Some) by {
        if find_any(t, set) is None {
            assert(a == t);
        }
    }
    let p = find_any(t, set)->0;
    crate::wording::lemma_find_any(t, set, 0);
    assert(before(t, p).len() == p);
    assert(after(t, p) =~= rest);
}

proof fn lemma_cut(x: Seq<char>, rest: Seq<char>)
    ensures
        cut_prefix(x + rest, x) == Some(rest),
{
    law_strip_and_cut(x + rest, Seq::empty(), x);
    assert(occurs(x + rest, x, 0));
    let r = cut_prefix(x + rest, x)->0;
    assert((x + r).skip(x.len() as int) =~= r);
    assert((x + rest).skip(x.len() as int) =~= rest);
}

proof fn lemma_unstripped(t: Seq<char>, set: Seq<char>)
    requires
        t.len() > 0,
        !set.contains(t[0]),
    ensures
        strip_start(t, set) == t,
{
    law_strip_and_cut(t, set, Seq::empty());
    if strip_start(t, set).len() < t.len() {
        assert(set.contains(t[0]));
    }
    assert(t.skip(0) =~= t);
}

proof fn lemma_tested(rest: Seq<char>)
    requires
        rest.len() > 0,
        rest[0] != '(',
    ensures
        tested("if("@ + rest) == Some(rest),
{
    reveal_strlit("(");
    lemma_cut("if("@, rest);
    lemma_unstripped(rest, "("@);
}

proof fn lemma_behind(a: Seq<char>, x: Seq<char>, b: Seq<char>)
    requires
        forall|j: int| 0 <= j < a.len() ==> !#[trigger] occurs(a + x + b, x, j),
    ensures
        find(a + x + b, x) == Some(a.len() as int),
        behind(a + x + b, x) == Some(b),
{
    let t = a + x + b;
    assert(occurs(t, x, a.len() as int));
    lemma_first_at(t, x, a.len() as int);
    assert(after(t, a.len() as int + x.len()) =~= b);
}

proof fn lemma_number_ends(d: Seq<char>, k: nat, end: Seq<char>)
    requires
        d == dec(k),
        end.len() > 0,
        end[0] == ')' || end[0] == '=',
    ensures
        end[0] == ')' ==> up_to(d + end, "),&|"@) == d,
        up_to(d + end, ")=,"@) == d,
        from_on(d + end, ")=,"@) == end,
{
    reveal_strlit("),&|");
    reveal_strlit(")=,");
    lemma_dec_digits(k);
    assert("),&|"@[0] == ')');
    assert(")=,"@[0] == ')' && ")=,"@[1] == '=');
    assert forall|i: int| 0 <= i < d.len() implies !"),&|"@.contains(#[trigger] d[i]) && !")=,"@.contains(d[i]) by {
        assert('0' <= d[i] && d[i] <= '9');
    }
    assert(")=,"@.contains(end[0]));
    lemma_up_to(d, end, ")=,"@);
    if end[0] == ')' {
        assert("),&|"@.contains(end[0]));
        lemma_up_to(d, end, "),&|"@);
    }
}

/// The label of the test whether a value equals a number is the number.
pub proof fn law_equality_label(s: Seq<char>, k: nat)
    requires
        plain_value(s),
        k <= i64::MAX,
    ensures
        equality_label("if("@ + (s + "=="@ + (dec(k) + ")"@)), s) == Some(k as int),
{
    let n = dec(k) + ")"@;
    let rest = s + "=="@ + n;
    lemma_compact_plain(s);
    law_literals(k);
    assert(rest[0] == s[0]);
    lemma_tested(rest);
    assert(find(rest, s) == Some(0int)) by {
        assert(occurs(rest, s, 0));
        lemma_first_at(rest, s, 0);
    }
    assert(after(rest, 0) =~= rest);
    assert(behind(rest, "=="@) == Some(n)) by {
        reveal_strlit("==");
        assert forall|j: int| 0 <= j < s.len() implies !#[trigger] occurs(rest, "=="@, j) by {
            if occurs(rest, "=="@, j) {
                assert(rest[j + 0] == "=="@[0]);
                assert(rest[j] == s[j]);
            }
        }
        lemma_behind(s, "=="@, n);
    }
    assert(up_to(n, "),&|"@) == dec(k)) by {
        reveal_strlit(")");
        lemma_number_ends(dec(k), k, ")"@);
    }
}

/// The label of the test whether a value less a number is zero is the number.
pub proof fn law_difference_label(s: Seq<char>, k: nat)
    requires
        plain_value(s),
        k <= i64::MAX,
    ensures
        difference_label("if("@ + (s + ("-"@ + (dec(k) + "==0)"@))), s) == Some(k as int),
        label_of_test("if("@ + (s + ("-"@ + (dec(k) + "==0)"@))), s) == Some(k as int),
{
    let end = "==0)"@;
    let m = dec(k) + end;
    let t = "-"@ + m;
    let rest = s + t;
    lemma_compact_plain(s);
    law_literals(k);
    assert(rest[0] == s[0]);
    lemma_tested(rest);
    assert(find(rest, s) == Some(0int)) by {
        assert(occurs(rest, s, 0));
        lemma_first_at(rest, s, 0);
    }
    assert(after(rest, 0int + s.len()) =~= t);
    assert(behind_value(rest, s) == Some(t));
    assert(strip_start(t, ")"@) == t) by {
        reveal_strlit("-");
        reveal_strlit(")");
        lemma_unstripped(t, ")"@);
    }
    lemma_cut("-"@, m);
    assert(subtracted(m) == Some(k as int)) by {
        reveal_strlit("==0)");
        reveal_strlit("==0");
        lemma_number_ends(dec(k), k, end);
        lemma_compact_plain(end);
        assert(occurs(end, "==0"@, 0));
        lemma_first_at(end, "==0"@, 0);
    }
}

// ─── Returned values ────────────────────────────────────────────────────────

/// The varnode is a constant whose low half is the failure code `c`: its highest bit is set, and
/// its facility is zero.
pub open spec fn bears_code(n: Varnode, c: u64) -> bool {
    n.space is Const && c < 0x1_0000_0000 && (n.offset - c) % 0x1_0000_0000 == 0 && c / 0x1_0000 == 0x8000
}

/// A failure code that a block returns is one that it copies before it returns.
pub proof fn law_copied_code(ops: Seq<SsaOp>, i: int)
    requires
        0 <= i <= ops.len(),
    ensures
        copied_code(ops, i) matches Some(c) ==> exists|j: int|
            i <= j < ops.len() && ((#[trigger] ops[j]).kind matches SsaOpKind::Pcode(PcodeOp::Copy { input, .. })
                && bears_code(input, c)) && forall|k: int|
                i <= k <= j ==> !((#[trigger] ops[k]).kind matches SsaOpKind::Pcode(PcodeOp::Return { .. })),
    decreases ops.len() - i,
{
    if i < ops.len() && copied_code(ops, i) is Some {
        let c = copied_code(ops, i)->0;
        let here = match ops[i].kind {
            SsaOpKind::Pcode(PcodeOp::Copy { input, .. }) => crate::structure::return_value::failure_code(input) is Some,
            _ => false,
        };
        if here {
            assert(ops[i].kind matches SsaOpKind::Pcode(PcodeOp::Copy { input, .. }) && bears_code(input, c));
        } else {
            law_copied_code(ops, i + 1);
            let j = choose|j: int|
                i + 1 <= j < ops.len() && ((#[trigger] ops[j]).kind matches SsaOpKind::Pcode(PcodeOp::Copy { input, .. })
                    && bears_code(input, c)) && forall|k: int|
                    i + 1 <= k <= j ==> !((#[trigger] ops[k]).kind matches SsaOpKind::Pcode(PcodeOp::Return { .. }));
            assert(ops[j].kind matches SsaOpKind::Pcode(PcodeOp::Copy { input, .. }) && bears_code(input, c));
        }
    }
}

/// The operation subtracts the constant `imm`, beyond a byte, from what is printed as `lhs`.
pub open spec fn subtracts(op: SsaOp, inline: Map<SsaVar, Seq<char>>, names: Names, lhs: Seq<char>, imm: u64) -> bool {
    op.kind matches SsaOpKind::Pcode(PcodeOp::IntSub { left, right, .. }) && right.space is Const && right.offset == imm && imm
        > 0xff && lhs == operand_text(left, op.uses@, inline, names, op.va)
}

/// Some operation before `n` makes the difference that is remembered.
spec fn remembered(ops: Seq<SsaOp>, n: int, st: Compared, inline: Map<SsaVar, Seq<char>>, names: Names) -> bool {
    st.last matches Some((lhs, imm)) ==> exists|j: int|
        0 <= j < n && #[trigger] subtracts(ops[j], inline, names, lhs, imm)
}

proof fn lemma_subtraction_before(ops: Seq<SsaOp>, v: Varnode, n: int, k: nat)
    requires
        0 <= n <= ops.len(),
    ensures
        subtraction_before(ops, v, n, k) matches Some(j) ==> 0 <= j < n,
    decreases k,
{
    if k > 0 && n > 0 {
        lemma_subtraction_before(ops, v, n - 1, (k - 1) as nat);
    }
}

proof fn lemma_compared(ops: Seq<SsaOp>, i: int, st: Compared, inline: Map<SsaVar, Seq<char>>, names: Names)
    requires
        0 <= i <= ops.len(),
        remembered(ops, i, st, inline, names),
    ensures
        remembered(ops, ops.len() as int, compared_from(ops, i, st, inline, names), inline, names),
    decreases ops.len() - i,
{
    if st.last is Some {
        let (lhs, imm) = st.last->0;
        let j = choose|j: int| 0 <= j < i && #[trigger] subtracts(ops[j], inline, names, lhs, imm);
        assert(subtracts(ops[j], inline, names, lhs, imm));
    }
    if i < ops.len() {
        let next = compare_step(ops, i, st, inline, names);
        if let Some(v) = crate::structure::return_value::zero_tested(ops[i]) {
            lemma_subtraction_before(ops, v, i, 12);
        }
        assert(remembered(ops, i + 1, next, inline, names)) by {
            if next.last is Some {
                let (lhs, imm) = next.last->0;
                if next.last == st.last {
                    let j = choose|j: int| 0 <= j < i && #[trigger] subtracts(ops[j], inline, names, lhs, imm);
                    assert(subtracts(ops[j], inline, names, lhs, imm));
                } else if next.last == large_difference(ops[i], inline, names) {
                    assert(subtracts(ops[i], inline, names, lhs, imm));
                } else {
                    let v = crate::structure::return_value::zero_tested(ops[i])->0;
                    let j = subtraction_before(ops, v, i, 12)->0;
                    assert(next.last == large_difference(ops[j], inline, names));
                    assert(subtracts(ops[j], inline, names, lhs, imm));
                }
            }
        }
        lemma_compared(ops, i + 1, next, inline, names);
    }
}

/// A returned equality compares what the block subtracts a constant from with that constant, in
/// a block that calls nothing.
pub proof fn law_equality_return(block: SsaBlock, inline: Map<SsaVar, Seq<char>>, names: Names)
    ensures
        equality_return(block, inline, names) matches Some(t) ==> (exists|j: int, lhs: Seq<char>, imm: u64|
            0 <= j < block.ops@.len() && #[trigger] subtracts(block.ops@[j], inline, names, lhs, imm) && t == "("@ + lhs
                + " == "@ + "0x"@ + hex(imm as nat) + ")"@) && forall|i: int|
            0 <= i < block.ops@.len() ==> !((#[trigger] block.ops@[i]).kind matches SsaOpKind::Pcode(p) && (p matches PcodeOp::Call { .. }
                || p matches PcodeOp::CallInd { .. } || p matches PcodeOp::CallOther { .. })),
{
    let ops = block.ops@;
    let st = compared_from(ops, 0, Compared { last: None, from_flag: false, defs: 0 }, inline, names);
    lemma_compared(ops, 0, Compared { last: None, from_flag: false, defs: 0 }, inline, names);
    if let Some(t) = equality_return(block, inline, names) {
        let (lhs, imm) = st.last->0;
        let j = choose|j: int| 0 <= j < ops.len() && #[trigger] subtracts(ops[j], inline, names, lhs, imm);
        assert("("@ + lhs + " == "@ + prefixed_hex(imm as nat) + ")"@ =~= "("@ + lhs + " == "@ + "0x"@ + hex(imm as nat)
            + ")"@);
        assert(subtracts(block.ops@[j], inline, names, lhs, imm));
        assert forall|i: int| 0 <= i < ops.len() implies !((#[trigger] ops[i]).kind matches SsaOpKind::Pcode(p) && (p matches PcodeOp::Call { .. }
            || p matches PcodeOp::CallInd { .. } || p matches PcodeOp::CallOther { .. })) by {
            assert(!crate::structure::return_value::any_call(ops[i]));
        }
    }
}

} // verus!
