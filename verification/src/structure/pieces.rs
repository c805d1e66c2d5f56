//! What is kept of an expression when it is taken apart or shortened.

use vstd::prelude::*;
use crate::lines::join;
use crate::structure::predicate::{byte_chars, pieces, pieces_from, relation, relation_from, relational_core, uncommented, uncommented_from};
use crate::text::{after, before, first_piece, last_piece, trim, trim_end, trim_start};
use crate::wording::{law_pieces, occurs, without};

verus! {

/// `x` stands in `t` at or behind `lo`, and before `hi`.
pub open spec fn stands_within(t: Seq<char>, x: Seq<char>, lo: int, hi: int) -> bool {
    exists|i: int| lo <= i && i + x.len() <= hi && #[trigger] occurs(t, x, i)
}

/// A comparison operator.
pub open spec fn compares(op: Seq<char>) -> bool {
    op == "<="@ || op == ">="@ || op == "=="@ || op == "!="@ || op == "<"@ || op == ">"@
}

/// `rel` is a comparison that stands in `s` at position `i`: its operator is there, its left side
/// before and its right side behind.
pub open spec fn taken_out(s: Seq<char>, rel: Seq<char>, i: int, op: Seq<char>, left: Seq<char>, right: Seq<char>) -> bool {
    &&& compares(op)
    &&& occurs(s, op, i)
    &&& rel == left + " "@ + op + " "@ + right
    &&& left.len() > 0 && stands_within(s, left, 0, i)
    &&& right.len() > 0 && stands_within(s, right, i + op.len(), s.len() as int)
}

proof fn lemma_part(t: Seq<char>, lo: int, hi: int)
    requires
        0 <= lo <= hi <= t.len(),
    ensures
        occurs(t, t.subrange(lo, hi), lo),
{
}

/// Trimming leaves a part of the text.
proof fn lemma_trim_part(t: Seq<char>)
    ensures
        exists|lo: int, hi: int| 0 <= lo <= hi <= t.len() && trim(t) == #[trigger] t.subrange(lo, hi),
        exists|lo: int| 0 <= lo <= t.len() && trim_start(t) == #[trigger] t.subrange(lo, t.len() as int),
        exists|hi: int| 0 <= hi <= t.len() && trim_end(t) == #[trigger] t.subrange(0, hi),
{
    let s = trim_start(t);
    let a = crate::text::ws_end(t, 0);
    crate::wording::lemma_ws_end(t, 0);
    crate::wording::lemma_ws_start(s, s.len() as int);
    crate::wording::lemma_ws_start(t, t.len() as int);
    let b = crate::text::ws_start(s, s.len() as int);
    assert(trim(t) =~= t.subrange(a, a + b));
    assert(s =~= t.subrange(a, t.len() as int));
    assert(trim_end(t) =~= t.subrange(0, crate::text::ws_start(t, t.len() as int)));
}

proof fn lemma_relation(s: Seq<char>, i: int, op: Seq<char>)
    requires
        0 <= i < s.len(),
        compares(op),
    ensures
        relation(s, i, op) matches Some(rel) ==> exists|left: Seq<char>, right: Seq<char>| #[trigger]
            taken_out(s, rel, i, op, left, right),
{
    if relation(s, i, op) is Some {
        let rel = relation(s, i, op)->0;
        crate::wording::lemma_at(s, op, i);
        let head = before(s, i);
        let he = trim_end(head);
        let lp = last_piece(he, "(, "@);
        let left = trim(lp);
        lemma_trim_part(head);
        lemma_trim_part(lp);
        law_pieces(he, "(, "@);
        let h1 = choose|hi: int| 0 <= hi <= head.len() && he == #[trigger] head.subrange(0, hi);
        let (l1, l2) = choose|lo: int, hi: int| 0 <= lo <= hi <= lp.len() && left == #[trigger] lp.subrange(lo, hi);
        let off = he.len() - lp.len();
        assert(left =~= s.subrange(off + l1, off + l2)) by {
            assert(he.skip(off) == lp);
            assert forall|k: int| 0 <= k < left.len() implies #[trigger] left[k] == s.subrange(off + l1, off + l2)[k] by {
                assert(left[k] == lp[l1 + k]);
                assert(he.skip(off)[l1 + k] == he[off + l1 + k]);
                assert(he[off + l1 + k] == head[off + l1 + k]);
            }
        }
        lemma_part(s, off + l1, off + l2);
        assert(stands_within(s, left, 0, i));
        let start = i + op.len();
        let tail = after(s, start);
        let ts = trim_start(tail);
        let fp = first_piece(ts, "), "@);
        let right = trim(fp);
        lemma_trim_part(tail);
        lemma_trim_part(fp);
        law_pieces(ts, "), "@);
        let t1 = choose|lo: int| 0 <= lo <= tail.len() && ts == #[trigger] tail.subrange(lo, tail.len() as int);
        let (r1, r2) = choose|lo: int, hi: int| 0 <= lo <= hi <= fp.len() && right == #[trigger] fp.subrange(lo, hi);
        assert(right =~= s.subrange(start + t1 + r1, start + t1 + r2)) by {
            assert forall|k: int| 0 <= k < right.len() implies #[trigger] right[k] == s.subrange(
                start + t1 + r1,
                start + t1 + r2,
            )[k] by {
                assert(right[k] == fp[r1 + k]);
                assert(fp[r1 + k] == ts[r1 + k]);
                assert(ts[r1 + k] == tail[t1 + r1 + k]);
            }
        }
        lemma_part(s, start + t1 + r1, start + t1 + r2);
        assert(stands_within(s, right, start, s.len() as int));
        assert(taken_out(s, rel, i, op, left, right));
    }
}

proof fn lemma_relation_from(s: Seq<char>, i: int, depth: int)
    requires
        0 <= i <= s.len(),
    ensures
        relation_from(s, i, depth) matches Some(rel) ==> exists|p: int, op: Seq<char>, left: Seq<char>, right: Seq<char>| #[trigger]
            taken_out(s, rel, p, op, left, right),
    decreases s.len() - i,
{
    if i < s.len() {
        lemma_relation(s, i, "<="@);
        lemma_relation(s, i, ">="@);
        lemma_relation(s, i, "=="@);
        lemma_relation(s, i, "!="@);
        lemma_relation(s, i, "<"@);
        lemma_relation(s, i, ">"@);
        lemma_relation_from(s, i + 1, depth + crate::structure::predicate::nesting(s[i]));
    }
}

/// The comparison that is taken out of a condition is one that it makes: the operator stays, and
/// so do its sides and their order.
pub proof fn law_comparison_is_taken_out(s: Seq<char>)
    ensures
        relational_core(s) matches Some(rel) ==> exists|p: int, op: Seq<char>, left: Seq<char>, right: Seq<char>| #[trigger]
            taken_out(s, rel, p, op, left, right),
{
    lemma_relation_from(s, 0, 0);
}

/// A text without a comment, all of ASCII characters, is left as it is.
pub proof fn law_uncommented_stays(t: Seq<char>)
    requires
        forall|i: int| 0 <= i < t.len() ==> (#[trigger] t[i] as u32) < 0x80,
        forall|i: int| 0 <= i < t.len() - 1 ==> !(#[trigger] t[i] == '/' && t[i + 1] == '*'),
    ensures
        uncommented(t) == t,
{
    assert(t.take(0) =~= Seq::<char>::empty());
    lemma_uncommented(t, 0);
}

proof fn lemma_uncommented(t: Seq<char>, i: int)
    requires
        0 <= i <= t.len(),
        forall|i: int| 0 <= i < t.len() ==> (#[trigger] t[i] as u32) < 0x80,
        forall|i: int| 0 <= i < t.len() - 1 ==> !(#[trigger] t[i] == '/' && t[i + 1] == '*'),
    ensures
        uncommented_from(t, i, t.take(i)) == t,
    decreases t.len() - i,
{
    if i < t.len() {
        assert((t[i] as u32) < 0x80);
        assert(byte_chars(t[i]) =~= seq![t[i]]);
        assert(t.take(i) + seq![t[i]] =~= t.take(i + 1));
        lemma_uncommented(t, i + 1);
    } else {
        assert(t.take(i) =~= t);
    }
}

proof fn lemma_pieces_from(t: Seq<char>, c: char, start: int, i: int, acc: Seq<Seq<char>>)
    requires
        0 <= start <= i <= t.len(),
        forall|j: int| start <= j < i ==> #[trigger] t[j] != c,
        forall|k: int| 0 <= k < acc.len() ==> without(#[trigger] acc[k], c),
        acc.len() == 0 ==> start == 0,
        acc.len() > 0 ==> join(acc, seq![c]) + seq![c] == t.take(start),
    ensures
        ({
            let r = pieces_from(t, c, start, i, acc);
            &&& r.len() > 0
            &&& join(r, seq![c]) == t
            &&& forall|k: int| 0 <= k < r.len() ==> without(#[trigger] r[k], c)
        }),
    decreases t.len() - i,
{
    let cut = t.subrange(start, i);
    let r = acc.push(cut);
    assert(r.drop_last() =~= acc);
    assert(without(cut, c)) by {
        assert forall|k: int| 0 <= k < cut.len() implies #[trigger] cut[k] != c by {
            assert(cut[k] == t[start + k]);
        }
    }
    assert(join(r, seq![c]) =~= t.take(i)) by {
        if acc.len() > 0 {
            assert(join(acc, seq![c]) + seq![c] + cut =~= t.take(i));
        } else {
            assert(cut =~= t.take(i));
        }
    }
    if i >= t.len() {
        assert(t.take(i) =~= t);
    } else if t[i] == c {
        assert(t.take(i) + seq![c] =~= t.take(i + 1));
        lemma_pieces_from(t, c, i + 1, i + 1, r);
    } else {
        lemma_pieces_from(t, c, start, i + 1, acc);
    }
}

/// The pieces of a text, joined by what they were cut at, are the text, and no piece holds it.
pub proof fn law_pieces_join(t: Seq<char>, c: char)
    ensures
        join(pieces(t, c), seq![c]) == t,
        forall|k: int| 0 <= k < pieces(t, c).len() ==> without(#[trigger] pieces(t, c)[k], c),
{
    lemma_pieces_from(t, c, 0, 0, Seq::empty());
}

} // verus!
