//! Lines, replacement and counting over character sequences.

use vstd::prelude::*;
use crate::text::{at, chars_of, deep, is_at, is_ws, new_items, push_char, push_item, push_text, slice_text, ws};

verus! {

// ─── Lines ──────────────────────────────────────────────────────────────────

/// `t` without one trailing carriage return.
pub open spec fn drop_cr(t: Seq<char>) -> Seq<char> {
    if t.len() > 0 && t.last() == '\r' {
        t.drop_last()
    } else {
        t
    }
}

/// The lines of `t` from `start` on, added to `acc`; no line break stands in `start..i`.
pub open spec fn lines_from(t: Seq<char>, start: int, i: int, acc: Seq<Seq<char>>) -> Seq<Seq<char>>
    decreases t.len() - i,
{
    if i < 0 || i >= t.len() {
        if start < t.len() {
            acc.push(t.subrange(start, t.len() as int))
        } else {
            acc
        }
    } else if t[i] == '\n' {
        lines_from(t, i + 1, i + 1, acc.push(drop_cr(t.subrange(start, i))))
    } else {
        lines_from(t, start, i + 1, acc)
    }
}

/// The lines of `t`: cut at each line feed, a carriage return before it dropped,
/// with no last empty line after a closing line feed.
pub open spec fn lines(t: Seq<char>) -> Seq<Seq<char>> {
    lines_from(t, 0, 0, Seq::empty())
}

pub fn lines_of(t: &Vec<char>) -> (r: Vec<Vec<char>>)
    ensures
        deep(r@) == lines(t@),
{
    let mut out = new_items();
    let mut start: usize = 0;
    let mut i: usize = 0;
    while i < t.len()
        invariant
            start <= i <= t@.len(),
            lines_from(t@, start as int, i as int, deep(out@)) == lines(t@),
        decreases t@.len() - i,
    {
        if t[i] == '\n' {
            let mut e: usize = i;
            if start < i && t[i - 1] == '\r' {
                e = i - 1;
            }
            let l = slice_text(t, start, e);
            assert(l@ =~= drop_cr(t@.subrange(start as int, i as int)));
            push_item(&mut out, l);
            start = i + 1;
        }
        i += 1;
    }
    if start < t.len() {
        let l = slice_text(t, start, t.len());
        push_item(&mut out, l);
    }
    out
}

/// The items of `v` with `sep` between them.
pub open spec fn join(v: Seq<Seq<char>>, sep: Seq<char>) -> Seq<char>
    decreases v.len(),
{
    if v.len() == 0 {
        Seq::empty()
    } else if v.len() == 1 {
        v[0]
    } else {
        join(v.drop_last(), sep) + sep + v.last()
    }
}

pub fn join_items(v: &Vec<Vec<char>>, sep: &str) -> (r: Vec<char>)
    ensures
        r@ == join(deep(v@), sep@),
{
    let s = chars_of(sep);
    let mut out: Vec<char> = Vec::new();
    let mut i: usize = 0;
    while i < v.len()
        invariant
            i <= v@.len(),
            s@ == sep@,
            out@ == join(deep(v@).take(i as int), sep@),
        decreases v@.len() - i,
    {
        assert(deep(v@).take(i + 1).drop_last() =~= deep(v@).take(i as int));
        if i > 0 {
            push_text(&mut out, &s);
        }
        let ghost before = out@;
        push_text(&mut out, &v[i]);
        if i == 0 {
            assert(out@ =~= v@[0]@);
            assert(deep(v@).take(1)[0] == v@[0]@);
        }
        i += 1;
    }
    assert(deep(v@).take(v@.len() as int) =~= deep(v@));
    out
}

/// `t` with a closing line feed, added if there is none.
pub open spec fn closed_line(t: Seq<char>) -> Seq<char> {
    if t.len() > 0 && t.last() == '\n' {
        t
    } else {
        t + seq!['\n']
    }
}

pub fn close_line(t: &mut Vec<char>)
    ensures
        final(t)@ == closed_line(old(t)@),
{
    if t.len() > 0 && t[t.len() - 1] == '\n' {
        return;
    }
    push_char(t, '\n');
}

/// `t` ends with a line feed.
pub open spec fn ends_line(t: Seq<char>) -> bool {
    t.len() > 0 && t.last() == '\n'
}

pub fn ends_with_line(t: &Vec<char>) -> (r: bool)
    ensures
        r == ends_line(t@),
{
    t.len() > 0 && t[t.len() - 1] == '\n'
}

/// `out` without its closing line feed, unless `src` has one.
pub open spec fn unended(src: Seq<char>, out: Seq<char>) -> Seq<char> {
    if !ends_line(src) && ends_line(out) {
        out.drop_last()
    } else {
        out
    }
}

pub fn unend(src: &Vec<char>, out: Vec<char>) -> (r: Vec<char>)
    ensures
        r@ == unended(src@, out@),
{
    if !ends_with_line(src) && ends_with_line(&out) {
        let r = slice_text(&out, 0, out.len() - 1);
        assert(r@ =~= out@.drop_last());
        r
    } else {
        out
    }
}

/// The lines as one text, which ends with a line feed if `src` does.
pub open spec fn joined(src: Seq<char>, v: Seq<Seq<char>>) -> Seq<char> {
    if ends_line(src) {
        join(v, "\n"@).push('\n')
    } else {
        join(v, "\n"@)
    }
}

pub fn join_like(src: &Vec<char>, v: &Vec<Vec<char>>) -> (r: Vec<char>)
    ensures
        r@ == joined(src@, deep(v@)),
{
    let mut out = join_items(v, "\n");
    if ends_with_line(src) {
        push_char(&mut out, '\n');
    }
    out
}

/// The line with a line feed behind it.
pub open spec fn ended(line: Seq<char>) -> Seq<char> {
    line.push('\n')
}

pub fn end_line(line: &Vec<char>) -> (r: Vec<char>)
    ensures
        r@ == ended(line@),
{
    let mut r = slice_all(line);
    push_char(&mut r, '\n');
    r
}

// ─── Replacement and counting ───────────────────────────────────────────────

/// `t[i..]` with each occurrence of `from`, taken from the left without overlap,
/// replaced by `to`, after `acc`.
pub open spec fn replace_from(t: Seq<char>, from: Seq<char>, to: Seq<char>, i: int, acc: Seq<char>) -> Seq<char>
    decreases t.len() - i,
{
    if i < 0 || i >= t.len() || from.len() == 0 {
        acc
    } else if at(t, from, i) {
        replace_from(t, from, to, i + from.len(), acc + to)
    } else {
        replace_from(t, from, to, i + 1, acc + seq![t[i]])
    }
}

pub open spec fn replace(t: Seq<char>, from: Seq<char>, to: Seq<char>) -> Seq<char> {
    if from.len() == 0 {
        t
    } else {
        replace_from(t, from, to, 0, Seq::empty())
    }
}

pub fn replace_text(t: &Vec<char>, from: &Vec<char>, to: &Vec<char>) -> (r: Vec<char>)
    ensures
        r@ == replace(t@, from@, to@),
{
    if from.len() == 0 {
        return slice_all(t);
    }
    let mut out: Vec<char> = Vec::new();
    let mut i: usize = 0;
    while i < t.len()
        invariant
            i <= t@.len(),
            from@.len() > 0,
            replace_from(t@, from@, to@, i as int, out@) == replace(t@, from@, to@),
        decreases t@.len() - i,
    {
        if is_at(t, from, i) {
            push_text(&mut out, to);
            i += from.len();
        } else {
            push_char(&mut out, t[i]);
            i += 1;
        }
    }
    out
}

fn slice_all(t: &Vec<char>) -> (r: Vec<char>)
    ensures
        r@ == t@,
{
    let r = slice_text(t, 0, t.len());
    assert(r@ =~= t@);
    r
}

pub fn replace_lit(t: &Vec<char>, from: &str, to: &str) -> (r: Vec<char>)
    ensures
        r@ == replace(t@, from@, to@),
{
    let f = chars_of(from);
    let g = chars_of(to);
    replace_text(t, &f, &g)
}

/// How often `needle` stands in `t[i..]`, counted from the left without overlap.
pub open spec fn count_from(t: Seq<char>, needle: Seq<char>, i: int) -> nat
    decreases t.len() - i,
{
    if i < 0 || i >= t.len() || needle.len() == 0 {
        0
    } else if at(t, needle, i) {
        1 + count_from(t, needle, i + needle.len())
    } else {
        count_from(t, needle, i + 1)
    }
}

pub open spec fn count(t: Seq<char>, needle: Seq<char>) -> nat {
    count_from(t, needle, 0)
}

pub proof fn lemma_count_from_bound(t: Seq<char>, needle: Seq<char>, i: int)
    requires
        0 <= i <= t.len(),
    ensures
        count_from(t, needle, i) <= t.len() - i,
    decreases t.len() - i,
{
    if i >= t.len() || needle.len() == 0 {
    } else if at(t, needle, i) {
        lemma_count_from_bound(t, needle, i + needle.len());
    } else {
        lemma_count_from_bound(t, needle, i + 1);
    }
}

pub fn count_lit(t: &Vec<char>, lit: &str) -> (r: usize)
    ensures
        r == count(t@, lit@),
        r <= t@.len(),
{
    let l = chars_of(lit);
    if l.len() == 0 {
        return 0;
    }
    let mut i: usize = 0;
    let mut n: usize = 0;
    while i < t.len()
        invariant
            i <= t@.len(),
            n <= i,
            l@ == lit@,
            l@.len() > 0,
            n + count_from(t@, lit@, i as int) == count(t@, lit@),
        decreases t@.len() - i,
    {
        if is_at(t, &l, i) {
            n += 1;
            i += l.len();
        } else {
            i += 1;
        }
    }
    n
}

/// `t` without white space.
pub open spec fn compact(t: Seq<char>) -> Seq<char>
    decreases t.len(),
{
    if t.len() == 0 {
        t
    } else if ws(t.last()) {
        compact(t.drop_last())
    } else {
        compact(t.drop_last()).push(t.last())
    }
}

pub fn compact_text(t: &Vec<char>) -> (r: Vec<char>)
    ensures
        r@ == compact(t@),
{
    let mut out: Vec<char> = Vec::new();
    let mut i: usize = 0;
    while i < t.len()
        invariant
            i <= t@.len(),
            out@ == compact(t@.take(i as int)),
        decreases t@.len() - i,
    {
        assert(t@.take(i + 1).drop_last() =~= t@.take(i as int));
        if !is_ws(t[i]) {
            out.push(t[i]);
        }
        i += 1;
    }
    assert(t@.take(t@.len() as int) =~= t@);
    out
}

/// No white space is left by `compact`.
pub proof fn lemma_compact_no_ws(t: Seq<char>)
    ensures
        forall|i: int| 0 <= i < compact(t).len() ==> !ws(#[trigger] compact(t)[i]),
    decreases t.len(),
{
    if t.len() > 0 {
        lemma_compact_no_ws(t.drop_last());
        let c = compact(t.drop_last());
        assert(forall|i: int| 0 <= i < c.len() ==> !ws(#[trigger] c[i]));
    }
}

/// The lower-case form of an ASCII letter; any other character is kept.
pub open spec fn lower(c: char) -> char {
    if 'A' <= c && c <= 'Z' {
        ((c as u32 + 32) as u8) as char
    } else {
        c
    }
}

pub open spec fn lower_all(t: Seq<char>) -> Seq<char> {
    Seq::new(t.len(), |i: int| lower(t[i]))
}

pub fn lower_text(t: &Vec<char>) -> (r: Vec<char>)
    ensures
        r@ == lower_all(t@),
{
    let mut out: Vec<char> = Vec::new();
    let mut i: usize = 0;
    while i < t.len()
        invariant
            i <= t@.len(),
            out@.len() == i,
            forall|j: int| 0 <= j < i ==> out@[j] == lower(t@[j]),
        decreases t@.len() - i,
    {
        let c = t[i];
        if 'A' <= c && c <= 'Z' {
            let u: u32 = c as u32;
            out.push(((u + 32) as u8) as char);
        } else {
            out.push(c);
        }
        i += 1;
    }
    assert(out@ =~= lower_all(t@));
    out
}

/// An ASCII letter or digit.
pub open spec fn alnum(c: char) -> bool {
    ('0' <= c && c <= '9') || ('a' <= c && c <= 'z') || ('A' <= c && c <= 'Z')
}

pub fn is_alnum(c: char) -> (r: bool)
    ensures
        r == alnum(c),
{
    ('0' <= c && c <= '9') || ('a' <= c && c <= 'z') || ('A' <= c && c <= 'Z')
}

/// Every character is an ASCII letter or digit, or one of `more`.
pub open spec fn wordy(t: Seq<char>, more: Seq<char>) -> bool {
    forall|i: int| 0 <= i < t.len() ==> alnum(#[trigger] t[i]) || more.contains(t[i])
}

pub fn is_wordy(t: &Vec<char>, more: &str) -> (r: bool)
    ensures
        r == wordy(t@, more@),
{
    let m = chars_of(more);
    let mut i: usize = 0;
    while i < t.len()
        invariant
            i <= t@.len(),
            m@ == more@,
            forall|j: int| 0 <= j < i ==> alnum(#[trigger] t@[j]) || more@.contains(t@[j]),
        decreases t@.len() - i,
    {
        if !is_alnum(t[i]) && !crate::text::in_set(&m, t[i]) {
            assert(!(alnum(t@[i as int]) || more@.contains(t@[i as int])));
            return false;
        }
        i += 1;
    }
    true
}

// ─── Length in bytes ────────────────────────────────────────────────────────

/// Bytes of the UTF-8 form of `c`.
pub open spec fn width(c: char) -> nat {
    let u = c as u32;
    if u < 0x80 {
        1
    } else if u < 0x800 {
        2
    } else if u < 0x10000 {
        3
    } else {
        4
    }
}

/// Bytes of the UTF-8 form of `t`.
pub open spec fn byte_len(t: Seq<char>) -> nat
    decreases t.len(),
{
    if t.len() == 0 {
        0
    } else {
        byte_len(t.drop_last()) + width(t.last())
    }
}

pub proof fn lemma_byte_len_take(t: Seq<char>, i: int)
    requires
        0 <= i <= t.len(),
    ensures
        byte_len(t.take(i)) <= byte_len(t),
    decreases t.len() - i,
{
    if i < t.len() {
        lemma_byte_len_take(t, i + 1);
        assert(t.take(i + 1).drop_last() =~= t.take(i));
    } else {
        assert(t.take(i) =~= t);
    }
}

fn width_of(c: char) -> (w: u8)
    ensures
        w == width(c),
{
    let u: u32 = c as u32;
    if u < 0x80 {
        1
    } else if u < 0x800 {
        2
    } else if u < 0x10000 {
        3
    } else {
        4
    }
}

/// What follows the first `n` bytes of the UTF-8 form of `t`. A character that is cut
/// goes with what is left out.
pub open spec fn past_bytes(t: Seq<char>, n: int) -> Seq<char>
    decreases t.len(),
{
    if n <= 0 || t.len() == 0 {
        t
    } else {
        past_bytes(t.drop_first(), n - width(t[0]))
    }
}

/// Bytes of the UTF-8 form of `t`.
pub fn count_bytes(t: &Vec<char>) -> (r: u128)
    ensures
        r == byte_len(t@),
        r <= 4 * t@.len(),
{
    let mut r: u128 = 0;
    let mut k: usize = 0;
    assert(t@.take(0) =~= Seq::empty());
    while k < t.len()
        invariant
            k <= t@.len(),
            r == byte_len(t@.take(k as int)),
            r <= 4 * k,
        decreases t@.len() - k,
    {
        assert(t@.take(k + 1).drop_last() =~= t@.take(k as int));
        r += width_of(t[k]) as u128;
        k += 1;
    }
    assert(t@.take(k as int) =~= t@);
    r
}

/// What follows as many bytes of `t` as `s` has.
pub fn take_past(t: &Vec<char>, s: &Vec<char>) -> (r: Vec<char>)
    ensures
        r@ == past_bytes(t@, byte_len(s@) as int),
        r@.len() <= t@.len(),
{
    let m: usize = s.len();
    let bytes = count_bytes(s);
    assert(bytes <= 4 * m);
    let mut left: i128 = bytes as i128;
    let ghost all = left as int;
    let mut i: usize = 0;
    assert(t@.skip(0) =~= t@);
    while i < t.len() && left > 0
        invariant
            i <= t@.len(),
            -4 <= left <= all,
            all <= 4 * s@.len(),
            past_bytes(t@.skip(i as int), left as int) == past_bytes(t@, all),
        decreases t@.len() - i,
    {
        assert(t@.skip(i as int).drop_first() =~= t@.skip(i + 1));
        left -= width_of(t[i]) as i128;
        i += 1;
    }
    crate::text::text_after(t, i)
}

/// The UTF-8 form of `t` has fewer than `n` bytes.
pub fn shorter_than(t: &Vec<char>, n: usize) -> (r: bool)
    requires
        n <= 100000,
    ensures
        r == (byte_len(t@) < n),
{
    let mut i: usize = 0;
    let mut b: usize = 0;
    while i < t.len()
        invariant
            i <= t@.len(),
            n <= 100000,
            b < n || (b == 0 && i == 0),
            b == byte_len(t@.take(i as int)),
        decreases t@.len() - i,
    {
        assert(t@.take(i + 1).drop_last() =~= t@.take(i as int));
        b += width_of(t[i]) as usize;
        i += 1;
        if b >= n {
            proof {
                lemma_byte_len_take(t@, i as int);
            }
            return false;
        }
    }
    assert(t@.take(t@.len() as int) =~= t@);
    b < n
}

// ─── Order ──────────────────────────────────────────────────────────────────

/// `a` stands before `b` in code-point order.
pub open spec fn text_lt(a: Seq<char>, b: Seq<char>) -> bool
    decreases a.len(),
{
    if b.len() == 0 {
        false
    } else if a.len() == 0 {
        true
    } else if a[0] != b[0] {
        (a[0] as u32) < (b[0] as u32)
    } else {
        text_lt(a.drop_first(), b.drop_first())
    }
}

pub fn is_text_lt(a: &Vec<char>, b: &Vec<char>) -> (r: bool)
    ensures
        r == text_lt(a@, b@),
{
    let mut i: usize = 0;
    assert(a@.skip(0) =~= a@);
    assert(b@.skip(0) =~= b@);
    while i < a.len() && i < b.len()
        invariant
            i <= a@.len(),
            i <= b@.len(),
            text_lt(a@.skip(i as int), b@.skip(i as int)) == text_lt(a@, b@),
        decreases a@.len() - i,
    {
        if a[i] != b[i] {
            return (a[i] as u32) < (b[i] as u32);
        }
        assert(a@.skip(i as int).drop_first() =~= a@.skip(i + 1));
        assert(b@.skip(i as int).drop_first() =~= b@.skip(i + 1));
        i += 1;
    }
    i < b.len()
}

} // verus!
