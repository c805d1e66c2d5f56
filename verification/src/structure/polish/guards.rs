//! Guards that return.

use vstd::prelude::*;
use crate::lines::{compact, compact_text, count, count_lit, joined, join_like, lines, lines_of};
use crate::text::{after, chars_of, copy_text, cut_prefix, cut_prefix_lit, deep, drop_words, drop_words_lit, ends, ends_lit, find, find_lit, has, has_lit, indent, indent_text, is_lit, lacks, new_items, push_item, push_lit, push_text, starts, starts_lit, strip_end, strip_end_lit, strip_start, strip_start_lit, text_after, trim, trim_end, trim_end_text, trim_text};

verus! {

broadcast use crate::text::lemma_deep_push;

// ─── One-line guards ────────────────────────────────────────────────────────

/// Line `i` without surrounding white space; empty where there is none.
pub open spec fn line_at(v: Seq<Seq<char>>, i: int) -> Seq<char> {
    if 0 <= i < v.len() {
        trim(v[i])
    } else {
        Seq::empty()
    }
}

fn take_line(v: &Vec<Vec<char>>, i: usize) -> (r: Vec<char>)
    ensures
        r@ == line_at(deep(v@), i as int),
        r@.len() > 0 ==> i < v@.len(),
{
    if i < v.len() {
        assert(deep(v@)[i as int] == v@[i as int]@);
        trim_text(&v[i])
    } else {
        let none: Vec<char> = Vec::new();
        assert(none@ =~= Seq::empty());
        none
    }
}

/// Lines `i` and `i + 1` are a return and a closing brace.
pub open spec fn sole_return(v: Seq<Seq<char>>, i: int) -> bool {
    i + 1 < v.len() && starts(line_at(v, i), "return"@) && ends(line_at(v, i), ";"@) && line_at(v, i + 1) == "}"@
}

fn is_sole_return(v: &Vec<Vec<char>>, i: usize) -> (r: bool)
    ensures
        r == sole_return(deep(v@), i as int),
{
    let n: usize = v.len();
    if i >= n || n - i < 2 {
        return false;
    }
    let t = take_line(v, i);
    starts_lit(&t, "return") && ends_lit(&t, ";") && is_lit(&take_line(v, i + 1), "}")
}

/// The line opens the body of an `if`.
pub open spec fn opens_if(t: Seq<char>) -> bool {
    starts(t, "if"@) && ends(t, "{"@) && lacks(t, "return"@)
}

/// Line `i` as the head of a one-line statement, and that statement.
pub open spec fn one_line(v: Seq<Seq<char>>, i: int) -> Seq<char> {
    indent(v[i]) + trim_end(strip_end(trim(v[i]), "{"@)) + " "@ + line_at(v, i + 1)
}

/// The statement in line `j` behind an `else` at the indentation of line `i`.
pub open spec fn one_line_else(v: Seq<Seq<char>>, i: int, j: int) -> Seq<char> {
    indent(v[i]) + "else "@ + line_at(v, j)
}

/// `acc` and the lines from `i` on, guards that only return on one line each.
pub open spec fn guards_from(v: Seq<Seq<char>>, i: int, acc: Seq<Seq<char>>) -> Seq<Seq<char>>
    decreases v.len() - i,
{
    if i < 0 || i >= v.len() {
        acc
    } else {
        let t = trim(v[i]);
        if opens_if(t) && sole_return(v, i + 1) && !starts(line_at(v, i + 3), "else"@) {
            guards_from(v, i + 3, acc.push(one_line(v, i)))
        } else if opens_if(t) && sole_return(v, i + 1) && starts(line_at(v, i + 3), "else {"@) && sole_return(
            v,
            i + 4,
        ) {
            guards_from(v, i + 6, acc.push(one_line(v, i)).push(one_line_else(v, i, i + 4)))
        } else if starts(t, "else {"@) && sole_return(v, i + 1) {
            guards_from(v, i + 3, acc.push(one_line_else(v, i, i + 1)))
        } else {
            guards_from(v, i + 1, acc.push(v[i]))
        }
    }
}

/// The text with guards that only return on one line each.
pub open spec fn guards_flat(src: Seq<char>) -> Seq<char> {
    if lines(src).len() < 3 {
        src
    } else {
        joined(src, guards_from(lines(src), 0, Seq::empty()))
    }
}

fn write_one_line(v: &Vec<Vec<char>>, i: usize) -> (r: Vec<char>)
    requires
        i + 1 < v@.len(),
    ensures
        r@ == one_line(deep(v@), i as int),
{
    let n: usize = v.len();
    assert(i + 1 < n);
    assert(deep(v@)[i as int] == v@[i as int]@);
    let mut r = indent_text(&v[i]);
    push_text(&mut r, &trim_end_text(&strip_end_lit(&trim_text(&v[i]), "{")));
    push_lit(&mut r, " ");
    push_text(&mut r, &take_line(v, i + 1));
    r
}

fn write_one_line_else(v: &Vec<Vec<char>>, i: usize, j: usize) -> (r: Vec<char>)
    requires
        i < v@.len(),
    ensures
        r@ == one_line_else(deep(v@), i as int, j as int),
{
    assert(deep(v@)[i as int] == v@[i as int]@);
    let mut r = indent_text(&v[i]);
    push_lit(&mut r, "else ");
    push_text(&mut r, &take_line(v, j));
    r
}

pub fn polish_guard_returns(src: &Vec<char>) -> (r: Vec<char>)
    ensures
        r@ == guards_flat(src@),
{
    let v = lines_of(src);
    let n: usize = v.len();
    if n < 3 {
        return copy_text(src);
    }
    let ghost d = deep(v@);
    let mut out = new_items();
    let mut i: usize = 0;
    assert(deep(out@) =~= Seq::empty());
    proof {
        reveal_strlit("else");
        reveal_strlit("else {");
    }
    while i < n
        invariant
            i <= n,
            n == v@.len(),
            d == deep(v@),
            d.len() == n,
            "else"@.len() == 4,
            "else {"@.len() == 6,
            guards_from(d, i as int, deep(out@)) == guards_from(d, 0, Seq::empty()),
        decreases n - i,
    {
        assert(d[i as int] == v@[i as int]@);
        let t = trim_text(&v[i]);
        let opens = starts_lit(&t, "if") && ends_lit(&t, "{") && !has_lit(&t, "return");
        let sole = is_sole_return(&v, i + 1);
        if opens && sole {
            let next: Vec<char> = if i + 2 < n - 1 {
                take_line(&v, i + 3)
            } else {
                let none: Vec<char> = Vec::new();
                assert(none@ =~= line_at(d, i + 3));
                none
            };
            if !starts_lit(&next, "else") {
                push_item(&mut out, write_one_line(&v, i));
                i += 3;
                continue;
            }
            if starts_lit(&next, "else {") && is_sole_return(&v, i + 4) {
                push_item(&mut out, write_one_line(&v, i));
                push_item(&mut out, write_one_line_else(&v, i, i + 4));
                i += 6;
                continue;
            }
        }
        if starts_lit(&t, "else {") && sole {
            push_item(&mut out, write_one_line_else(&v, i, i + 1));
            i += 3;
            continue;
        }
        push_item(&mut out, copy_text(&v[i]));
        i += 1;
    }
    join_like(src, &out)
}

// ─── The end of an arm ──────────────────────────────────────────────────────

/// The line closes an arm and opens the other one.
pub open spec fn turns(t: Seq<char>) -> bool {
    starts(t, "} else"@) || starts(t, "}else"@)
}

fn is_turn(t: &Vec<char>) -> (r: bool)
    ensures
        r == turns(t@),
{
    starts_lit(t, "} else") || starts_lit(t, "}else")
}

/// The line on which the arm that line `i` opens is closed, from line `j` on, and
/// whether the other arm opens on it.
pub open spec fn arm_end(v: Seq<Seq<char>>, i: int, j: int, depth: int) -> Option<(int, bool)>
    decreases v.len() - j,
{
    if j < 0 || j >= v.len() {
        None
    } else {
        let t = trim(v[j]);
        if j > i && turns(t) {
            if depth == 1 {
                Some((j, true))
            } else {
                arm_end(v, i, j + 1, depth - 1 + count(t, "{"@))
            }
        } else {
            let d = depth + count(t, "{"@) - count(t, "}"@);
            if j > i && d == 0 {
                Some((j, false))
            } else {
                arm_end(v, i, j + 1, d)
            }
        }
    }
}

fn find_arm_end(v: &Vec<Vec<char>>, i: usize) -> (r: Option<(usize, bool)>)
    requires
        i < v@.len(),
    ensures
        match r {
            Some((e, turn)) => arm_end(deep(v@), i as int, i as int, 0) == Some((e as int, turn)) && i < e < v@.len(),
            None => arm_end(deep(v@), i as int, i as int, 0) is None,
        },
{
    let ghost d = deep(v@);
    let mut up: u128 = 0;
    let mut down: u128 = 0;
    let mut j: usize = i;
    while j < v.len()
        invariant
            i <= j <= v@.len(),
            d == deep(v@),
            d.len() == v@.len(),
            up <= j * 0xffff_ffff_ffff_ffff,
            down <= j * 0xffff_ffff_ffff_ffff,
            arm_end(d, i as int, j as int, up - down) == arm_end(d, i as int, i as int, 0),
        decreases v@.len() - j,
    {
        assert(d[j as int] == v@[j as int]@);
        let t = trim_text(&v[j]);
        let opened: usize = count_lit(&t, "{");
        let closed: usize = count_lit(&t, "}");
        assert(opened <= 0xffff_ffff_ffff_ffff);
        assert(closed <= 0xffff_ffff_ffff_ffff);
        assert(j < 0xffff_ffff_ffff_ffff);
        if j > i && is_turn(&t) {
            down += 1;
            if up == down {
                return Some((j, true));
            }
            up += opened as u128;
        } else {
            up += opened as u128;
            down += closed as u128;
            if j > i && up == down {
                return Some((j, false));
            }
        }
        j += 1;
    }
    None
}

/// The first line from `k` on that is not blank.
pub open spec fn past_empty(v: Seq<Seq<char>>, k: int) -> int
    decreases v.len() - k,
{
    if 0 <= k < v.len() && trim(v[k]).len() == 0 {
        past_empty(v, k + 1)
    } else {
        k
    }
}

pub fn skip_empty(v: &Vec<Vec<char>>, from: usize) -> (r: usize)
    requires
        from <= v@.len(),
    ensures
        r == past_empty(deep(v@), from as int),
        from <= r <= v@.len(),
{
    let ghost d = deep(v@);
    let mut k: usize = from;
    while k < v.len()
        invariant
            from <= k <= v@.len(),
            d == deep(v@),
            d.len() == v@.len(),
            past_empty(d, k as int) == past_empty(d, from as int),
        decreases v@.len() - k,
    {
        assert(d[k as int] == v@[k as int]@);
        if trim_text(&v[k]).len() != 0 {
            return k;
        }
        k += 1;
    }
    k
}

/// Position behind the closing brace that follows line `m`, or behind line `m`.
pub open spec fn past_close(v: Seq<Seq<char>>, m: int) -> int {
    let n = past_empty(v, m + 1);
    if line_at(v, n) == "}"@ {
        n + 1
    } else {
        m + 1
    }
}

fn skip_close(v: &Vec<Vec<char>>, m: usize) -> (r: usize)
    requires
        m < v@.len(),
    ensures
        r == past_close(deep(v@), m as int),
        m < r <= v@.len(),
{
    let count: usize = v.len();
    assert(m < count);
    let n = skip_empty(v, m + 1);
    proof {
        reveal_strlit("}");
    }
    if is_lit(&take_line(v, n), "}") {
        assert(n < count);
        n + 1
    } else {
        m + 1
    }
}

/// The line tests for null.
pub open spec fn null_test(t: Seq<char>) -> bool {
    starts(t, "if"@) && (has(t, "== 0x0"@) || has(t, "==0x0"@) || has(t, "== 0)"@)) && ends(t, "{"@)
}

fn is_null_test(t: &Vec<char>) -> (r: bool)
    ensures
        r == null_test(t@),
{
    starts_lit(t, "if") && (has_lit(t, "== 0x0") || has_lit(t, "==0x0") || has_lit(t, "== 0)")) && ends_lit(t, "{")
}

/// The first line of the other arm.
pub open spec fn other_arm(v: Seq<Seq<char>>, end: int, turn: bool) -> int {
    past_empty(
        v,
        if turn {
            end
        } else {
            end + 1
        },
    )
}

fn find_other_arm(v: &Vec<Vec<char>>, end: usize, turn: bool) -> (r: usize)
    requires
        end < v@.len(),
    ensures
        r == other_arm(deep(v@), end as int, turn),
        end <= r <= v@.len(),
{
    let n: usize = v.len();
    assert(end < n);
    if turn {
        skip_empty(v, end)
    } else {
        skip_empty(v, end + 1)
    }
}

/// `acc` and lines `a` to `b`.
pub open spec fn with_lines(acc: Seq<Seq<char>>, v: Seq<Seq<char>>, a: int, b: int) -> Seq<Seq<char>>
    decreases b - a,
{
    if a >= b {
        acc
    } else {
        with_lines(acc.push(v[a]), v, a + 1, b)
    }
}

fn push_lines(out: &mut Vec<Vec<char>>, v: &Vec<Vec<char>>, a: usize, b: usize)
    requires
        a <= b <= v@.len(),
    ensures
        deep(final(out)@) == with_lines(deep(old(out)@), deep(v@), a as int, b as int),
{
    let ghost d = deep(v@);
    let ghost out0 = deep(out@);
    let mut i: usize = a;
    while i < b
        invariant
            a <= i <= b <= v@.len(),
            d == deep(v@),
            with_lines(deep(out@), d, i as int, b as int) == with_lines(out0, d, a as int, b as int),
        decreases b - i,
    {
        assert(d[i as int] == v@[i as int]@);
        push_item(out, copy_text(&v[i]));
        i += 1;
    }
}

// ─── Guards round a mixed value ─────────────────────────────────────────────

/// The line returns a value mixed with the multiplier of the hash.
pub open spec fn rich_return(line: Seq<char>) -> bool {
    let t = trim(line);
    starts(t, "return"@) && has(t, "^"@) && has(t, "45d9f3b"@)
}

/// How many of the first `n` lines return a mixed value.
pub open spec fn rich_count(v: Seq<Seq<char>>, n: int) -> nat
    decreases n,
{
    if n <= 0 {
        0
    } else {
        rich_count(v, n - 1) + if rich_return(v[n - 1]) {
            1nat
        } else {
            0nat
        }
    }
}

fn count_rich(v: &Vec<Vec<char>>) -> (r: usize)
    ensures
        r == rich_count(deep(v@), v@.len() as int),
{
    let ghost d = deep(v@);
    let mut n: usize = 0;
    let mut i: usize = 0;
    while i < v.len()
        invariant
            i <= v@.len(),
            d == deep(v@),
            n <= i,
            n == rich_count(d, i as int),
        decreases v@.len() - i,
    {
        assert(d[i as int] == v@[i as int]@);
        let t = trim_text(&v[i]);
        if starts_lit(&t, "return") && has_lit(&t, "^") && has_lit(&t, "45d9f3b") {
            n += 1;
        }
        i += 1;
    }
    n
}

/// Position behind an arm at line `k` that only returns zero.
pub open spec fn zero_arm(v: Seq<Seq<char>>, k: int) -> Option<int> {
    let t = line_at(v, k);
    if (starts(t, "} else"@) || starts(t, "else"@)) && has(t, "return 0"@) {
        Some(k + 1)
    } else if starts(t, "} else {"@) || starts(t, "else {"@) {
        let m = past_empty(v, k + 1);
        let r = line_at(v, m);
        if r == "return 0;"@ || r == "return 0x0;"@ || r == "return (0);"@ {
            Some(past_close(v, m))
        } else {
            None
        }
    } else {
        None
    }
}

fn find_zero_arm(v: &Vec<Vec<char>>, k: usize) -> (r: Option<usize>)
    requires
        k <= v@.len(),
    ensures
        crate::text::idx(r) == zero_arm(deep(v@), k as int),
        r is Some ==> k < r->0 <= v@.len(),
{
    let n: usize = v.len();
    let t = take_line(v, k);
    proof {
        reveal_strlit("} else");
        reveal_strlit("else");
        reveal_strlit("} else {");
        reveal_strlit("else {");
        reveal_strlit("return 0;");
        reveal_strlit("return 0x0;");
        reveal_strlit("return (0);");
    }
    if (starts_lit(&t, "} else") || starts_lit(&t, "else")) && has_lit(&t, "return 0") {
        assert(t@.len() > 0 && k < n);
        return Some(k + 1);
    }
    if starts_lit(&t, "} else {") || starts_lit(&t, "else {") {
        assert(t@.len() > 0 && k < n);
        let m = skip_empty(v, k + 1);
        let r = take_line(v, m);
        if is_lit(&r, "return 0;") || is_lit(&r, "return 0x0;") || is_lit(&r, "return (0);") {
            return Some(skip_close(v, m));
        }
    }
    None
}

/// The negated test at line `i`, which returns zero.
pub open spec fn zero_guard(line: Seq<char>) -> Seq<char> {
    indent(line) + "if (!"@ + trim(strip_end(trim(drop_words(trim(line), "if"@)), "{"@)) + ") return 0;"@
}

/// Where the arm of the test at line `i` ends and where the text goes on, if the other
/// arm only returns zero.
pub open spec fn rich_guard(v: Seq<Seq<char>>, i: int) -> Option<(int, int)> {
    let t = line_at(v, i);
    if null_test(t) && lacks(t, "!("@) {
        match arm_end(v, i, i, 0) {
            None => None,
            Some((e, turn)) => match zero_arm(v, other_arm(v, e, turn)) {
                None => None,
                Some(next) => Some((e, next)),
            },
        }
    } else {
        None
    }
}

fn find_rich_guard(v: &Vec<Vec<char>>, i: usize) -> (r: Option<(usize, usize)>)
    requires
        i < v@.len(),
    ensures
        match r {
            Some((e, next)) => rich_guard(deep(v@), i as int) == Some((e as int, next as int)) && i < e < next
                <= v@.len(),
            None => rich_guard(deep(v@), i as int) is None,
        },
{
    let t = take_line(v, i);
    if !is_null_test(&t) || has_lit(&t, "!(") {
        return None;
    }
    match find_arm_end(v, i) {
        None => None,
        Some((e, turn)) => match find_zero_arm(v, find_other_arm(v, e, turn)) {
            None => None,
            Some(next) => Some((e, next)),
        },
    }
}

/// `acc` and the lines from `i` on, each guarded arm behind its negated test.
pub open spec fn rich_from(v: Seq<Seq<char>>, i: int, acc: Seq<Seq<char>>) -> Seq<Seq<char>>
    decreases v.len() - i,
{
    if i < 0 || i >= v.len() {
        acc
    } else {
        match rich_guard(v, i) {
            Some((e, next)) => if i < next <= v.len() {
                rich_from(v, next, with_lines(acc.push(zero_guard(v[i])), v, i + 1, e))
            } else {
                acc
            },
            None => rich_from(v, i + 1, acc.push(v[i])),
        }
    }
}

/// The text with the return of its one mixed value out of the arm of a null test.
pub open spec fn rich_hoisted(src: Seq<char>) -> Seq<char> {
    let v = lines(src);
    if lacks(src, "45d9f3b"@) || lacks(src, "^"@) || rich_count(v, v.len() as int) != 1 {
        src
    } else {
        joined(src, rich_from(v, 0, Seq::empty()))
    }
}

pub fn polish_hoist_rich_xor_return(src: &Vec<char>) -> (r: Vec<char>)
    ensures
        r@ == rich_hoisted(src@),
{
    if !has_lit(src, "45d9f3b") || !has_lit(src, "^") {
        return copy_text(src);
    }
    let v = lines_of(src);
    if count_rich(&v) != 1 {
        return copy_text(src);
    }
    let n: usize = v.len();
    let ghost d = deep(v@);
    let mut out = new_items();
    let mut i: usize = 0;
    assert(deep(out@) =~= Seq::empty());
    while i < n
        invariant
            i <= n,
            n == v@.len(),
            d == deep(v@),
            d.len() == n,
            rich_from(d, i as int, deep(out@)) == rich_from(d, 0, Seq::empty()),
        decreases n - i,
    {
        assert(d[i as int] == v@[i as int]@);
        match find_rich_guard(&v, i) {
            Some((e, next)) => {
                let mut guard = indent_text(&v[i]);
                push_lit(&mut guard, "if (!");
                push_text(
                    &mut guard,
                    &trim_text(&strip_end_lit(&trim_text(&drop_words_lit(&trim_text(&v[i]), "if")), "{")),
                );
                push_lit(&mut guard, ") return 0;");
                push_item(&mut out, guard);
                push_lines(&mut out, &v, i + 1, e);
                i = next;
            },
            None => {
                push_item(&mut out, copy_text(&v[i]));
                i += 1;
            },
        }
    }
    join_like(src, &out)
}

// ─── Guards that return a status ────────────────────────────────────────────

/// The last line before the next closing brace, from `m` on, that returns a status,
/// or `found`.
pub open spec fn status_line(v: Seq<Seq<char>>, m: int, found: Option<int>) -> Option<int>
    decreases v.len() - m,
{
    if m < 0 || m >= v.len() || trim(v[m]) == "}"@ {
        found
    } else {
        status_line(
            v,
            m + 1,
            if starts(trim(v[m]), "return"@) && has(trim(v[m]), "8000"@) {
                Some(m)
            } else {
                found
            },
        )
    }
}

fn find_status_line(v: &Vec<Vec<char>>, from: usize) -> (r: Option<usize>)
    requires
        from <= v@.len(),
    ensures
        crate::text::idx(r) == status_line(deep(v@), from as int, None),
        r is Some ==> from <= r->0 < v@.len(),
{
    let ghost d = deep(v@);
    let mut found: Option<usize> = None;
    let mut m: usize = from;
    while m < v.len()
        invariant
            from <= m <= v@.len(),
            d == deep(v@),
            d.len() == v@.len(),
            found is Some ==> from <= found->0 < v@.len(),
            status_line(d, m as int, crate::text::idx(found)) == status_line(d, from as int, None),
        decreases v@.len() - m,
    {
        assert(d[m as int] == v@[m as int]@);
        let t = trim_text(&v[m]);
        if is_lit(&t, "}") {
            return found;
        }
        if starts_lit(&t, "return") && has_lit(&t, "8000") {
            found = Some(m);
        }
        m += 1;
    }
    found
}

/// The return of a status in the arm at line `k`, and the position behind that arm.
pub open spec fn status_arm(v: Seq<Seq<char>>, k: int) -> Option<(Seq<char>, int)> {
    let t = line_at(v, k);
    if (starts(t, "} else"@) || starts(t, "else"@)) && has(t, "return"@) && has(t, "8000"@) {
        match find(t, "return"@) {
            Some(p) => Some((after(t, p), k + 1)),
            None => None,
        }
    } else if starts(t, "} else {"@) || starts(t, "}else {"@) || starts(t, "else {"@) {
        match status_line(v, k + 1, None) {
            Some(m) => Some((line_at(v, m), past_close(v, m))),
            None => None,
        }
    } else {
        None
    }
}

fn find_status_arm(v: &Vec<Vec<char>>, k: usize) -> (r: Option<(Vec<char>, usize)>)
    requires
        k <= v@.len(),
    ensures
        match r {
            Some((s, next)) => status_arm(deep(v@), k as int) == Some((s@, next as int)) && k < next <= v@.len(),
            None => status_arm(deep(v@), k as int) is None,
        },
{
    let n: usize = v.len();
    let t = take_line(v, k);
    proof {
        reveal_strlit("} else");
        reveal_strlit("else");
        reveal_strlit("} else {");
        reveal_strlit("}else {");
        reveal_strlit("else {");
    }
    if (starts_lit(&t, "} else") || starts_lit(&t, "else")) && has_lit(&t, "return") && has_lit(&t, "8000") {
        assert(t@.len() > 0 && k < n);
        return match find_lit(&t, "return") {
            Some(p) => {
                proof {
                    crate::text::lemma_find_from(t@, "return"@, 0);
                }
                Some((text_after(&t, p), k + 1))
            },
            None => None,
        };
    }
    if starts_lit(&t, "} else {") || starts_lit(&t, "}else {") || starts_lit(&t, "else {") {
        assert(t@.len() > 0 && k < n);
        if let Some(m) = find_status_line(v, k + 1) {
            return Some((take_line(v, m), skip_close(v, m)));
        }
    }
    None
}

/// The test without its negation, in parentheses.
pub open spec fn plain_test(t: Seq<char>) -> Seq<char> {
    let c = compact(t);
    let c1 = match cut_prefix(c, "if"@) {
        Some(r) => r,
        None => c,
    };
    let inner = strip_end(strip_end(strip_start(strip_start(strip_start(c1, "("@), "!"@), "("@), "{"@), ")"@);
    if starts(inner, "("@) {
        inner
    } else {
        "("@ + inner + ")"@
    }
}

fn take_plain_test(t: &Vec<char>) -> (r: Vec<char>)
    ensures
        r@ == plain_test(t@),
{
    let c = compact_text(t);
    let c1 = match cut_prefix_lit(&c, "if") {
        Some(r) => r,
        None => c,
    };
    let open = strip_start_lit(&strip_start_lit(&strip_start_lit(&c1, "("), "!"), "(");
    let inner = strip_end_lit(&strip_end_lit(&open, "{"), ")");
    if starts_lit(&inner, "(") {
        inner
    } else {
        let mut r = chars_of("(");
        push_text(&mut r, &inner);
        push_lit(&mut r, ")");
        r
    }
}

/// Where the arm of the negated null test at line `i` ends, the status that the other
/// arm returns, and where the text goes on.
pub open spec fn null_guard(v: Seq<Seq<char>>, i: int) -> Option<(int, Seq<char>, int)> {
    let t = line_at(v, i);
    if null_test(t) && has(t, "!("@) {
        match arm_end(v, i, i, 0) {
            None => None,
            Some((e, turn)) => match status_arm(v, other_arm(v, e, turn)) {
                None => None,
                Some((s, next)) => Some((e, s, next)),
            },
        }
    } else {
        None
    }
}

fn find_null_guard(v: &Vec<Vec<char>>, i: usize) -> (r: Option<(usize, Vec<char>, usize)>)
    requires
        i < v@.len(),
    ensures
        match r {
            Some((e, s, next)) => null_guard(deep(v@), i as int) == Some((e as int, s@, next as int)) && i < e
                < next <= v@.len(),
            None => null_guard(deep(v@), i as int) is None,
        },
{
    let t = take_line(v, i);
    if !is_null_test(&t) || !has_lit(&t, "!(") {
        return None;
    }
    match find_arm_end(v, i) {
        None => None,
        Some((e, turn)) => match find_status_arm(v, find_other_arm(v, e, turn)) {
            None => None,
            Some((s, next)) => Some((e, s, next)),
        },
    }
}

/// The plain test of a line with a status that it returns.
pub open spec fn status_guard(line: Seq<char>, status: Seq<char>) -> Seq<char> {
    indent(line) + "if ("@ + plain_test(trim(line)) + ") "@ + status
}

/// `acc` and the lines from `i` on, each guarded arm behind its plain test.
pub open spec fn status_from(v: Seq<Seq<char>>, i: int, acc: Seq<Seq<char>>) -> Seq<Seq<char>>
    decreases v.len() - i,
{
    if i < 0 || i >= v.len() {
        acc
    } else {
        match null_guard(v, i) {
            Some((e, s, next)) => if i < next <= v.len() {
                status_from(v, next, with_lines(acc.push(status_guard(v[i], s)), v, i + 1, e))
            } else {
                acc
            },
            None => status_from(v, i + 1, acc.push(v[i])),
        }
    }
}

/// The text with each status that a null test returns in front of the guarded arm.
pub open spec fn status_hoisted(src: Seq<char>) -> Seq<char> {
    if lacks(src, "80004003"@) && lacks(src, "80070057"@) {
        src
    } else {
        joined(src, status_from(lines(src), 0, Seq::empty()))
    }
}

pub fn polish_hoist_null_guard_returns(src: &Vec<char>) -> (r: Vec<char>)
    ensures
        r@ == status_hoisted(src@),
{
    if !has_lit(src, "80004003") && !has_lit(src, "80070057") {
        return copy_text(src);
    }
    let v = lines_of(src);
    let n: usize = v.len();
    let ghost d = deep(v@);
    let mut out = new_items();
    let mut i: usize = 0;
    assert(deep(out@) =~= Seq::empty());
    while i < n
        invariant
            i <= n,
            n == v@.len(),
            d == deep(v@),
            d.len() == n,
            status_from(d, i as int, deep(out@)) == status_from(d, 0, Seq::empty()),
        decreases n - i,
    {
        assert(d[i as int] == v@[i as int]@);
        match find_null_guard(&v, i) {
            Some((e, s, next)) => {
                let mut guard = indent_text(&v[i]);
                push_lit(&mut guard, "if (");
                push_text(&mut guard, &take_plain_test(&trim_text(&v[i])));
                push_lit(&mut guard, ") ");
                push_text(&mut guard, &s);
                push_item(&mut out, guard);
                push_lines(&mut out, &v, i + 1, e);
                i = next;
            },
            None => {
                push_item(&mut out, copy_text(&v[i]));
                i += 1;
            },
        }
    }
    join_like(src, &out)
}

} // verus!
