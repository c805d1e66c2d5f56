//! Ladders of equality tests on one value, folded into a switch.

use vstd::prelude::*;
use crate::lines::{byte_len, compact, compact_text, count_bytes, is_wordy, lines, lines_of, past_bytes, take_past, wordy};
use crate::numbers::{opt_int, read_i64, read_signed, signed_dec, signed_dec_text};
use crate::sets::{sort_values, sorted};
use crate::structure::contracts::{dedup, dedup_values};
use crate::text::{after, at, before, chars_of, copy_text, cut_prefix, cut_prefix_lit, deep, find, find_any, find_any_lit, find_lit, find_text, has, has_lit, has_text, idx, is_at, is_lit, lacks, new_items, opt_text, push_item, push_lit, push_text, rfind_any, rfind_any_lit, same, slice_text, starts, starts_lit, strip_end, strip_end_lit, strip_start, strip_start_lit, text_after, text_before, trim, trim_start, trim_text, ws_end, ws_end_of};

verus! {

broadcast use crate::text::lemma_deep_push;

// ─── Numbers and tests ──────────────────────────────────────────────────────

/// An integer in decimal or hexadecimal, within parentheses or not.
pub open spec fn literal(t: Seq<char>) -> Option<int> {
    let n = strip_end(strip_start(t, "()"@), "()"@);
    match cut_prefix(n, "0x"@) {
        Some(h) => read_signed(h, 16),
        None => match cut_prefix(n, "0X"@) {
            Some(h) => read_signed(h, 16),
            None => read_signed(n, 10),
        },
    }
}

pub fn parse_int_lit(t: &Vec<char>) -> (r: Option<i64>)
    ensures
        opt_int(r) == literal(t@),
{
    let n = strip_end_lit(&strip_start_lit(t, "()"), "()");
    if let Some(h) = cut_prefix_lit(&n, "0x") {
        return read_i64(&h, 16);
    }
    if let Some(h) = cut_prefix_lit(&n, "0X") {
        return read_i64(&h, 16);
    }
    read_i64(&n, 10)
}

/// The text before the first character of `set`.
pub open spec fn up_to(t: Seq<char>, set: Seq<char>) -> Seq<char> {
    match find_any(t, set) {
        Some(i) => before(t, i),
        None => t,
    }
}

/// The text from the first character of `set` on.
pub open spec fn from_on(t: Seq<char>, set: Seq<char>) -> Seq<char> {
    match find_any(t, set) {
        Some(i) => after(t, i),
        None => Seq::empty(),
    }
}

pub fn take_up_to(t: &Vec<char>, set: &str) -> (r: Vec<char>)
    ensures
        r@ == up_to(t@, set@),
{
    match find_any_lit(t, set) {
        Some(i) => text_before(t, i),
        None => copy_text(t),
    }
}

pub fn take_from_on(t: &Vec<char>, set: &str) -> (r: Vec<char>)
    ensures
        r@ == from_on(t@, set@),
{
    match find_any_lit(t, set) {
        Some(i) => text_after(t, i),
        None => {
            let none: Vec<char> = Vec::new();
            assert(none@ =~= Seq::empty());
            none
        },
    }
}

/// The text behind the first occurrence of `needle`.
pub open spec fn behind(t: Seq<char>, needle: Seq<char>) -> Option<Seq<char>> {
    match find(t, needle) {
        Some(i) => Some(after(t, i + needle.len())),
        None => None,
    }
}

fn take_behind(t: &Vec<char>, needle: &Vec<char>) -> (r: Option<Vec<char>>)
    ensures
        opt_text(r) == behind(t@, needle@),
{
    let n: usize = t.len();
    match find_text(t, needle) {
        Some(i) => {
            proof {
                crate::text::lemma_find_from(t@, needle@, 0);
            }
            assert(i + needle@.len() <= n);
            Some(text_after(t, i + needle.len()))
        },
        None => None,
    }
}

/// The constant behind a minus sign, if the difference is compared with zero.
pub open spec fn subtracted(m: Seq<char>) -> Option<int> {
    match literal(up_to(m, ")=,"@)) {
        Some(k) => if has(compact(from_on(m, ")=,"@)), "==0"@) {
            Some(k)
        } else {
            None
        },
        None => None,
    }
}

fn parse_k_before_eq_zero(m: &Vec<char>) -> (r: Option<i64>)
    ensures
        opt_int(r) == subtracted(m@),
{
    let k = parse_int_lit(&take_up_to(m, ")=,"));
    if k.is_some() && has_lit(&compact_text(&take_from_on(m, ")=,")), "==0") {
        k
    } else {
        None
    }
}

/// A value without leading stars and parentheses.
pub open spec fn core_of(s: Seq<char>) -> Seq<char> {
    strip_start(strip_start(s, "*"@), "("@)
}

fn take_core(s: &Vec<char>) -> (r: Vec<char>)
    ensures
        r@ == core_of(s@),
{
    strip_start_lit(&strip_start_lit(s, "*"), "(")
}

/// The condition behind `if(`, without leading parentheses.
pub open spec fn tested(c: Seq<char>) -> Option<Seq<char>> {
    match cut_prefix(c, "if("@) {
        Some(r) => Some(strip_start(r, "("@)),
        None => None,
    }
}

fn take_tested(c: &Vec<char>) -> (r: Option<Vec<char>>)
    ensures
        opt_text(r) == tested(c@),
{
    match cut_prefix_lit(c, "if(") {
        Some(t) => Some(strip_start_lit(&t, "(")),
        None => None,
    }
}

/// What follows the value `s` in `rest`: behind it, or as many bytes behind the start of
/// its core as the value has.
pub open spec fn behind_value(rest: Seq<char>, s: Seq<char>) -> Option<Seq<char>> {
    match find(rest, s) {
        Some(i) => Some(after(rest, i + s.len())),
        None => match find(rest, core_of(s)) {
            Some(i) => Some(past_bytes(after(rest, i), byte_len(s) as int)),
            None => None,
        },
    }
}

fn take_behind_value(rest: &Vec<char>, s: &Vec<char>) -> (r: Option<Vec<char>>)
    ensures
        opt_text(r) == behind_value(rest@, s@),
{
    let n: usize = rest.len();
    match find_text(rest, s) {
        Some(i) => {
            proof {
                crate::text::lemma_find_from(rest@, s@, 0);
            }
            assert(i + s@.len() <= n);
            Some(text_after(rest, i + s.len()))
        },
        None => {
            let core = take_core(s);
            match find_text(rest, &core) {
                Some(i) => {
                    proof {
                        crate::text::lemma_find_from(rest@, core@, 0);
                    }
                    Some(take_past(&text_after(rest, i), s))
                },
                None => None,
            }
        },
    }
}

/// The constant that is taken from the value before a comparison with zero.
pub open spec fn difference_label(c: Seq<char>, scrut: Seq<char>) -> Option<int> {
    let s = compact(scrut);
    match tested(c) {
        None => None,
        Some(rest) => if lacks(rest, s) && lacks(rest, strip_start(s, "("@)) {
            None
        } else {
            match behind_value(rest, s) {
                None => None,
                Some(t) => {
                    let a = strip_start(t, ")"@);
                    match cut_prefix(a, "-"@) {
                        Some(m) => subtracted(m),
                        None => match behind(rest, core_of(s)) {
                            Some(u) => match cut_prefix(strip_start(u, ")"@), "-"@) {
                                Some(m) => subtracted(m),
                                None => None,
                            },
                            None => None,
                        },
                    }
                },
            }
        },
    }
}

fn parse_sub_eq_zero_k(c: &Vec<char>, scrut: &Vec<char>) -> (r: Option<i64>)
    ensures
        opt_int(r) == difference_label(c@, scrut@),
{
    let s = compact_text(scrut);
    let rest = match take_tested(c) {
        Some(t) => t,
        None => {
            return None;
        },
    };
    if !has_text(&rest, &s) && !has_text(&rest, &strip_start_lit(&s, "(")) {
        return None;
    }
    match take_behind_value(&rest, &s) {
        None => None,
        Some(t) => {
            let a = strip_start_lit(&t, ")");
            if let Some(m) = cut_prefix_lit(&a, "-") {
                return parse_k_before_eq_zero(&m);
            }
            if let Some(u) = take_behind(&rest, &take_core(&s)) {
                if let Some(m) = cut_prefix_lit(&strip_start_lit(&u, ")"), "-") {
                    return parse_k_before_eq_zero(&m);
                }
            }
            None
        },
    }
}

/// The constant that the value is compared with.
pub open spec fn equality_label(c: Seq<char>, scrut: Seq<char>) -> Option<int> {
    let s = compact(scrut);
    match tested(c) {
        None => None,
        Some(rest) => {
            let p = match find(rest, s) {
                Some(i) => Some(i),
                None => find(rest, core_of(s)),
            };
            match p {
                None => None,
                Some(i) => match behind(after(rest, i), "=="@) {
                    Some(n) => literal(up_to(n, "),&|"@)),
                    None => None,
                },
            }
        },
    }
}

fn parse_direct_eq_k(c: &Vec<char>, scrut: &Vec<char>) -> (r: Option<i64>)
    ensures
        opt_int(r) == equality_label(c@, scrut@),
{
    let s = compact_text(scrut);
    let rest = match take_tested(c) {
        Some(t) => t,
        None => {
            return None;
        },
    };
    let n: usize = rest.len();
    let p: Option<usize> = match find_text(&rest, &s) {
        Some(i) => {
            proof {
                crate::text::lemma_find_from(rest@, s@, 0);
            }
            Some(i)
        },
        None => {
            let core = take_core(&s);
            let q = find_text(&rest, &core);
            proof {
                crate::text::lemma_find_from(rest@, core@, 0);
            }
            q
        },
    };
    match p {
        None => None,
        Some(i) => {
            assert(i <= n);
            match take_behind(&text_after(&rest, i), &chars_of("==")) {
                Some(m) => parse_int_lit(&take_up_to(&m, "),&|")),
                None => None,
            }
        },
    }
}

/// The label of a test on the value.
pub open spec fn label_of_test(c: Seq<char>, scrut: Seq<char>) -> Option<int> {
    match difference_label(c, scrut) {
        Some(k) => Some(k),
        None => equality_label(c, scrut),
    }
}

fn parse_test(c: &Vec<char>, scrut: &Vec<char>) -> (r: Option<i64>)
    ensures
        opt_int(r) == label_of_test(c@, scrut@),
{
    let k = parse_sub_eq_zero_k(c, scrut);
    if k.is_some() {
        return k;
    }
    parse_direct_eq_k(c, scrut)
}

// ─── Arms ───────────────────────────────────────────────────────────────────

/// The text can be the value of a switch.
pub open spec fn switchable(s: Seq<char>) -> bool {
    has(s, "arg"@) || has(s, "mem"@) || has(s, "rcx"@) || has(s, "rdx"@) || has(s, "r8"@) || has(s, "r9"@)
        || has(s, "rsp"@) || has(s, "rbp"@) || starts(s, "*("@) || starts(s, "t_"@)
}

fn is_scrutinee_token(s: &Vec<char>) -> (r: bool)
    ensures
        r == switchable(s@),
{
    has_lit(s, "arg") || has_lit(s, "mem") || has_lit(s, "rcx") || has_lit(s, "rdx") || has_lit(s, "r8")
        || has_lit(s, "r9") || has_lit(s, "rsp") || has_lit(s, "rbp") || starts_lit(s, "*(") || starts_lit(
        s,
        "t_",
    )
}

/// The sum of two labels, at most the largest number.
pub open spec fn label_sum(a: int, b: int) -> int {
    if a + b > i64::MAX {
        i64::MAX as int
    } else {
        a + b
    }
}

/// The value before a chain of constants that are taken from it, their sum, and
/// whether there is one.
pub open spec fn peeled(t: Seq<char>, end: int, sum: int, some: bool) -> (int, int, bool)
    decreases end,
{
    let slice = before(t, end);
    match rfind_any(slice, "-"@) {
        None => (end, sum, some),
        Some(m) => match literal(strip_end(after(slice, m + 1), ")"@)) {
            Some(k) => if k >= 0 && 0 <= m < end {
                peeled(t, m, label_sum(sum, k), true)
            } else {
                (end, sum, some)
            },
            None => (end, sum, some),
        },
    }
}

/// The value and the label of a test that takes constants from it and compares with
/// zero.
pub open spec fn difference_arm(rest: Seq<char>) -> Option<(Seq<char>, int)> {
    let eq = match find(rest, "==0"@) {
        Some(i) => Some(i),
        None => find(rest, "!=0"@),
    };
    match eq {
        None => None,
        Some(e) => {
            let t = strip_end(before(rest, e), ")"@);
            let (end, sum, some) = peeled(t, t.len() as int, 0, false);
            let scrut = strip_end(before(t, end), "("@);
            if some && scrut.len() > 0 && switchable(scrut) {
                Some((scrut, sum))
            } else {
                None
            }
        },
    }
}

fn parse_trailing_sub_eq_arm(rest: &Vec<char>) -> (r: Option<(Vec<char>, i64)>)
    ensures
        match r {
            Some((s, k)) => difference_arm(rest@) == Some((s@, k as int)),
            None => difference_arm(rest@) is None,
        },
{
    let eq: usize = match find_lit(rest, "==0") {
        Some(i) => {
            proof {
                crate::text::lemma_find_from(rest@, "==0"@, 0);
            }
            i
        },
        None => match find_lit(rest, "!=0") {
            Some(i) => {
                proof {
                    crate::text::lemma_find_from(rest@, "!=0"@, 0);
                }
                i
            },
            None => {
                return None;
            },
        },
    };
    let t = strip_end_lit(&text_before(rest, eq), ")");
    let mut end: usize = t.len();
    let mut sum: i64 = 0;
    let mut some = false;
    let mut going = true;
    let ghost want = peeled(t@, t@.len() as int, 0, false);
    while going
        invariant
            end <= t@.len(),
            0 <= sum,
            want == peeled(t@, t@.len() as int, 0, false),
            going ==> peeled(t@, end as int, sum as int, some) == want,
            !going ==> want == (end as int, sum as int, some),
        decreases end + (if going {
                1int
            } else {
                0int
            }),
    {
        let slice = text_before(&t, end);
        match rfind_any_lit(&slice, "-") {
            None => {
                going = false;
            },
            Some(m) => {
                let k = parse_int_lit(&strip_end_lit(&text_after(&slice, m + 1), ")"));
                match k {
                    Some(k) => {
                        if k >= 0 {
                            sum = if sum > i64::MAX - k {
                                i64::MAX
                            } else {
                                sum + k
                            };
                            end = m;
                            some = true;
                        } else {
                            going = false;
                        }
                    },
                    None => {
                        going = false;
                    },
                }
            },
        }
    }
    if !some {
        return None;
    }
    let scrut = strip_end_lit(&text_before(&t, end), "(");
    if scrut.len() == 0 || !is_scrutinee_token(&scrut) {
        return None;
    }
    Some((scrut, sum))
}

/// The value and the label of a direct comparison; zero counts only where the test is
/// negated.
pub open spec fn equality_arm(rest: Seq<char>, inverted: bool) -> Option<(Seq<char>, int)> {
    match find(rest, "=="@) {
        None => None,
        Some(eq) => {
            let scrut = strip_end(before(rest, eq), "("@);
            match literal(up_to(after(rest, eq + 2), "),&|"@)) {
                Some(k) => if switchable(scrut) && (k != 0 || inverted) {
                    Some((scrut, k))
                } else {
                    None
                },
                None => None,
            }
        },
    }
}

fn parse_equality_arm(rest: &Vec<char>, inverted: bool) -> (r: Option<(Vec<char>, i64)>)
    ensures
        match r {
            Some((s, k)) => equality_arm(rest@, inverted) == Some((s@, k as int)),
            None => equality_arm(rest@, inverted) is None,
        },
{
    let n: usize = rest.len();
    match find_lit(rest, "==") {
        None => None,
        Some(eq) => {
            proof {
                reveal_strlit("==");
                crate::text::lemma_find_from(rest@, "=="@, 0);
            }
            assert(eq + 2 <= n);
            let scrut = strip_end_lit(&text_before(rest, eq), "(");
            match parse_int_lit(&take_up_to(&text_after(rest, eq + 2), "),&|")) {
                Some(k) => if is_scrutinee_token(&scrut) && (k != 0 || inverted) {
                    Some((scrut, k))
                } else {
                    None
                },
                None => None,
            }
        },
    }
}

/// The value and the label that a line tests.
pub open spec fn arm_of(line: Seq<char>) -> Option<(Seq<char>, int)> {
    let t = trim(line);
    if !(has(t, "if"@)) {
        None
    } else {
        match cut_prefix(compact(t), "if("@) {
            None => None,
            Some(rest0) => {
                let (rest, inverted) = match cut_prefix(rest0, "!("@) {
                    Some(r) => (r, true),
                    None => (strip_start(rest0, "("@), false),
                };
                match difference_arm(rest) {
                    Some(a) => Some(a),
                    None => equality_arm(rest, inverted),
                }
            },
        }
    }
}

fn parse_arm(line: &Vec<char>) -> (r: Option<(Vec<char>, i64)>)
    ensures
        match r {
            Some((s, k)) => arm_of(line@) == Some((s@, k as int)),
            None => arm_of(line@) is None,
        },
{
    let t = trim_text(line);
    if !has_lit(&t, "if") {
        return None;
    }
    match cut_prefix_lit(&compact_text(&t), "if(") {
        None => None,
        Some(rest0) => {
            let negated = cut_prefix_lit(&rest0, "!(");
            let inverted = negated.is_some();
            let rest = match negated {
                Some(r) => r,
                None => strip_start_lit(&rest0, "("),
            };
            let a = parse_trailing_sub_eq_arm(&rest);
            if a.is_some() {
                return a;
            }
            parse_equality_arm(&rest, inverted)
        },
    }
}

/// The arms among the first `n` lines.
pub open spec fn arms_of(v: Seq<Seq<char>>, n: int) -> Seq<(Seq<char>, int)>
    decreases n,
{
    if n <= 0 {
        Seq::empty()
    } else {
        match arm_of(v[n - 1]) {
            Some(a) => arms_of(v, n - 1).push(a),
            None => arms_of(v, n - 1),
        }
    }
}

/// A value with one of its labels.
pub struct Arm {
    pub scrut: Vec<char>,
    pub label: i64,
}

/// The arms as values.
pub open spec fn arm_views(v: Seq<Arm>) -> Seq<(Seq<char>, int)> {
    Seq::new(v.len(), |i: int| (v[i].scrut@, v[i].label as int))
}

fn collect_eq_ladder_arms(v: &Vec<Vec<char>>) -> (r: Vec<Arm>)
    ensures
        arm_views(r@) == arms_of(deep(v@), v@.len() as int),
{
    let mut r: Vec<Arm> = Vec::new();
    let mut i: usize = 0;
    assert(arm_views(r@) =~= Seq::empty());
    while i < v.len()
        invariant
            i <= v@.len(),
            arm_views(r@) == arms_of(deep(v@), i as int),
        decreases v@.len() - i,
    {
        assert(deep(v@)[i as int] == v@[i as int]@);
        if let Some((scrut, label)) = parse_arm(&v[i]) {
            let ghost r0 = r@;
            r.push(Arm { scrut, label });
            assert(arm_views(r@) =~= arm_views(r0).push((scrut@, label as int)));
        }
        i += 1;
    }
    r
}

// ─── The value to switch on ─────────────────────────────────────────────────

/// The labels of `scrut` among the first `n` arms.
pub open spec fn labels_for(arms: Seq<(Seq<char>, int)>, scrut: Seq<char>, n: int) -> Seq<i64>
    decreases n,
{
    if n <= 0 {
        Seq::empty()
    } else if arms[n - 1].0 == scrut {
        labels_for(arms, scrut, n - 1).push(arms[n - 1].1 as i64)
    } else {
        labels_for(arms, scrut, n - 1)
    }
}

/// The distinct labels of `scrut`, in ascending order.
pub open spec fn case_labels(arms: Seq<(Seq<char>, int)>, scrut: Seq<char>) -> Seq<i64> {
    dedup(sorted(labels_for(arms, scrut, arms.len() as int)))
}

/// How many of the first `n` numbers lie in `lo..hi`.
pub open spec fn within(ks: Seq<i64>, lo: int, hi: int, n: int) -> nat
    decreases n,
{
    if n <= 0 {
        0
    } else {
        within(ks, lo, hi, n - 1) + if lo <= ks[n - 1] < hi {
            1nat
        } else {
            0nat
        }
    }
}

/// The number is a signature of a file format or too large for a tag.
pub open spec fn magic(k: int) -> bool {
    k == 0x5a4d || k == 0x4550 || k > 0xffff || k < 0
}

/// The labels can be the tags of a dispatch: two small ones at least, none magic.
pub open spec fn dispatches(ks: Seq<i64>) -> bool {
    within(ks, 0, 256, ks.len() as int) >= 2 && forall|i: int|
        0 <= i < ks.len() ==> !magic(#[trigger] ks[i] as int)
}

/// Preference among dispatches: more labels, then more of the smallest tags.
pub open spec fn preference(ks: Seq<i64>) -> int {
    (ks.len() * 10 + within(ks, 1, 9, ks.len() as int)) as int
}

/// The preferred value among the first `n` arms, the first of equals.
pub open spec fn preferred(arms: Seq<(Seq<char>, int)>, n: int) -> Option<Seq<char>>
    decreases n,
{
    if n <= 0 {
        None
    } else {
        let best = preferred(arms, n - 1);
        let s = arms[n - 1].0;
        let ks = case_labels(arms, s);
        if !dispatches(ks) {
            best
        } else {
            match best {
                Some(b) => if preference(ks) > preference(case_labels(arms, b)) {
                    Some(s)
                } else {
                    best
                },
                None => Some(s),
            }
        }
    }
}

fn find_case_labels(arms: &Vec<Arm>, scrut: &Vec<char>) -> (r: Vec<i64>)
    ensures
        r@ == case_labels(arm_views(arms@), scrut@),
{
    let ghost d = arm_views(arms@);
    let mut ks: Vec<i64> = Vec::new();
    let mut i: usize = 0;
    assert(ks@ =~= Seq::empty());
    while i < arms.len()
        invariant
            i <= arms@.len(),
            d == arm_views(arms@),
            ks@ == labels_for(d, scrut@, i as int),
        decreases arms@.len() - i,
    {
        assert(d[i as int] == (arms@[i as int].scrut@, arms@[i as int].label as int));
        if same(&arms[i].scrut, scrut) {
            ks.push(arms[i].label);
        }
        i += 1;
    }
    dedup_values(&sort_values(&ks))
}

fn count_within(ks: &Vec<i64>, lo: i64, hi: i64) -> (r: u128)
    ensures
        r == within(ks@, lo as int, hi as int, ks@.len() as int),
        r <= ks@.len(),
{
    let mut n: u128 = 0;
    let mut i: usize = 0;
    while i < ks.len()
        invariant
            i <= ks@.len(),
            n == within(ks@, lo as int, hi as int, i as int),
            n <= i,
        decreases ks@.len() - i,
    {
        if lo <= ks[i] && ks[i] < hi {
            n += 1;
        }
        i += 1;
    }
    n
}

fn is_dispatch(ks: &Vec<i64>) -> (r: bool)
    ensures
        r == dispatches(ks@),
{
    if count_within(ks, 0, 256) < 2 {
        return false;
    }
    let mut i: usize = 0;
    while i < ks.len()
        invariant
            i <= ks@.len(),
            within(ks@, 0, 256, ks@.len() as int) >= 2,
            forall|j: int| 0 <= j < i ==> !magic(#[trigger] ks@[j] as int),
        decreases ks@.len() - i,
    {
        let k = ks[i];
        if k == 0x5a4d || k == 0x4550 || k > 0xffff || k < 0 {
            assert(magic(ks@[i as int] as int));
            return false;
        }
        i += 1;
    }
    true
}

fn find_preference(ks: &Vec<i64>) -> (r: u128)
    ensures
        r == preference(ks@),
{
    let n: usize = ks.len();
    n as u128 * 10 + count_within(ks, 1, 9)
}

fn find_preferred(arms: &Vec<Arm>) -> (r: Option<(Vec<char>, Vec<i64>)>)
    ensures
        match r {
            Some((s, ks)) => preferred(arm_views(arms@), arms@.len() as int) == Some(s@) && ks@
                == case_labels(arm_views(arms@), s@),
            None => preferred(arm_views(arms@), arms@.len() as int) is None,
        },
{
    let ghost d = arm_views(arms@);
    let mut best: Option<(Vec<char>, Vec<i64>)> = None;
    let mut i: usize = 0;
    while i < arms.len()
        invariant
            i <= arms@.len(),
            d == arm_views(arms@),
            match best {
                Some((s, ks)) => preferred(d, i as int) == Some(s@) && ks@ == case_labels(d, s@),
                None => preferred(d, i as int) is None,
            },
        decreases arms@.len() - i,
    {
        assert(d[i as int] == (arms@[i as int].scrut@, arms@[i as int].label as int));
        let ks = find_case_labels(arms, &arms[i].scrut);
        if is_dispatch(&ks) {
            let wins = match &best {
                Some((_, old_ks)) => find_preference(&ks) > find_preference(old_ks),
                None => true,
            };
            if wins {
                best = Some((copy_text(&arms[i].scrut), ks));
            }
        }
        i += 1;
    }
    best
}

/// Where the ladder starts: at the text of the first line from `i` on that tests the
/// value for one of the labels.
pub open spec fn ladder_start(src: Seq<char>, v: Seq<Seq<char>>, scrut: Seq<char>, ks: Seq<i64>, i: int) -> Option<int>
    decreases v.len() - i,
{
    if i < 0 || i >= v.len() {
        None
    } else {
        let t = trim(v[i]);
        let hit = has(t, "if"@) && (label_of_test(compact(t), scrut) matches Some(k) && ks.contains(
            k as i64,
        ));
        if hit && find(src, v[i]) is Some {
            find(src, v[i])
        } else {
            ladder_start(src, v, scrut, ks, i + 1)
        }
    }
}

fn has_label(ks: &Vec<i64>, k: i64) -> (r: bool)
    ensures
        r == ks@.contains(k),
{
    let mut i: usize = 0;
    while i < ks.len()
        invariant
            i <= ks@.len(),
            forall|j: int| 0 <= j < i ==> ks@[j] != k,
        decreases ks@.len() - i,
    {
        if ks[i] == k {
            return true;
        }
        i += 1;
    }
    false
}

fn find_ladder_start(src: &Vec<char>, v: &Vec<Vec<char>>, scrut: &Vec<char>, ks: &Vec<i64>) -> (r: Option<usize>)
    ensures
        idx(r) == ladder_start(src@, deep(v@), scrut@, ks@, 0),
        r is Some ==> r->0 <= src@.len(),
{
    let ghost d = deep(v@);
    let mut i: usize = 0;
    while i < v.len()
        invariant
            i <= v@.len(),
            d == deep(v@),
            d.len() == v@.len(),
            ladder_start(src@, d, scrut@, ks@, i as int) == ladder_start(src@, d, scrut@, ks@, 0),
        decreases v@.len() - i,
    {
        assert(d[i as int] == v@[i as int]@);
        let t = trim_text(&v[i]);
        if has_lit(&t, "if") {
            if let Some(k) = parse_test(&compact_text(&t), scrut) {
                if has_label(ks, k) {
                    let p = find_text(src, &v[i]);
                    if p.is_some() {
                        proof {
                            crate::text::lemma_find_from(src@, v@[i as int]@, 0);
                        }
                        return p;
                    }
                }
            }
        }
        i += 1;
    }
    None
}

// ─── Braces ─────────────────────────────────────────────────────────────────

/// Position of the brace that closes the one at the start, from `i` on.
pub open spec fn brace_from(t: Seq<char>, i: int, depth: int) -> Option<int>
    decreases t.len() - i,
{
    if i < 0 || i >= t.len() {
        None
    } else if t[i] == '{' {
        brace_from(t, i + 1, depth + 1)
    } else if t[i] == '}' {
        if depth == 1 {
            Some(i)
        } else {
            brace_from(t, i + 1, depth - 1)
        }
    } else {
        brace_from(t, i + 1, depth)
    }
}

/// Position of the brace that closes the one at `open`.
pub open spec fn closing_brace(t: Seq<char>, open: int) -> Option<int> {
    if 0 <= open < t.len() && t[open] == '{' {
        brace_from(t, open, 0)
    } else {
        None
    }
}

/// The closing brace stands behind the opening one.
proof fn lemma_closing_brace(t: Seq<char>, i: int, depth: int)
    requires
        0 <= i,
    ensures
        brace_from(t, i, depth) matches Some(c) ==> i <= c < t.len() && t[c] == '}',
    decreases t.len() - i,
{
    if i < t.len() {
        if t[i] == '{' {
            lemma_closing_brace(t, i + 1, depth + 1);
        } else if t[i] == '}' {
            if depth != 1 {
                lemma_closing_brace(t, i + 1, depth - 1);
            }
        } else {
            lemma_closing_brace(t, i + 1, depth);
        }
    }
}

fn find_closing_brace(t: &Vec<char>, open: usize) -> (r: Option<usize>)
    ensures
        idx(r) == closing_brace(t@, open as int),
        r is Some ==> open < r->0 < t@.len(),
{
    if open >= t.len() || t[open] != '{' {
        return None;
    }
    let mut depth: i128 = 0;
    let mut i: usize = open;
    while i < t.len()
        invariant
            open <= i <= t@.len(),
            t@[open as int] == '{',
            -(i as int) <= depth <= i,
            brace_from(t@, i as int, depth as int) == closing_brace(t@, open as int),
        decreases t@.len() - i,
    {
        if t[i] == '{' {
            depth += 1;
        } else if t[i] == '}' {
            if depth == 1 {
                return Some(i);
            }
            depth -= 1;
        }
        i += 1;
    }
    None
}

/// Position behind the first group of braces.
pub open spec fn group_end(t: Seq<char>) -> Option<int> {
    match find_any(t, "{"@) {
        Some(open) => match closing_brace(t, open) {
            Some(c) => Some(c + 1),
            None => None,
        },
        None => None,
    }
}

fn brace_balanced_end(t: &Vec<char>) -> (r: Option<usize>)
    ensures
        idx(r) == group_end(t@),
        r is Some ==> 0 < r->0 <= t@.len(),
{
    let n: usize = t.len();
    match find_any_lit(t, "{") {
        Some(open) => match find_closing_brace(t, open) {
            Some(c) => {
                assert(c < n);
                Some(c + 1)
            },
            None => None,
        },
        None => None,
    }
}

/// `c` is an ASCII blank.
pub open spec fn plain_blank(c: char) -> bool {
    c == ' ' || c == '\t' || c == '\n' || c == '\r' || c == '\u{0c}'
}

/// Position of the first character from `i` on that is no ASCII blank.
pub open spec fn past_blanks(t: Seq<char>, i: int) -> int
    decreases t.len() - i,
{
    if i < 0 || i >= t.len() || !plain_blank(t[i]) {
        i
    } else {
        past_blanks(t, i + 1)
    }
}

fn skip_blanks(t: &Vec<char>, from: usize) -> (r: usize)
    requires
        from <= t@.len(),
    ensures
        r == past_blanks(t@, from as int),
        from <= r <= t@.len(),
{
    let mut i: usize = from;
    while i < t.len() && (t[i] == ' ' || t[i] == '\t' || t[i] == '\n' || t[i] == '\r' || t[i] == '\u{0c}')
        invariant
            from <= i <= t@.len(),
            past_blanks(t@, i as int) == past_blanks(t@, from as int),
        decreases t@.len() - i,
    {
        i += 1;
    }
    i
}

/// Position behind the chain of `if` and `else` whose first brace is at `open`.
pub open spec fn chain_end(t: Seq<char>, open: int) -> Option<int>
    decreases t.len() - open,
{
    match closing_brace(t, open) {
        None => None,
        Some(c) => {
            let i = past_blanks(t, c + 1);
            if !at(t, "else"@, i) {
                Some(c + 1)
            } else {
                let j = past_blanks(t, i + 4);
                if at(t, "if"@, j) {
                    match find_any(after(t, j), "{"@) {
                        Some(k) => if open < j + k < t.len() {
                            chain_end(t, j + k)
                        } else {
                            None
                        },
                        None => None,
                    }
                } else if 0 <= j < t.len() && t[j] == '{' && open < j {
                    chain_end(t, j)
                } else {
                    Some(j)
                }
            }
        },
    }
}

/// Position behind the ladder that starts at `start`.
pub open spec fn ladder_end(t: Seq<char>, start: int) -> Option<int> {
    match find_any(after(t, start), "{"@) {
        Some(k) => chain_end(t, start + k),
        None => None,
    }
}

fn find_ladder_end(t: &Vec<char>, start: usize) -> (r: Option<usize>)
    requires
        start <= t@.len(),
    ensures
        idx(r) == ladder_end(t@, start as int),
        r is Some ==> r->0 <= t@.len(),
{
    let n: usize = t.len();
    let mut open: usize = match find_any_lit(&text_after(t, start), "{") {
        Some(k) => {
            assert(start + k < n);
            start + k
        },
        None => {
            return None;
        },
    };
    proof {
        reveal_strlit("else");
        reveal_strlit("if");
    }
    let ghost first = open;
    loop
        invariant
            open < n,
            n == t@.len(),
            "else"@.len() == 4,
            "if"@.len() == 2,
            chain_end(t@, open as int) == ladder_end(t@, start as int),
        decreases n - open,
    {
        let c = match find_closing_brace(t, open) {
            Some(c) => c,
            None => {
                return None;
            },
        };
        let i = skip_blanks(t, c + 1);
        if !is_at(t, &chars_of("else"), i) {
            return Some(c + 1);
        }
        assert(i + 4 <= n);
        let j = skip_blanks(t, i + 4);
        if is_at(t, &chars_of("if"), j) {
            match find_any_lit(&text_after(t, j), "{") {
                Some(k) => {
                    assert(j + k < n);
                    open = j + k;
                },
                None => {
                    return None;
                },
            }
        } else if j < n && t[j] == '{' {
            open = j;
        } else {
            return Some(j);
        }
    }
}

// ─── Taking a ladder apart ──────────────────────────────────────────────────

/// A ladder as far as it has been taken apart. `passed` is the text before the place
/// that has been reached, and `moved` tells that it is the inside of an `else` block.
#[verifier::ext_equal]
pub ghost struct Rungs {
    pub arms: Seq<(int, Seq<char>)>,
    pub other: Seq<char>,
    pub passed: Seq<char>,
    pub moved: bool,
}

/// What follows an `else` that may be broken by blanks.
pub open spec fn behind_else(t: Seq<char>) -> Seq<char> {
    match find(t, "else"@) {
        Some(x) => after(t, x + "else"@.len()),
        None => past_bytes(t, byte_len("else"@) as int),
    }
}

fn take_behind_else(t: &Vec<char>) -> (r: Vec<char>)
    ensures
        r@ == behind_else(t@),
        r@.len() <= t@.len(),
{
    let word = chars_of("else");
    let n: usize = t.len();
    match find_text(t, &word) {
        Some(x) => {
            proof {
                crate::text::lemma_find_from(t@, "else"@, 0);
            }
            assert(x + word@.len() <= n);
            text_after(t, x + word.len())
        },
        None => take_past(t, &word),
    }
}

/// The first `n` characters.
pub open spec fn head_of(t: Seq<char>, n: int) -> Seq<char> {
    if n <= t.len() {
        before(t, n)
    } else {
        t
    }
}

/// The rungs of the ladder from position `i` of `work` on, at most `left` of them;
/// nothing if its braces do not match.
pub open spec fn rungs_from(work: Seq<char>, i: int, scrut: Seq<char>, ks: Seq<i64>, st: Rungs, left: nat) -> Option<Rungs>
    decreases left,
{
    let a = past_blanks(work, i);
    let tail = after(work, a);
    let head = compact(head_of(tail, 200));
    if left == 0 || a >= work.len() || !starts(head, "if("@) {
        Some(st)
    } else {
        match label_of_test(head, scrut) {
            None => Some(st),
            Some(k) => if !ks.contains(k as i64) && st.arms.len() > 0 {
                Some(st)
            } else {
                match find_any(tail, "{"@) {
                    None => None,
                    Some(o) => match closing_brace(work, a + o) {
                        None => None,
                        Some(c) => {
                            let body = trim(work.subrange(a + o + 1, c));
                            let s1 = Rungs { arms: st.arms.push((k, body)), passed: before(work, c + 1), ..st };
                            let e = past_blanks(work, c + 1);
                            let rest = after(work, e);
                            if !starts(compact(head_of(rest, 16)), "else"@) {
                                Some(s1)
                            } else {
                                let f = past_blanks(work, work.len() - behind_else(rest).len());
                                let then = after(work, f);
                                if starts(compact(head_of(then, 12)), "if("@) {
                                    rungs_from(
                                        work,
                                        f,
                                        scrut,
                                        ks,
                                        Rungs { passed: before(work, f), ..s1 },
                                        (left - 1) as nat,
                                    )
                                } else {
                                    match find_any(then, "{"@) {
                                        None => None,
                                        Some(p) => match closing_brace(work, f + p) {
                                            None => None,
                                            Some(d) => {
                                                let inner = trim(work.subrange(f + p + 1, d));
                                                let s2 = Rungs { passed: before(work, d + 1), ..s1 };
                                                if starts(compact(inner), "if("@) && label_of_test(
                                                    compact(inner),
                                                    scrut,
                                                ) is Some {
                                                    rungs_from(
                                                        inner,
                                                        0,
                                                        scrut,
                                                        ks,
                                                        Rungs { moved: true, ..s2 },
                                                        (left - 1) as nat,
                                                    )
                                                } else {
                                                    Some(Rungs { other: inner, ..s2 })
                                                }
                                            },
                                        },
                                    }
                                }
                            }
                        },
                    },
                }
            },
        }
    }
}

/// The default body does something.
pub open spec fn has_effect(t: Seq<char>) -> bool {
    t.len() > 0 && (has(t, "FUN_"@) || has(t, "call("@) || has(t, "="@) || has(t, "return"@))
}

fn is_effect(t: &Vec<char>) -> (r: bool)
    ensures
        r == has_effect(t@),
{
    t.len() > 0 && (has_lit(t, "FUN_") || has_lit(t, "call(") || has_lit(t, "=") || has_lit(t, "return"))
}

/// The cases of the ladder at `start`, and what follows it. A default body with an
/// effect is a case with the smallest label. A place inside an `else` block counts as
/// the place as many bytes behind the start of the text.
pub open spec fn ladder_span(src: Seq<char>, start: int, scrut: Seq<char>, ks: Seq<i64>) -> Option<(Seq<(int, Seq<char>)>, Seq<char>)> {
    if start >= src.len() {
        None
    } else {
        match rungs_from(
            src,
            start,
            scrut,
            ks,
            Rungs { arms: Seq::empty(), other: Seq::empty(), passed: before(src, start), moved: false },
            16,
        ) {
            None => None,
            Some(r) => if r.arms.len() == 0 {
                None
            } else {
                let rest = if start == 0 && r.moved {
                    past_bytes(src, byte_len(r.passed) as int)
                } else {
                    match ladder_end(src, start) {
                        Some(e) => after(src, e),
                        None => past_bytes(
                            src,
                            if byte_len(r.passed) > byte_len(before(src, start)) {
                                byte_len(r.passed) as int
                            } else {
                                byte_len(before(src, start)) as int
                            },
                        ),
                    }
                };
                Some(
                    (
                        if has_effect(r.other) {
                            r.arms.push((i64::MIN as int, r.other))
                        } else {
                            r.arms
                        },
                        rest,
                    ),
                )
            },
        }
    }
}

/// A case: its label and its body.
pub struct Rung {
    pub label: i64,
    pub body: Vec<char>,
}

/// The cases as values.
pub open spec fn rung_views(v: Seq<Rung>) -> Seq<(int, Seq<char>)> {
    Seq::new(v.len(), |i: int| (v[i].label as int, v[i].body@))
}

/// A ladder taken apart.
pub struct Peeled {
    pub arms: Vec<Rung>,
    pub other: Vec<char>,
    pub passed: Vec<char>,
    pub moved: bool,
}

impl Peeled {
    pub open spec fn rungs(&self) -> Rungs {
        Rungs { arms: rung_views(self.arms@), other: self.other@, passed: self.passed@, moved: self.moved }
    }
}

fn push_rung(v: &mut Vec<Rung>, label: i64, body: Vec<char>)
    ensures
        rung_views(final(v)@) == rung_views(old(v)@).push((label as int, body@)),
{
    let ghost v0 = v@;
    v.push(Rung { label, body });
    assert(rung_views(v@) =~= rung_views(v0).push((label as int, body@)));
}

fn take_head(t: &Vec<char>, n: usize) -> (r: Vec<char>)
    ensures
        r@ == head_of(t@, n as int),
{
    if n <= t.len() {
        text_before(t, n)
    } else {
        copy_text(t)
    }
}

fn peel_ladder(src: &Vec<char>, start: usize, scrut: &Vec<char>, ks: &Vec<i64>) -> (r: Option<Peeled>)
    requires
        start <= src@.len(),
    ensures
        match r {
            Some(p) => rungs_from(
                src@,
                start as int,
                scrut@,
                ks@,
                (Rungs { arms: Seq::empty(), other: Seq::empty(), passed: before(src@, start as int), moved: false }),
                16,
            ) == Some(p.rungs()),
            None => rungs_from(
                src@,
                start as int,
                scrut@,
                ks@,
                (Rungs { arms: Seq::empty(), other: Seq::empty(), passed: before(src@, start as int), moved: false }),
                16,
            ) is None,
        },
{
    let ghost want = rungs_from(
        src@,
        start as int,
        scrut@,
        ks@,
        Rungs { arms: Seq::empty(), other: Seq::empty(), passed: before(src@, start as int), moved: false },
        16,
    );
    let mut work = copy_text(src);
    let mut i: usize = start;
    let mut left: u8 = 16;
    let mut st = Peeled {
        arms: Vec::new(),
        other: Vec::new(),
        passed: text_before(src, start),
        moved: false,
    };
    assert(st.rungs() =~= Rungs { arms: Seq::empty(), other: Seq::empty(), passed: before(src@, start as int), moved: false });
    loop
        invariant
            i <= work@.len(),
            rungs_from(work@, i as int, scrut@, ks@, st.rungs(), left as nat) == want,
            want == rungs_from(
                src@,
                start as int,
                scrut@,
                ks@,
                (Rungs { arms: Seq::empty(), other: Seq::empty(), passed: before(src@, start as int), moved: false }),
                16,
            ),
        decreases left,
    {
        if left == 0 {
            return Some(st);
        }
        let n: usize = work.len();
        let a = skip_blanks(&work, i);
        if a >= n {
            return Some(st);
        }
        let tail = text_after(&work, a);
        let head = compact_text(&take_head(&tail, 200));
        if !starts_lit(&head, "if(") {
            return Some(st);
        }
        let k = match parse_test(&head, scrut) {
            Some(k) => k,
            None => {
                return Some(st);
            },
        };
        if !has_label(ks, k) && st.arms.len() > 0 {
            return Some(st);
        }
        let o = match find_any_lit(&tail, "{") {
            Some(o) => o,
            None => {
                return None;
            },
        };
        assert(a + o < n);
        let c = match find_closing_brace(&work, a + o) {
            Some(c) => c,
            None => {
                return None;
            },
        };
        push_rung(&mut st.arms, k, trim_text(&slice_text(&work, a + o + 1, c)));
        st.passed = text_before(&work, c + 1);
        let e = skip_blanks(&work, c + 1);
        let rest = text_after(&work, e);
        if !starts_lit(&compact_text(&take_head(&rest, 16)), "else") {
            return Some(st);
        }
        let f = skip_blanks(&work, n - take_behind_else(&rest).len());
        let rest_of = text_after(&work, f);
        if starts_lit(&compact_text(&take_head(&rest_of, 12)), "if(") {
            st.passed = text_before(&work, f);
            i = f;
            left -= 1;
            continue;
        }
        let p = match find_any_lit(&rest_of, "{") {
            Some(p) => p,
            None => {
                return None;
            },
        };
        assert(f + p < n);
        let d = match find_closing_brace(&work, f + p) {
            Some(d) => d,
            None => {
                return None;
            },
        };
        let inner = trim_text(&slice_text(&work, f + p + 1, d));
        st.passed = text_before(&work, d + 1);
        let dense = compact_text(&inner);
        if starts_lit(&dense, "if(") && parse_test(&dense, scrut).is_some() {
            st.moved = true;
            work = inner;
            i = 0;
            left -= 1;
        } else {
            st.other = inner;
            return Some(st);
        }
    }
}

fn extract_eq_ladder_span(src: &Vec<char>, start: usize, scrut: &Vec<char>, ks: &Vec<i64>) -> (r: Option<(Vec<Rung>, Vec<char>)>)
    requires
        start <= src@.len(),
    ensures
        match r {
            Some((cases, rest)) => ladder_span(src@, start as int, scrut@, ks@) == Some(
                (rung_views(cases@), rest@),
            ),
            None => ladder_span(src@, start as int, scrut@, ks@) is None,
        },
{
    if start >= src.len() {
        return None;
    }
    match peel_ladder(src, start, scrut, ks) {
        None => None,
        Some(p) => {
            if p.arms.len() == 0 {
                return None;
            }
            let rest = if start == 0 && p.moved {
                take_past(src, &p.passed)
            } else {
                match find_ladder_end(src, start) {
                    Some(e) => text_after(src, e),
                    None => {
                        let head = text_before(src, start);
                        if count_bytes(&p.passed) > count_bytes(&head) {
                            take_past(src, &p.passed)
                        } else {
                            take_past(src, &head)
                        }
                    },
                }
            };
            let mut cases = p.arms;
            if is_effect(&p.other) {
                push_rung(&mut cases, i64::MIN, p.other);
            }
            Some((cases, rest))
        },
    }
}

// ─── The switch ─────────────────────────────────────────────────────────────

/// A body, each of its non-empty lines behind one blank.
pub open spec fn body_lines(v: Seq<Seq<char>>, n: int) -> Seq<char>
    decreases n,
{
    if n <= 0 {
        Seq::empty()
    } else {
        let t = trim(v[n - 1]);
        if t.len() == 0 {
            body_lines(v, n - 1)
        } else {
            body_lines(v, n - 1) + (" "@ + t + "\n"@)
        }
    }
}

fn push_body(out: &mut Vec<char>, body: &Vec<char>)
    ensures
        final(out)@ == old(out)@ + body_lines(lines(body@), lines(body@).len() as int),
{
    let v = lines_of(body);
    let ghost d = deep(v@);
    let ghost out0 = out@;
    let mut i: usize = 0;
    assert(out@ =~= out0 + body_lines(d, 0));
    while i < v.len()
        invariant
            i <= v@.len(),
            d == deep(v@),
            out@ == out0 + body_lines(d, i as int),
        decreases v@.len() - i,
    {
        assert(d[i as int] == v@[i as int]@);
        let t = trim_text(&v[i]);
        if t.len() > 0 {
            let mut piece = chars_of(" ");
            push_text(&mut piece, &t);
            push_lit(&mut piece, "\n");
            push_text(out, &piece);
            assert(out@ =~= out0 + body_lines(d, i + 1));
        }
        i += 1;
    }
}

/// The label occurs among the first `n` cases.
pub open spec fn label_before(cases: Seq<(int, Seq<char>)>, k: int, n: int) -> bool
    decreases n,
{
    n > 0 && (cases[n - 1].0 == k || label_before(cases, k, n - 1))
}

fn has_label_before(cases: &Vec<Rung>, k: i64, n: usize) -> (r: bool)
    requires
        n <= cases@.len(),
    ensures
        r == label_before(rung_views(cases@), k as int, n as int),
{
    let ghost d = rung_views(cases@);
    let mut i: usize = n;
    while i > 0
        invariant
            i <= n <= cases@.len(),
            d == rung_views(cases@),
            label_before(d, k as int, n as int) == label_before(d, k as int, i as int),
        decreases i,
    {
        assert(d[i - 1] == (cases@[i - 1].label as int, cases@[i - 1].body@));
        if cases[i - 1].label == k {
            return true;
        }
        i -= 1;
    }
    false
}

/// One case of the switch.
pub open spec fn case_text(k: int, body: Seq<char>) -> Seq<char> {
    let b = lines(trim(body));
    " case "@ + signed_dec(k) + ":\n"@ + body_lines(b, b.len() as int) + " break;\n"@
}

/// The first `n` cases, the first of each label; those with the smallest label stand
/// for the default.
pub open spec fn cases_text(cases: Seq<(int, Seq<char>)>, n: int) -> Seq<char>
    decreases n,
{
    if n <= 0 {
        Seq::empty()
    } else {
        let k = cases[n - 1].0;
        if k == i64::MIN || label_before(cases, k, n - 1) {
            cases_text(cases, n - 1)
        } else {
            cases_text(cases, n - 1) + case_text(k, cases[n - 1].1)
        }
    }
}

/// The last default body among the first `n` cases.
pub open spec fn default_of(cases: Seq<(int, Seq<char>)>, n: int) -> Seq<char>
    decreases n,
{
    if n <= 0 {
        Seq::empty()
    } else if cases[n - 1].0 == i64::MIN {
        cases[n - 1].1
    } else {
        default_of(cases, n - 1)
    }
}

/// How many of the first `n` cases have a label of their own.
pub open spec fn labeled(cases: Seq<(int, Seq<char>)>, n: int) -> nat
    decreases n,
{
    if n <= 0 {
        0
    } else {
        labeled(cases, n - 1) + if cases[n - 1].0 != i64::MIN {
            1nat
        } else {
            0nat
        }
    }
}

/// The default of the switch.
pub open spec fn default_text(body: Seq<char>) -> Seq<char> {
    if body.len() == 0 {
        Seq::empty()
    } else {
        " default:\n"@ + body_lines(lines(body), lines(body).len() as int) + " break;\n"@
    }
}

/// The first line of the switch.
pub open spec fn switch_head(scrut: Seq<char>) -> Seq<char> {
    " switch ("@ + scrut + ") {\n"@
}

/// The switch over `scrut`.
pub open spec fn switch_text(scrut: Seq<char>, cases: Seq<(int, Seq<char>)>) -> Seq<char> {
    switch_head(scrut) + cases_text(cases, cases.len() as int) + default_text(
        default_of(cases, cases.len() as int),
    ) + " }\n"@
}

fn write_head(scrut: &Vec<char>) -> (r: Vec<char>)
    ensures
        r@ == switch_head(scrut@),
{
    let mut out = chars_of(" switch (");
    push_text(&mut out, scrut);
    push_lit(&mut out, ") {\n");
    out
}

fn write_case(k: i64, body: &Vec<char>) -> (r: Vec<char>)
    ensures
        r@ == case_text(k as int, body@),
{
    let mut out = chars_of(" case ");
    push_text(&mut out, &signed_dec_text(k));
    push_lit(&mut out, ":\n");
    push_body(&mut out, &trim_text(body));
    push_lit(&mut out, " break;\n");
    out
}

fn write_switch(scrut: &Vec<char>, cases: &Vec<Rung>) -> (r: Vec<char>)
    ensures
        r@ == switch_text(scrut@, rung_views(cases@)),
{
    let ghost d = rung_views(cases@);
    let mut all: Vec<char> = Vec::new();
    let mut other: Vec<char> = Vec::new();
    let mut i: usize = 0;
    assert(all@ =~= Seq::empty());
    assert(other@ =~= Seq::empty());
    while i < cases.len()
        invariant
            i <= cases@.len(),
            d == rung_views(cases@),
            all@ == cases_text(d, i as int),
            other@ == default_of(d, i as int),
        decreases cases@.len() - i,
    {
        assert(d[i as int] == (cases@[i as int].label as int, cases@[i as int].body@));
        let k = cases[i].label;
        if k == i64::MIN {
            other = copy_text(&cases[i].body);
        } else if !has_label_before(cases, k, i) {
            push_text(&mut all, &write_case(k, &cases[i].body));
        }
        i += 1;
    }
    let mut out = write_head(scrut);
    push_text(&mut out, &all);
    let mut tail: Vec<char> = Vec::new();
    assert(tail@ =~= Seq::empty());
    if other.len() > 0 {
        tail = chars_of(" default:\n");
        push_body(&mut tail, &other);
        push_lit(&mut tail, " break;\n");
    }
    push_text(&mut out, &tail);
    push_lit(&mut out, " }\n");
    out
}

fn count_labeled(cases: &Vec<Rung>) -> (r: usize)
    ensures
        r == labeled(rung_views(cases@), cases@.len() as int),
{
    let ghost d = rung_views(cases@);
    let mut n: usize = 0;
    let mut i: usize = 0;
    while i < cases.len()
        invariant
            i <= cases@.len(),
            d == rung_views(cases@),
            n <= i,
            n == labeled(d, i as int),
        decreases cases@.len() - i,
    {
        assert(d[i as int] == (cases@[i as int].label as int, cases@[i as int].body@));
        if cases[i].label != i64::MIN {
            n += 1;
        }
        i += 1;
    }
    n
}

// ─── The switch without bodies ──────────────────────────────────────────────

/// The text without surrounding blanks and closing semicolons.
pub open spec fn bare_statement(t: Seq<char>) -> Seq<char> {
    trim(strip_end(trim(t), ";"@))
}

/// The text is a call of a named function.
pub open spec fn call_statement(s: Seq<char>) -> bool {
    let t = bare_statement(s);
    match find_any(t, "("@) {
        None => false,
        Some(p) => {
            let name = trim(before(t, p));
            name.len() > 0 && wordy(name, "_"@) && name != "if"@ && name != "while"@ && name != "for"@
                && name != "switch"@ && name != "return"@ && name != "sizeof"@ && name != "typeof"@
        },
    }
}

fn looks_like_call_stmt(s: &Vec<char>) -> (r: bool)
    ensures
        r == call_statement(s@),
{
    let t = trim_text(&strip_end_lit(&trim_text(s), ";"));
    match find_any_lit(&t, "(") {
        None => false,
        Some(p) => {
            let name = trim_text(&text_before(&t, p));
            name.len() > 0 && is_wordy(&name, "_") && !is_lit(&name, "if") && !is_lit(&name, "while")
                && !is_lit(&name, "for") && !is_lit(&name, "switch") && !is_lit(&name, "return")
                && !is_lit(&name, "sizeof") && !is_lit(&name, "typeof")
        },
    }
}

/// Position behind the siblings of the ladder that follow position `end` of `rest`.
pub open spec fn siblings_end(rest: Seq<char>, dense: Seq<char>, end: int) -> int
    decreases rest.len() - end,
{
    let from = end + ws_end(after(rest, end), 0);
    let tail = trim_start(after(rest, end));
    let goes_on = starts(tail, "else"@) || (starts(tail, "if"@) && has(
        compact(up_to(tail, "\n"@)),
        dense,
    ));
    match group_end(tail) {
        Some(g) => if goes_on && end < from + g <= rest.len() {
            siblings_end(rest, dense, from + g)
        } else {
            end
        },
        None => end,
    }
}

/// Position behind the ladder and its siblings.
pub open spec fn flat_end(rest: Seq<char>, scrut: Seq<char>) -> int {
    let first = match group_end(rest) {
        Some(e) => e,
        None => match find(rest, "return"@) {
            Some(e) => e,
            None => rest.len() as int,
        },
    };
    siblings_end(rest, compact(scrut), first)
}

fn find_flat_end(rest: &Vec<char>, scrut: &Vec<char>) -> (r: usize)
    ensures
        r == flat_end(rest@, scrut@),
        r <= rest@.len(),
{
    let dense = compact_text(scrut);
    let n: usize = rest.len();
    let mut end: usize = match brace_balanced_end(rest) {
        Some(e) => e,
        None => match find_lit(rest, "return") {
            Some(e) => {
                proof {
                    crate::text::lemma_find_from(rest@, "return"@, 0);
                }
                e
            },
            None => n,
        },
    };
    loop
        invariant
            end <= n,
            n == rest@.len(),
            dense@ == compact(scrut@),
            siblings_end(rest@, dense@, end as int) == flat_end(rest@, scrut@),
        decreases n - end,
    {
        let further = text_after(rest, end);
        let w = ws_end_of(&further, 0);
        let tail = text_after(&further, w);
        assert(tail@ == trim_start(further@));
        if !starts_lit(&tail, "else") {
            if !starts_lit(&tail, "if") {
                return end;
            }
            if !has_text(&compact_text(&take_up_to(&tail, "\n")), &dense) {
                return end;
            }
        }
        match brace_balanced_end(&tail) {
            None => {
                return end;
            },
            Some(g) => {
                assert(w + g <= further@.len());
                end = end + w + g;
            },
        }
    }
}

/// The line says nothing of the ladder's bodies.
pub open spec fn frame_line(t: Seq<char>) -> bool {
    t.len() == 0 || t == "{"@ || t == "}"@ || starts(t, "if"@) || starts(t, "else"@)
}

fn is_frame_line(t: &Vec<char>) -> (r: bool)
    ensures
        r == frame_line(t@),
{
    t.len() == 0 || is_lit(t, "{") || is_lit(t, "}") || starts_lit(t, "if") || starts_lit(t, "else")
}

/// The values that the first `n` lines return.
pub open spec fn given_back(v: Seq<Seq<char>>, n: int) -> Seq<Seq<char>>
    decreases n,
{
    if n <= 0 {
        Seq::empty()
    } else {
        let t = trim(v[n - 1]);
        let more = given_back(v, n - 1);
        if frame_line(t) {
            more
        } else {
            match cut_prefix(t, "return "@) {
                Some(b) => {
                    let body = trim(strip_end(b, ";"@));
                    if body.len() > 0 {
                        more.push(body)
                    } else {
                        more
                    }
                },
                None => more,
            }
        }
    }
}

/// The line calls or stores.
pub open spec fn effect_line(t: Seq<char>) -> bool {
    has(t, "FUN_"@) || starts(t, "call("@) || call_statement(t) || (has(t, "*"@) && has(t, "="@) && lacks(
        t,
        "=="@,
    ))
}

fn is_effect_line(t: &Vec<char>) -> (r: bool)
    ensures
        r == effect_line(t@),
{
    has_lit(t, "FUN_") || starts_lit(t, "call(") || looks_like_call_stmt(t) || (has_lit(t, "*") && has_lit(
        t,
        "=",
    ) && !has_lit(t, "=="))
}

/// The calls and stores among the first `n` lines, each behind one blank.
pub open spec fn effects_text(v: Seq<Seq<char>>, n: int) -> Seq<char>
    decreases n,
{
    if n <= 0 {
        Seq::empty()
    } else {
        let t = trim(v[n - 1]);
        let more = effects_text(v, n - 1);
        if frame_line(t) || cut_prefix(t, "return "@) is Some || !effect_line(t) {
            more
        } else {
            more + (" "@ + t + "\n"@)
        }
    }
}

/// A line that returns `b`.
pub open spec fn return_of(b: Seq<char>) -> Seq<char> {
    " return "@ + b + ";\n"@
}

fn write_return(b: &Vec<char>) -> (r: Vec<char>)
    ensures
        r@ == return_of(b@),
{
    let mut out = chars_of(" return ");
    push_text(&mut out, b);
    push_lit(&mut out, ";\n");
    out
}

/// The first `n` labels as cases; each returns the value of the same rank.
pub open spec fn flat_cases(ks: Seq<i64>, back: Seq<Seq<char>>, n: int) -> Seq<char>
    decreases n,
{
    if n <= 0 {
        Seq::empty()
    } else {
        let body = if n - 1 < back.len() {
            return_of(back[n - 1])
        } else {
            Seq::empty()
        };
        flat_cases(ks, back, n - 1) + (" case "@ + signed_dec(ks[n - 1] as int) + ":\n"@ + body
            + " break;\n"@)
    }
}

/// The switch over `scrut` whose default holds the calls and stores of the ladder, and
/// its last value where there are more values than labels.
pub open spec fn flat_switch(scrut: Seq<char>, ks: Seq<i64>, v: Seq<Seq<char>>) -> Seq<char> {
    let n = v.len() as int;
    let back = given_back(v, n);
    let effects = effects_text(v, n);
    let spare = if back.len() > ks.len() {
        return_of(back.last())
    } else {
        Seq::empty()
    };
    let other = if back.len() > ks.len() || effects.len() > 0 {
        " default:\n"@ + effects + spare + " break;\n"@
    } else {
        Seq::empty()
    };
    switch_head(scrut) + flat_cases(ks, back, ks.len() as int) + other + " }\n"@
}

/// The text with the ladder at `start` as a switch without bodies.
pub open spec fn folded_flat(src: Seq<char>, scrut: Seq<char>, ks: Seq<i64>, start: int) -> Seq<char> {
    let rest = after(src, start);
    let end = flat_end(rest, scrut);
    before(src, start) + flat_switch(scrut, ks, lines(before(rest, end))) + after(rest, end)
}

fn write_flat_switch(scrut: &Vec<char>, ks: &Vec<i64>, v: &Vec<Vec<char>>) -> (r: Vec<char>)
    ensures
        r@ == flat_switch(scrut@, ks@, deep(v@)),
{
    let ghost d = deep(v@);
    let mut back = new_items();
    let mut effects: Vec<char> = Vec::new();
    let mut i: usize = 0;
    assert(effects@ =~= Seq::empty());
    assert(deep(back@) =~= Seq::empty());
    while i < v.len()
        invariant
            i <= v@.len(),
            d == deep(v@),
            deep(back@) == given_back(d, i as int),
            effects@ == effects_text(d, i as int),
        decreases v@.len() - i,
    {
        assert(d[i as int] == v@[i as int]@);
        let t = trim_text(&v[i]);
        if !is_frame_line(&t) {
            match cut_prefix_lit(&t, "return ") {
                Some(b) => {
                    let body = trim_text(&strip_end_lit(&b, ";"));
                    if body.len() > 0 {
                        push_item(&mut back, body);
                    }
                },
                None => {
                    if is_effect_line(&t) {
                        let mut piece = chars_of(" ");
                        push_text(&mut piece, &t);
                        push_lit(&mut piece, "\n");
                        push_text(&mut effects, &piece);
                    }
                },
            }
        }
        i += 1;
    }
    let ghost b = deep(back@);
    let mut all: Vec<char> = Vec::new();
    let mut j: usize = 0;
    assert(all@ =~= Seq::empty());
    while j < ks.len()
        invariant
            j <= ks@.len(),
            b == deep(back@),
            all@ == flat_cases(ks@, b, j as int),
        decreases ks@.len() - j,
    {
        let mut piece = chars_of(" case ");
        push_text(&mut piece, &signed_dec_text(ks[j]));
        push_lit(&mut piece, ":\n");
        let mut body: Vec<char> = Vec::new();
        assert(body@ =~= Seq::empty());
        if j < back.len() {
            assert(b[j as int] == back@[j as int]@);
            body = write_return(&back[j]);
        }
        push_text(&mut piece, &body);
        push_lit(&mut piece, " break;\n");
        push_text(&mut all, &piece);
        j += 1;
    }
    let mut out = write_head(scrut);
    push_text(&mut out, &all);
    let mut other: Vec<char> = Vec::new();
    assert(other@ =~= Seq::empty());
    if back.len() > ks.len() || effects.len() > 0 {
        other = chars_of(" default:\n");
        push_text(&mut other, &effects);
        let mut spare: Vec<char> = Vec::new();
        assert(spare@ =~= Seq::empty());
        if back.len() > ks.len() {
            assert(b.last() == back@[back@.len() - 1]@);
            spare = write_return(&back[back.len() - 1]);
        }
        push_text(&mut other, &spare);
        push_lit(&mut other, " break;\n");
    }
    push_text(&mut out, &other);
    push_lit(&mut out, " }\n");
    out
}

fn fold_eq_ladder_empty_fallback(src: &Vec<char>, scrut: &Vec<char>, ks: &Vec<i64>, start: usize) -> (r: Vec<char>)
    requires
        start <= src@.len(),
    ensures
        r@ == folded_flat(src@, scrut@, ks@, start as int),
{
    let rest = text_after(src, start);
    let end = find_flat_end(&rest, scrut);
    let mut out = text_before(src, start);
    push_text(&mut out, &write_flat_switch(scrut, ks, &lines_of(&text_before(&rest, end))));
    push_text(&mut out, &text_after(&rest, end));
    out
}

/// The text with its preferred ladder of equality tests as a switch. A text with a
/// switch stays as it is, and so does one without a ladder.
pub open spec fn ladder_folded(src: Seq<char>) -> Seq<char> {
    let v = lines(src);
    let arms = arms_of(v, v.len() as int);
    if has(src, "switch"@) {
        src
    } else {
        match preferred(arms, arms.len() as int) {
            None => src,
            Some(scrut) => {
                let ks = case_labels(arms, scrut);
                match ladder_start(src, v, scrut, ks, 0) {
                    None => src,
                    Some(start) => match ladder_span(src, start, scrut, ks) {
                        Some((cases, rest)) => if labeled(cases, cases.len() as int) < 2 {
                            folded_flat(src, scrut, ks, start)
                        } else {
                            before(src, start) + switch_text(scrut, cases) + rest
                        },
                        None => folded_flat(src, scrut, ks, start),
                    },
                }
            },
        }
    }
}

/// Folds the preferred ladder of equality tests into a switch.
pub fn fold_eq_ladder_to_switch(src: &Vec<char>) -> (r: Vec<char>)
    ensures
        r@ == ladder_folded(src@),
{
    if has_lit(src, "switch") {
        return copy_text(src);
    }
    let v = lines_of(src);
    let arms = collect_eq_ladder_arms(&v);
    assert(arm_views(arms@).len() == arms@.len());
    match find_preferred(&arms) {
        None => copy_text(src),
        Some((scrut, ks)) => match find_ladder_start(src, &v, &scrut, &ks) {
            None => copy_text(src),
            Some(start) => {
                if let Some((cases, rest)) = extract_eq_ladder_span(src, start, &scrut, &ks) {
                    assert(rung_views(cases@).len() == cases@.len());
                    if count_labeled(&cases) >= 2 {
                        let mut out = text_before(src, start);
                        push_text(&mut out, &write_switch(&scrut, &cases));
                        push_text(&mut out, &rest);
                        return out;
                    }
                }
                fold_eq_ladder_empty_fallback(src, &scrut, &ks, start)
            },
        },
    }
}

} // verus!
