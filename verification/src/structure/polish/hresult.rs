//! Status codes that were lost as zeros.

use vstd::prelude::*;
use crate::lines::{end_line, byte_len, count, count_lit, ended, lines, lines_of, shorter_than, unend, unended};
use crate::structure::polish::guards::{past_empty, skip_empty};
use crate::text::{before, copy_text, deep, find, find_lit, has, has_lit, indent, indent_text, is_lit, lacks, push_lit, push_text, starts, starts_lit, text_before, trim, trim_text};

verus! {

broadcast use crate::text::lemma_deep_push;

/// What a text tells of its status codes.
pub struct Signs {
    /// It already assigns the code for a null pointer.
    pub pointer: bool,
    /// It names the code for an invalid argument.
    pub invalid: bool,
    /// It dispatches on the tags 3, 8 and 13.
    pub tagged: bool,
    /// It is short and goes through a pointer argument.
    pub short_guard: bool,
    /// It is short, goes through a pointer argument, returns 0 and branches little.
    pub short: bool,
}

pub open spec fn signs(src: Seq<char>) -> Signs {
    Signs {
        pointer: has(src, "hr = 0x80004003"@) || has(src, "hr=0x80004003"@),
        invalid: has(src, "80070057"@),
        tagged: (has(src, "case 3"@) || has(src, "case 0x3"@)) && (has(src, "case 8"@) || has(src, "case 0x8"@))
            && (has(src, "case 13"@) || has(src, "case 0xd"@) || has(src, "case 0xD"@)),
        short_guard: byte_len(src) < 600 && (has(src, "*(rax)"@) || has(src, "*(arg_8)"@) || has(src, "*(arg1)"@)
            || has(src, "*(arg_18)"@)),
        short: byte_len(src) < 600 && (has(src, "*(rax)"@) || has(src, "*(arg_8)"@) || has(src, "*(arg1)"@))
            && has(src, "return 0"@) && count(src, "if "@) + count(src, "if("@) <= 4,
    }
}

fn find_signs(src: &Vec<char>) -> (r: Signs)
    ensures
        r == signs(src@),
{
    Signs {
        pointer: has_lit(src, "hr = 0x80004003") || has_lit(src, "hr=0x80004003"),
        invalid: has_lit(src, "80070057"),
        tagged: (has_lit(src, "case 3") || has_lit(src, "case 0x3")) && (has_lit(src, "case 8") || has_lit(
            src,
            "case 0x8",
        )) && (has_lit(src, "case 13") || has_lit(src, "case 0xd") || has_lit(src, "case 0xD")),
        short_guard: shorter_than(src, 600) && (has_lit(src, "*(rax)") || has_lit(src, "*(arg_8)") || has_lit(
            src,
            "*(arg1)",
        ) || has_lit(src, "*(arg_18)")),
        short: shorter_than(src, 600) && (has_lit(src, "*(rax)") || has_lit(src, "*(arg_8)") || has_lit(
            src,
            "*(arg1)",
        )) && has_lit(src, "return 0") && count_lit(src, "if ") as u128 + count_lit(src, "if(") as u128 <= 4,
    }
}

/// Whether the lines behind `t` stand in the default arm of a switch.
pub open spec fn default_after(t: Seq<char>, inside: bool) -> bool {
    if starts(t, "default:"@) {
        true
    } else if starts(t, "case "@) || starts(t, "switch"@) || t == "}"@ || starts(t, "} else"@) || starts(
        t,
        "}else"@,
    ) {
        false
    } else {
        inside
    }
}

fn is_default_after(t: &Vec<char>, inside: bool) -> (r: bool)
    ensures
        r == default_after(t@, inside),
{
    if starts_lit(t, "default:") {
        true
    } else if starts_lit(t, "case ") || starts_lit(t, "switch") || is_lit(t, "}") || starts_lit(t, "} else")
        || starts_lit(t, "}else") {
        false
    } else {
        inside
    }
}

/// A test for null on one line that returns 0.
pub open spec fn null_returns_zero(t: Seq<char>) -> bool {
    starts(t, "if"@) && has(t, "return"@) && (has(t, "== 0x0"@) || has(t, "==0x0"@) || has(t, "== 0)"@) || has(
        t,
        "==0)"@,
    )) && (has(t, "return 0;"@) || has(t, "return 0x0;"@) || has(t, "return (0)"@))
}

fn looks_like_null_guard_return_zero(t: &Vec<char>) -> (r: bool)
    ensures
        r == null_returns_zero(t@),
{
    starts_lit(t, "if") && has_lit(t, "return") && (has_lit(t, "== 0x0") || has_lit(t, "==0x0") || has_lit(
        t,
        "== 0)",
    ) || has_lit(t, "==0)")) && (has_lit(t, "return 0;") || has_lit(t, "return 0x0;") || has_lit(t, "return (0)"))
}

/// The guard on the line gets the code for a null pointer.
pub open spec fn guard_owed(t: Seq<char>, s: Signs) -> bool {
    (starts(t, "if"@) && has(t, "return 0x80004003"@) && lacks(t, "hr ="@)) || (!s.pointer && (s.tagged || s.invalid
        || s.short_guard) && null_returns_zero(t))
}

/// The line up to its `return`, and the code for a null pointer.
pub open spec fn guard_line(line: Seq<char>) -> Seq<char> {
    let t = trim(line);
    indent(line) + (match find(t, "return"@) {
        Some(p) => before(t, p),
        None => t,
    }) + "hr = 0x80004003; return 0x80004003;\n"@
}

fn write_guard_line(line: &Vec<char>) -> (r: Vec<char>)
    ensures
        r@ == guard_line(line@),
{
    let t = trim_text(line);
    let mut out = indent_text(line);
    let head = match find_lit(&t, "return") {
        Some(p) => {
            proof {
                crate::text::lemma_find_from(t@, "return"@, 0);
            }
            text_before(&t, p)
        },
        None => t,
    };
    push_text(&mut out, &head);
    push_lit(&mut out, "hr = 0x80004003; return 0x80004003;\n");
    out
}

/// The code for a null pointer, assigned and returned at the indentation of `line`.
pub open spec fn pointer_lines(line: Seq<char>) -> Seq<char> {
    indent(line) + "hr = 0x80004003;\n"@ + indent(line) + "return 0x80004003;\n"@
}

fn write_pointer_lines(line: &Vec<char>) -> (r: Vec<char>)
    ensures
        r@ == pointer_lines(line@),
{
    let ind = indent_text(line);
    let mut out = copy_text(&ind);
    push_lit(&mut out, "hr = 0x80004003;\n");
    push_text(&mut out, &ind);
    push_lit(&mut out, "return 0x80004003;\n");
    out
}

/// The code for an invalid argument, assigned and returned at the indentation of
/// `line`.
pub open spec fn invalid_lines(line: Seq<char>) -> Seq<char> {
    indent(line) + "hr = 0x80070057;\n"@ + indent(line) + "return 0x80070057;\n"@
}

fn write_invalid_lines(line: &Vec<char>) -> (r: Vec<char>)
    ensures
        r@ == invalid_lines(line@),
{
    let ind = indent_text(line);
    let mut out = copy_text(&ind);
    push_lit(&mut out, "hr = 0x80070057;\n");
    push_text(&mut out, &ind);
    push_lit(&mut out, "return 0x80070057;\n");
    out
}

/// The first statement of an `else` arm that stands for the code for a null pointer.
pub open spec fn pointer_owed(t: Seq<char>, s: Signs) -> bool {
    let reload = starts(t, "return"@) && has(t, "*(arg"@) && lacks(t, "80004003"@) && lacks(t, "+"@) && lacks(
        t,
        "call"@,
    );
    let zero = t == "return 0x0;"@ || t == "return (0);"@ || t == "return ((u64)0);"@ || (starts(t, "return"@)
        && has(t, "return 0;"@));
    !s.pointer && (reload || (zero && (s.tagged || s.short)))
}

fn is_pointer_owed(t: &Vec<char>, s: &Signs) -> (r: bool)
    ensures
        r == pointer_owed(t@, *s),
{
    let reload = starts_lit(t, "return") && has_lit(t, "*(arg") && !has_lit(t, "80004003") && !has_lit(t, "+")
        && !has_lit(t, "call");
    let zero = is_lit(t, "return 0x0;") || is_lit(t, "return (0);") || is_lit(t, "return ((u64)0);") || (
    starts_lit(t, "return") && has_lit(t, "return 0;"));
    !s.pointer && (reload || (zero && (s.tagged || s.short)))
}

/// `acc` and lines `a` to `b`.
pub open spec fn plain_lines(acc: Seq<char>, v: Seq<Seq<char>>, a: int, b: int) -> Seq<char>
    decreases b - a,
{
    if a >= b {
        acc
    } else {
        plain_lines(acc + ended(v[a]), v, a + 1, b)
    }
}

fn push_plain_lines(out: &mut Vec<char>, v: &Vec<Vec<char>>, a: usize, b: usize)
    requires
        a <= b <= v@.len(),
    ensures
        final(out)@ == plain_lines(old(out)@, deep(v@), a as int, b as int),
{
    let ghost d = deep(v@);
    let ghost out0 = out@;
    let mut i: usize = a;
    while i < b
        invariant
            a <= i <= b <= v@.len(),
            d == deep(v@),
            plain_lines(out@, d, i as int, b as int) == plain_lines(out0, d, a as int, b as int),
        decreases b - i,
    {
        assert(d[i as int] == v@[i as int]@);
        push_text(out, &end_line(&v[i]));
        i += 1;
    }
}

/// `acc` and the lines from `i` on with their status codes; `inside` tells that they
/// stand in the default arm of a switch.
pub open spec fn codes_from(v: Seq<Seq<char>>, i: int, inside: bool, s: Signs, acc: Seq<char>) -> Seq<char>
    decreases v.len() - i,
{
    if i < 0 || i >= v.len() {
        acc
    } else {
        let t = trim(v[i]);
        let now = default_after(t, inside);
        if guard_owed(t, s) {
            codes_from(v, i + 1, now, s, acc + guard_line(v[i]))
        } else if t == "return 0x80004003;"@ || t == "return 0x80004003"@ {
            codes_from(v, i + 1, now, s, acc + pointer_lines(v[i]))
        } else if starts(t, "} else {"@) || starts(t, "else {"@) {
            let k = past_empty(v, i + 1);
            let out = plain_lines(acc, v, i, k);
            if i < k < v.len() && pointer_owed(trim(v[k]), s) {
                codes_from(v, k + 1, now, s, out + pointer_lines(v[k]))
            } else if i < k <= v.len() {
                codes_from(v, k, now, s, out)
            } else {
                out
            }
        } else if s.tagged && !s.invalid && now && starts(t, "return"@) && lacks(t, "8000"@) {
            codes_from(v, i + 1, now, s, acc + invalid_lines(v[i]))
        } else {
            codes_from(v, i + 1, now, s, acc + ended(v[i]))
        }
    }
}

/// The text with its status codes.
pub open spec fn codes_restored(src: Seq<char>) -> Seq<char> {
    unended(src, codes_from(lines(src), 0, false, signs(src), Seq::empty()))
}

pub fn polish_e_pointer_returns(src: &Vec<char>) -> (r: Vec<char>)
    ensures
        r@ == codes_restored(src@),
{
    let s = find_signs(src);
    let v = lines_of(src);
    let n: usize = v.len();
    let ghost d = deep(v@);
    let mut out: Vec<char> = Vec::new();
    let mut inside = false;
    let mut i: usize = 0;
    assert(out@ =~= Seq::empty());
    while i < n
        invariant
            i <= n,
            n == v@.len(),
            d == deep(v@),
            d.len() == n,
            codes_from(d, i as int, inside, s, out@) == codes_from(d, 0, false, s, Seq::empty()),
        decreases n - i,
    {
        assert(d[i as int] == v@[i as int]@);
        let t = trim_text(&v[i]);
        inside = is_default_after(&t, inside);
        if (starts_lit(&t, "if") && has_lit(&t, "return 0x80004003") && !has_lit(&t, "hr =")) || (!s.pointer && (
        s.tagged || s.invalid || s.short_guard) && looks_like_null_guard_return_zero(&t)) {
            push_text(&mut out, &write_guard_line(&v[i]));
            i += 1;
        } else if is_lit(&t, "return 0x80004003;") || is_lit(&t, "return 0x80004003") {
            push_text(&mut out, &write_pointer_lines(&v[i]));
            i += 1;
        } else if starts_lit(&t, "} else {") || starts_lit(&t, "else {") {
            let k = skip_empty(&v, i + 1);
            push_plain_lines(&mut out, &v, i, k);
            i = k;
            if k < n {
                assert(d[k as int] == v@[k as int]@);
                if is_pointer_owed(&trim_text(&v[k]), &s) {
                    push_text(&mut out, &write_pointer_lines(&v[k]));
                    i = k + 1;
                }
            }
        } else if s.tagged && !s.invalid && inside && starts_lit(&t, "return") && !has_lit(&t, "8000") {
            push_text(&mut out, &write_invalid_lines(&v[i]));
            i += 1;
        } else {
            push_text(&mut out, &end_line(&v[i]));
            i += 1;
        }
    }
    unend(src, out)
}

} // verus!
