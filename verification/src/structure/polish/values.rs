//! Rewrites of returned values.

use vstd::prelude::*;
use crate::lines::{end_line, byte_len, compact, compact_text, ended, ends_line, ends_with_line, lines, lines_of, lower_all, lower_text, replace, replace_lit, shorter_than, unend, unended};
use crate::structure::polish::keywords::{has_if, holds_if};
use crate::text::{after, before, chars_of, copy_text, deep, drop_words, drop_words_lit, find_any, find_any_lit, has, has_lit, indent, indent_text, is_lit, lacks, push_char, push_lit, push_text, same, starts, starts_lit, strip_end, strip_end_lit, strip_start, strip_start_lit, text_after, text_before, trim, trim_text};

verus! {

broadcast use crate::text::lemma_deep_push;

/// The line returns.
pub open spec fn returning(line: Seq<char>) -> bool {
    starts(trim(line), "return"@)
}

fn is_returning(line: &Vec<char>) -> (r: bool)
    ensures
        r == returning(line@),
{
    starts_lit(&trim_text(line), "return")
}

/// How many of the first `n` lines return.
pub open spec fn return_count(v: Seq<Seq<char>>, n: int) -> nat
    decreases n,
{
    if n <= 0 {
        0
    } else {
        return_count(v, n - 1) + if returning(v[n - 1]) {
            1nat
        } else {
            0nat
        }
    }
}

fn count_returns(v: &Vec<Vec<char>>) -> (r: usize)
    ensures
        r == return_count(deep(v@), v@.len() as int),
{
    let ghost d = deep(v@);
    let mut n: usize = 0;
    let mut i: usize = 0;
    while i < v.len()
        invariant
            i <= v@.len(),
            d == deep(v@),
            n <= i,
            n == return_count(d, i as int),
        decreases v@.len() - i,
    {
        assert(d[i as int] == v@[i as int]@);
        if is_returning(&v[i]) {
            n += 1;
        }
        i += 1;
    }
    n
}

/// What a line returns.
pub open spec fn payload(line: Seq<char>) -> Seq<char> {
    trim(strip_end(trim(drop_words(trim(line), "return"@)), ";"@))
}

pub fn take_payload(line: &Vec<char>) -> (r: Vec<char>)
    ensures
        r@ == payload(line@),
{
    trim_text(&strip_end_lit(&trim_text(&drop_words_lit(&trim_text(line), "return")), ";"))
}

/// Two branches at the indentation `ind`.
pub open spec fn branches(ind: Seq<char>, cond: Seq<char>, yes: Seq<char>, no: Seq<char>) -> Seq<char> {
    ind + "if ("@ + cond + ") {\n"@ + ind + " return "@ + yes + ";\n"@ + ind + "} else {\n"@ + ind
        + " return "@ + no + ";\n"@ + ind + "}\n"@
}

fn write_branches(ind: &Vec<char>, cond: &Vec<char>, yes: &Vec<char>, no: &Vec<char>) -> (r: Vec<char>)
    ensures
        r@ == branches(ind@, cond@, yes@, no@),
{
    let mut out = copy_text(ind);
    push_lit(&mut out, "if (");
    push_text(&mut out, cond);
    push_lit(&mut out, ") {\n");
    push_text(&mut out, ind);
    push_lit(&mut out, " return ");
    push_text(&mut out, yes);
    push_lit(&mut out, ";\n");
    push_text(&mut out, ind);
    push_lit(&mut out, "} else {\n");
    push_text(&mut out, ind);
    push_lit(&mut out, " return ");
    push_text(&mut out, no);
    push_lit(&mut out, ";\n");
    push_text(&mut out, ind);
    push_lit(&mut out, "}\n");
    out
}

// ─── Operations ─────────────────────────────────────────────────────────────

/// The value is a short bitwise or arithmetic operation.
pub open spec fn operation(p: Seq<char>) -> bool {
    (has(p, "^"@) || has(p, "&"@) || has(p, "|"@) || has(p, "+"@) || has(p, "*"@) || has(p, "-"@)) && byte_len(
        p,
    ) < 120
}

fn is_operation(p: &Vec<char>) -> (r: bool)
    ensures
        r == operation(p@),
{
    (has_lit(p, "^") || has_lit(p, "&") || has_lit(p, "|") || has_lit(p, "+") || has_lit(p, "*") || has_lit(
        p,
        "-",
    )) && shorter_than(p, 120)
}

/// `(p) == (p)`.
pub open spec fn self_equal(p: Seq<char>) -> Seq<char> {
    "("@ + p + ") == ("@ + p + ")"@
}

/// A line whose value is an operation, under a branch that returns the same value
/// either way.
pub open spec fn operation_line(line: Seq<char>) -> Seq<char> {
    let p = payload(line);
    if returning(line) && operation(p) {
        branches(indent(line), self_equal(p), p, p)
    } else {
        ended(line)
    }
}

pub open spec fn operation_lines(v: Seq<Seq<char>>, n: int) -> Seq<char>
    decreases n,
{
    if n <= 0 {
        Seq::empty()
    } else {
        operation_lines(v, n - 1) + operation_line(v[n - 1])
    }
}

/// A straight body with one return branches on what it returns.
pub open spec fn operations_branched(src: Seq<char>) -> Seq<char> {
    let v = lines(src);
    if has_if(src) || has(src, "while"@) || has(src, "switch"@) || return_count(v, v.len() as int) != 1 {
        src
    } else {
        unended(src, operation_lines(v, v.len() as int))
    }
}

pub fn polish_pure_op_return_to_if(src: &Vec<char>) -> (r: Vec<char>)
    ensures
        r@ == operations_branched(src@),
{
    let v = lines_of(src);
    if holds_if(src) || has_lit(src, "while") || has_lit(src, "switch") || count_returns(&v) != 1 {
        return copy_text(src);
    }
    let ghost d = deep(v@);
    let mut out: Vec<char> = Vec::new();
    let mut i: usize = 0;
    assert(out@ =~= Seq::empty());
    while i < v.len()
        invariant
            i <= v@.len(),
            d == deep(v@),
            out@ == operation_lines(d, i as int),
        decreases v@.len() - i,
    {
        assert(d[i as int] == v@[i as int]@);
        let p = take_payload(&v[i]);
        if is_returning(&v[i]) && is_operation(&p) {
            let mut cond = chars_of("(");
            push_text(&mut cond, &p);
            push_lit(&mut cond, ") == (");
            push_text(&mut cond, &p);
            push_lit(&mut cond, ")");
            push_text(&mut out, &write_branches(&indent_text(&v[i]), &cond, &p, &p));
        } else {
            push_text(&mut out, &end_line(&v[i]));
        }
        i += 1;
    }
    unend(src, out)
}

// ─── Comparisons ────────────────────────────────────────────────────────────

/// The value is a short comparison.
pub open spec fn comparison(p: Seq<char>) -> bool {
    let c = compact(p);
    (has(c, "<"@) || has(c, ">"@) || has(c, "=="@) || has(c, "!="@)) && lacks(c, "<<"@) && lacks(c, ">>"@)
        && lacks(c, "^"@) && lacks(c, "*"@) && byte_len(c) < 80
}

fn is_comparison(p: &Vec<char>) -> (r: bool)
    ensures
        r == comparison(p@),
{
    let c = compact_text(p);
    (has_lit(&c, "<") || has_lit(&c, ">") || has_lit(&c, "==") || has_lit(&c, "!=")) && !has_lit(&c, "<<")
        && !has_lit(&c, ">>") && !has_lit(&c, "^") && !has_lit(&c, "*") && shorter_than(&c, 80)
}

/// A line whose value is a comparison, as a branch on it.
pub open spec fn comparison_line(line: Seq<char>) -> Seq<char> {
    let p = payload(line);
    if returning(line) && comparison(p) {
        branches(indent(line), p, "1"@, "0"@)
    } else {
        ended(line)
    }
}

pub open spec fn comparison_lines(v: Seq<Seq<char>>, n: int) -> Seq<char>
    decreases n,
{
    if n <= 0 {
        Seq::empty()
    } else {
        comparison_lines(v, n - 1) + comparison_line(v[n - 1])
    }
}

/// A straight body with one return that compares branches on the comparison.
pub open spec fn comparisons_branched(src: Seq<char>) -> Seq<char> {
    let v = lines(src);
    if has_if(src) || has(src, "while"@) || has(src, "switch"@) || has(src, "for "@) || return_count(
        v,
        v.len() as int,
    ) != 1 {
        src
    } else {
        unended(src, comparison_lines(v, v.len() as int))
    }
}

pub fn polish_compare_return_to_if(src: &Vec<char>) -> (r: Vec<char>)
    ensures
        r@ == comparisons_branched(src@),
{
    let v = lines_of(src);
    if holds_if(src) || has_lit(src, "while") || has_lit(src, "switch") || has_lit(src, "for ")
        || count_returns(&v) != 1 {
        return copy_text(src);
    }
    let ghost d = deep(v@);
    let mut out: Vec<char> = Vec::new();
    let mut i: usize = 0;
    assert(out@ =~= Seq::empty());
    while i < v.len()
        invariant
            i <= v@.len(),
            d == deep(v@),
            out@ == comparison_lines(d, i as int),
        decreases v@.len() - i,
    {
        assert(d[i as int] == v@[i as int]@);
        let p = take_payload(&v[i]);
        if is_returning(&v[i]) && is_comparison(&p) {
            push_text(&mut out, &write_branches(&indent_text(&v[i]), &p, &chars_of("1"), &chars_of("0")));
        } else {
            push_text(&mut out, &end_line(&v[i]));
        }
        i += 1;
    }
    unend(src, out)
}

// ─── Zeros ──────────────────────────────────────────────────────────────────

/// `a ^ a`, but for parentheses.
pub open spec fn self_xor(c: Seq<char>) -> bool {
    match find_any(c, "^"@) {
        Some(i) => strip_end(strip_start(before(c, i), "()"@), "()"@) == strip_end(
            strip_start(after(c, i + 1), "()"@),
            "()"@,
        ),
        None => false,
    }
}

/// The value is zero by its form.
pub open spec fn zero_value(p: Seq<char>) -> bool {
    let c = lower_all(compact(p));
    (c.len() == 0 || c == "0"@ || c == "0x0"@ || has(c, "*0x0"@) || has(c, "*0)"@) || has(c, "(0x0*"@)
        || has(c, "(0*"@) || self_xor(c)) && lacks(p, "0x4e67"@) && lacks(p, "FUN_"@)
}

fn is_self_xor(c: &Vec<char>) -> (r: bool)
    ensures
        r == self_xor(c@),
{
    let n: usize = c.len();
    match find_any_lit(c, "^") {
        Some(i) => {
            assert(i < n);
            let a = strip_end_lit(&strip_start_lit(&text_before(c, i), "()"), "()");
            let b = strip_end_lit(&strip_start_lit(&text_after(c, i + 1), "()"), "()");
            same(&a, &b)
        },
        None => false,
    }
}

fn is_zero_value(p: &Vec<char>) -> (r: bool)
    ensures
        r == zero_value(p@),
{
    let c = lower_text(&compact_text(p));
    (c.len() == 0 || is_lit(&c, "0") || is_lit(&c, "0x0") || has_lit(&c, "*0x0") || has_lit(&c, "*0)")
        || has_lit(&c, "(0x0*") || has_lit(&c, "(0*") || is_self_xor(&c)) && !has_lit(p, "0x4e67") && !has_lit(
        p,
        "FUN_",
    )
}

/// A line whose value is zero by its form returns 0.
pub open spec fn zero_line(line: Seq<char>) -> Seq<char> {
    if returning(line) && zero_value(payload(line)) {
        indent(line) + "return 0;\n"@
    } else {
        ended(line)
    }
}

/// The first `n` lines, zeros plain.
pub open spec fn zeros_plain(v: Seq<Seq<char>>, n: int) -> Seq<char>
    decreases n,
{
    if n <= 0 {
        Seq::empty()
    } else {
        zeros_plain(v, n - 1) + zero_line(v[n - 1])
    }
}

pub fn polish_zero_returns(src: &Vec<char>) -> (r: Vec<char>)
    ensures
        r@ == zeros_plain(lines(src@), lines(src@).len() as int),
{
    let v = lines_of(src);
    let ghost d = deep(v@);
    let mut out: Vec<char> = Vec::new();
    let mut i: usize = 0;
    assert(out@ =~= Seq::empty());
    while i < v.len()
        invariant
            i <= v@.len(),
            d == deep(v@),
            out@ == zeros_plain(d, i as int),
        decreases v@.len() - i,
    {
        assert(d[i as int] == v@[i as int]@);
        if is_returning(&v[i]) && is_zero_value(&take_payload(&v[i])) {
            let mut piece = indent_text(&v[i]);
            push_lit(&mut piece, "return 0;\n");
            push_text(&mut out, &piece);
        } else {
            push_text(&mut out, &end_line(&v[i]));
        }
        i += 1;
    }
    out
}

// ─── Checksums ──────────────────────────────────────────────────────────────

/// The line returns a product with the checksum's constant, of a value in a second
/// argument.
pub open spec fn checksum_return(line: Seq<char>) -> bool {
    let t = trim(line);
    starts(t, "return"@) && has(t, "0x4e67c6a7"@) && has(t, "*"@) && lacks(t, "^"@) && (has(t, "arg_10"@)
        || has(t, "arg2"@) || has(t, "arg_28"@))
}

/// The line with the running checksum put back into the value it returns.
pub open spec fn checksum_line(line: Seq<char>) -> Seq<char> {
    if checksum_return(line) {
        let crc = if has(trim(line), "arg_10"@) {
            "*(arg_8)"@
        } else {
            "arg1"@
        };
        indent(line) + "return ((u64)"@ + crc + " ^ "@ + payload(line) + ");"@
    } else {
        line
    }
}

/// The first `n` lines, a line feed between any two.
pub open spec fn checksum_lines(v: Seq<Seq<char>>, n: int) -> Seq<char>
    decreases n,
{
    if n <= 0 {
        Seq::empty()
    } else if n == 1 {
        checksum_line(v[0])
    } else {
        checksum_lines(v, n - 1).push('\n') + checksum_line(v[n - 1])
    }
}

/// The text with the running checksum put back, where it has the constant, no
/// exclusive or, and a second argument.
pub open spec fn checksums_restored(src: Seq<char>) -> Seq<char> {
    if lacks(src, "0x4e67c6a7"@) || has(src, "^"@) || (lacks(src, "arg1"@) && lacks(src, "arg_8"@) && lacks(
        src,
        "arg_10"@,
    )) {
        src
    } else {
        let out = checksum_lines(lines(src), lines(src).len() as int);
        if ends_line(src) && !ends_line(out) {
            out.push('\n')
        } else {
            out
        }
    }
}

fn write_checksum_line(line: &Vec<char>) -> (r: Vec<char>)
    ensures
        r@ == checksum_line(line@),
{
    let t = trim_text(line);
    if starts_lit(&t, "return") && has_lit(&t, "0x4e67c6a7") && has_lit(&t, "*") && !has_lit(&t, "^") && (
    has_lit(&t, "arg_10") || has_lit(&t, "arg2") || has_lit(&t, "arg_28")) {
        let crc = if has_lit(&t, "arg_10") {
            chars_of("*(arg_8)")
        } else {
            chars_of("arg1")
        };
        let mut out = indent_text(line);
        push_lit(&mut out, "return ((u64)");
        push_text(&mut out, &crc);
        push_lit(&mut out, " ^ ");
        push_text(&mut out, &take_payload(line));
        push_lit(&mut out, ");");
        out
    } else {
        copy_text(line)
    }
}

pub fn polish_crc_xor_return(src: &Vec<char>) -> (r: Vec<char>)
    ensures
        r@ == checksums_restored(src@),
{
    if !has_lit(src, "0x4e67c6a7") || has_lit(src, "^") || (!has_lit(src, "arg1") && !has_lit(src, "arg_8")
        && !has_lit(src, "arg_10")) {
        return copy_text(src);
    }
    let v = lines_of(src);
    let ghost d = deep(v@);
    let mut out: Vec<char> = Vec::new();
    let mut i: usize = 0;
    assert(out@ =~= Seq::empty());
    while i < v.len()
        invariant
            i <= v@.len(),
            d == deep(v@),
            out@ == checksum_lines(d, i as int),
        decreases v@.len() - i,
    {
        assert(d[i as int] == v@[i as int]@);
        if i > 0 {
            push_char(&mut out, '\n');
        }
        let piece = write_checksum_line(&v[i]);
        let ghost o = out@;
        push_text(&mut out, &piece);
        proof {
            if i == 0 {
                assert(o + piece@ =~= piece@);
            }
        }
        i += 1;
    }
    if ends_with_line(src) && !ends_with_line(&out) {
        push_char(&mut out, '\n');
    }
    out
}

// ─── Sentinels ──────────────────────────────────────────────────────────────

/// The line probes a byte.
pub open spec fn byteish(line: Seq<char>) -> bool {
    has(line, "*(char"@) || has(line, "char *"@) || has(line, "uint8"@) || has(line, "int8"@)
}

/// The line with zeros that are compared with bytes as characters.
pub open spec fn sentinel_line(line: Seq<char>) -> Seq<char> {
    if byteish(line) {
        replace(
            replace(
                replace(
                    replace(
                        replace(
                            replace(line, "== 0x0)"@, "== '\\0')"@),
                            "== 0x0"@,
                            "== '\\0'"@,
                        ),
                        "!= 0x0)"@,
                        "!= '\\0')"@,
                    ),
                    "!= 0x0"@,
                    "!= '\\0'"@,
                ),
                "== 0)"@,
                "== '\\0')"@,
            ),
            "!= 0)"@,
            "!= '\\0')"@,
        )
    } else {
        line
    }
}

fn write_sentinel_line(line: &Vec<char>) -> (r: Vec<char>)
    ensures
        r@ == sentinel_line(line@),
{
    if has_lit(line, "*(char") || has_lit(line, "char *") || has_lit(line, "uint8") || has_lit(line, "int8") {
        let a = replace_lit(line, "== 0x0)", "== '\\0')");
        let b = replace_lit(&a, "== 0x0", "== '\\0'");
        let c = replace_lit(&b, "!= 0x0)", "!= '\\0')");
        let d = replace_lit(&c, "!= 0x0", "!= '\\0'");
        let e = replace_lit(&d, "== 0)", "== '\\0')");
        replace_lit(&e, "!= 0)", "!= '\\0')")
    } else {
        copy_text(line)
    }
}

pub open spec fn sentinel_lines(v: Seq<Seq<char>>, n: int) -> Seq<char>
    decreases n,
{
    if n <= 0 {
        Seq::empty()
    } else {
        sentinel_lines(v, n - 1) + ended(sentinel_line(v[n - 1]))
    }
}

/// The text with its sentinels as characters and without empty `else` arms.
pub open spec fn sentinels_plain(src: Seq<char>) -> Seq<char> {
    replace(
        replace(
            sentinel_lines(lines(src), lines(src).len() as int),
            " else {\n        }\n"@,
            "\n"@,
        ),
        " else {\n    }\n"@,
        "\n"@,
    )
}

pub fn polish_sentinel_literals(src: &Vec<char>) -> (r: Vec<char>)
    ensures
        r@ == sentinels_plain(src@),
{
    let v = lines_of(src);
    let ghost d = deep(v@);
    let mut out: Vec<char> = Vec::new();
    let mut i: usize = 0;
    assert(out@ =~= Seq::empty());
    while i < v.len()
        invariant
            i <= v@.len(),
            d == deep(v@),
            out@ == sentinel_lines(d, i as int),
        decreases v@.len() - i,
    {
        assert(d[i as int] == v@[i as int]@);
        push_text(&mut out, &end_line(&write_sentinel_line(&v[i])));
        i += 1;
    }
    let a = replace_lit(&out, " else {\n        }\n", "\n");
    replace_lit(&a, " else {\n    }\n", "\n")
}

} // verus!
