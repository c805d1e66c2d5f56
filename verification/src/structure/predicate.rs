//! Text of conditions and returned values: noise removal and a normal form.

use vstd::prelude::*;
use crate::lines::{is_text_lt, is_wordy, join, join_items, lower_all, lower_text, text_lt, wordy};
use crate::text::{after, at, before, chars_of, copy_text, cut_prefix, cut_prefix_lit, cut_suffix, cut_suffix_lit, deep, find_any, find_any_lit, first_piece, first_piece_lit, has, has_lit, is_at, lacks, last_piece, last_piece_lit, new_items, opt_text, push_char, push_item, push_lit, push_text, rfind_any, rfind_any_lit, slice_text, string_of, text_after, text_before, trim, trim_end, trim_end_text, trim_start, trim_start_text, trim_text};

verus! {

broadcast use crate::text::lemma_deep_push;

// ─── Comments ───────────────────────────────────────────────────────────────

/// The bytes of the UTF-8 form of `c`, each as a character of its own.
pub open spec fn byte_chars(c: char) -> Seq<char> {
    let u = c as u32;
    if u < 0x80 {
        seq![c]
    } else if u < 0x800 {
        seq![(0xc0 + u / 64) as u8 as char, (0x80 + u % 64) as u8 as char]
    } else if u < 0x10000 {
        seq![
            (0xe0 + u / 4096) as u8 as char,
            (0x80 + u / 64 % 64) as u8 as char,
            (0x80 + u % 64) as u8 as char,
        ]
    } else {
        seq![
            (0xf0 + u / 262144) as u8 as char,
            (0x80 + u / 4096 % 64) as u8 as char,
            (0x80 + u / 64 % 64) as u8 as char,
            (0x80 + u % 64) as u8 as char,
        ]
    }
}

pub fn push_bytes(out: &mut Vec<char>, c: char)
    ensures
        final(out)@ == old(out)@ + byte_chars(c),
{
    let ghost before = out@;
    let u: u32 = c as u32;
    if u < 0x80 {
        out.push(c);
    } else if u < 0x800 {
        out.push((0xc0 + u / 64) as u8 as char);
        out.push((0x80 + u % 64) as u8 as char);
    } else if u < 0x10000 {
        out.push((0xe0 + u / 4096) as u8 as char);
        out.push((0x80 + u / 64 % 64) as u8 as char);
        out.push((0x80 + u % 64) as u8 as char);
    } else {
        out.push((0xf0 + u / 262144) as u8 as char);
        out.push((0x80 + u / 4096 % 64) as u8 as char);
        out.push((0x80 + u / 64 % 64) as u8 as char);
        out.push((0x80 + u % 64) as u8 as char);
    }
    assert(out@ =~= before + byte_chars(c));
}

/// Position behind the comment whose text starts at `i`.
pub open spec fn comment_end(t: Seq<char>, i: int) -> int
    decreases t.len() - i,
{
    if i + 1 >= t.len() {
        t.len() as int
    } else if t[i] == '*' && t[i + 1] == '/' {
        i + 2
    } else {
        comment_end(t, i + 1)
    }
}

pub proof fn lemma_comment_end(t: Seq<char>, i: int)
    requires
        i <= t.len(),
    ensures
        i <= comment_end(t, i) <= t.len(),
    decreases t.len() - i,
{
    if i + 1 < t.len() && !(t[i] == '*' && t[i + 1] == '/') {
        lemma_comment_end(t, i + 1);
    }
}

/// `acc` with the text from `i` on behind it, every comment as one blank and every
/// other byte as a character.
pub open spec fn uncommented_from(t: Seq<char>, i: int, acc: Seq<char>) -> Seq<char>
    decreases t.len() - i,
{
    if i < 0 || i >= t.len() {
        acc
    } else if i + 1 < t.len() && t[i] == '/' && t[i + 1] == '*' {
        if i < comment_end(t, i + 2) <= t.len() {
            uncommented_from(t, comment_end(t, i + 2), acc + seq![' '])
        } else {
            acc
        }
    } else {
        uncommented_from(t, i + 1, acc + byte_chars(t[i]))
    }
}

/// The text without comments.
pub open spec fn uncommented(t: Seq<char>) -> Seq<char> {
    uncommented_from(t, 0, Seq::empty())
}

pub fn strip_c_comments_light(t: &Vec<char>) -> (r: Vec<char>)
    ensures
        r@ == uncommented(t@),
{
    let mut out: Vec<char> = Vec::new();
    let mut i: usize = 0;
    assert(out@ =~= Seq::empty());
    while i < t.len()
        invariant
            i <= t@.len(),
            uncommented_from(t@, i as int, out@) == uncommented(t@),
        decreases t@.len() - i,
    {
        if i < t.len() - 1 && t[i] == '/' && t[i + 1] == '*' {
            let ghost from = i + 2;
            let mut k: usize = i + 2;
            let mut done = false;
            while !done
                invariant
                    from <= k <= t@.len(),
                    from == i + 2,
                    !done ==> comment_end(t@, k as int) == comment_end(t@, from),
                    done ==> k == comment_end(t@, from),
                decreases t@.len() - k + (if done {
                        0int
                    } else {
                        1int
                    }),
            {
                if k >= t.len() - 1 {
                    k = t.len();
                    done = true;
                } else if t[k] == '*' && t[k + 1] == '/' {
                    k += 2;
                    done = true;
                } else {
                    k += 1;
                }
            }
            push_char(&mut out, ' ');
            i = k;
        } else {
            push_bytes(&mut out, t[i]);
            i += 1;
        }
    }
    out
}

// ─── Comparisons ────────────────────────────────────────────────────────────

/// The comparison `op` at position `i`, with the words on both sides.
pub open spec fn relation(s: Seq<char>, i: int, op: Seq<char>) -> Option<Seq<char>> {
    if !at(s, op, i) {
        None
    } else {
        let left = trim(last_piece(trim_end(before(s, i)), "(, "@));
        let right = trim(first_piece(trim_start(after(s, i + op.len())), "), "@));
        if left.len() > 0 && right.len() > 0 {
            Some(left + " "@ + op + " "@ + right)
        } else {
            None
        }
    }
}

/// `a`, or else `b`.
pub open spec fn either(a: Option<Seq<char>>, b: Option<Seq<char>>) -> Option<Seq<char>> {
    match a {
        Some(_) => a,
        None => b,
    }
}

/// The comparison at position `i`, the longer operators first.
pub open spec fn relation_at(s: Seq<char>, i: int) -> Option<Seq<char>> {
    either(
        relation(s, i, "<="@),
        either(
            relation(s, i, ">="@),
            either(
                relation(s, i, "=="@),
                either(
                    relation(s, i, "!="@),
                    either(relation(s, i, "<"@), relation(s, i, ">"@)),
                ),
            ),
        ),
    )
}

/// How `c` changes the depth of parentheses.
pub open spec fn nesting(c: char) -> int {
    if c == '(' {
        1
    } else if c == ')' {
        -1
    } else {
        0
    }
}

/// The first comparison from `i` on outside parentheses.
pub open spec fn relation_from(s: Seq<char>, i: int, depth: int) -> Option<Seq<char>>
    decreases s.len() - i,
{
    if i < 0 || i >= s.len() {
        None
    } else {
        let d = depth + nesting(s[i]);
        if d == 0 && relation_at(s, i) is Some {
            relation_at(s, i)
        } else {
            relation_from(s, i + 1, d)
        }
    }
}

/// The first comparison outside parentheses.
pub open spec fn relational_core(s: Seq<char>) -> Option<Seq<char>> {
    relation_from(s, 0, 0)
}

fn find_relation(s: &Vec<char>, i: usize, op: &str) -> (r: Option<Vec<char>>)
    requires
        i < s@.len(),
    ensures
        opt_text(r) == relation(s@, i as int, op@),
{
    let o = chars_of(op);
    if !is_at(s, &o, i) {
        return None;
    }
    let n: usize = s.len();
    assert(i + o@.len() <= n);
    let left = trim_text(&last_piece_lit(&trim_end_text(&text_before(s, i)), "(, "));
    let right = trim_text(&first_piece_lit(&trim_start_text(&text_after(s, i + o.len())), "), "));
    if left.len() > 0 && right.len() > 0 {
        let mut t = left;
        push_lit(&mut t, " ");
        push_text(&mut t, &o);
        push_lit(&mut t, " ");
        push_text(&mut t, &right);
        Some(t)
    } else {
        None
    }
}

fn find_relation_at(s: &Vec<char>, i: usize) -> (r: Option<Vec<char>>)
    requires
        i < s@.len(),
    ensures
        opt_text(r) == relation_at(s@, i as int),
{
    let a = find_relation(s, i, "<=");
    if a.is_some() {
        return a;
    }
    let b = find_relation(s, i, ">=");
    if b.is_some() {
        return b;
    }
    let c = find_relation(s, i, "==");
    if c.is_some() {
        return c;
    }
    let d = find_relation(s, i, "!=");
    if d.is_some() {
        return d;
    }
    let e = find_relation(s, i, "<");
    if e.is_some() {
        return e;
    }
    find_relation(s, i, ">")
}

pub fn extract_relational_core(s: &Vec<char>) -> (r: Option<Vec<char>>)
    ensures
        opt_text(r) == relational_core(s@),
{
    let mut depth: i128 = 0;
    let mut i: usize = 0;
    while i < s.len()
        invariant
            i <= s@.len(),
            -(i as int) <= depth <= i,
            relation_from(s@, i as int, depth as int) == relational_core(s@),
        decreases s@.len() - i,
    {
        if s[i] == '(' {
            depth += 1;
        } else if s[i] == ')' {
            depth -= 1;
        }
        if depth == 0 {
            let found = find_relation_at(s, i);
            if found.is_some() {
                return found;
            }
        }
        i += 1;
    }
    None
}

/// The text mentions flag helpers.
pub open spec fn flag_noise(s: Seq<char>) -> bool {
    has(s, "IntSBorrow"@) || has(s, "IntSLess"@) || has(s, "IntLess"@) || has(s, "FLAG_"@) || has(
        s,
        "Bool"@,
    )
}

/// The text between the first opening and the last closing parenthesis, if it
/// compares.
pub open spec fn parenthesized_comparison(s: Seq<char>) -> Option<Seq<char>> {
    match (find_any(s, "("@), rfind_any(s, ")"@)) {
        (Some(a), Some(b)) => if b > a {
            let inner = trim(s.subrange(a + 1, b));
            if relational_core(inner) is Some || has(inner, "<"@) || has(inner, ">"@) {
                Some(inner)
            } else {
                None
            }
        } else {
            None
        },
        _ => None,
    }
}

/// A condition in its shortest readable form: its comparison, if it holds one, and
/// no double negation.
pub open spec fn simplified(expr: Seq<char>) -> Seq<char> {
    let s = trim(uncommented(trim(expr)));
    match relational_core(s) {
        Some(rel) => rel,
        None => {
            let inner = if flag_noise(s) {
                parenthesized_comparison(s)
            } else {
                None
            };
            match inner {
                Some(t) => t,
                None => {
                    let unwrapped = match cut_prefix(s, "!(!"@) {
                        Some(t) => cut_suffix(t, "))"@),
                        None => None,
                    };
                    match unwrapped {
                        Some(t) => t,
                        None => match cut_prefix(s, "!!"@) {
                            Some(t) => t,
                            None => s,
                        },
                    }
                },
            }
        },
    }
}

fn find_parenthesized(s: &Vec<char>) -> (r: Option<Vec<char>>)
    ensures
        opt_text(r) == parenthesized_comparison(s@),
{
    if let Some(a) = find_any_lit(s, "(") {
        if let Some(b) = rfind_any_lit(s, ")") {
            if b > a {
                let inner = trim_text(&slice_text(s, a + 1, b));
                if extract_relational_core(&inner).is_some() || has_lit(&inner, "<") || has_lit(
                    &inner,
                    ">",
                ) {
                    return Some(inner);
                }
            }
        }
    }
    None
}

pub fn simplify_text(expr: &Vec<char>) -> (r: Vec<char>)
    ensures
        r@ == simplified(expr@),
{
    let s = trim_text(&strip_c_comments_light(&trim_text(expr)));
    if let Some(rel) = extract_relational_core(&s) {
        return rel;
    }
    if has_lit(&s, "IntSBorrow") || has_lit(&s, "IntSLess") || has_lit(&s, "IntLess") || has_lit(
        &s,
        "FLAG_",
    ) || has_lit(&s, "Bool") {
        if let Some(inner) = find_parenthesized(&s) {
            return inner;
        }
    }
    if let Some(t) = cut_prefix_lit(&s, "!(!") {
        if let Some(inner) = cut_suffix_lit(&t, "))") {
            return inner;
        }
    }
    if let Some(inner) = cut_prefix_lit(&s, "!!") {
        return inner;
    }
    s
}

/// Collapse flag-helper noise into the comparison that the expression carries.
pub fn simplify_predicate_expr(expr: &str) -> (r: String)
    ensures
        r@ == simplified(expr@),
{
    string_of(&simplify_text(&chars_of(expr)))
}

// ─── Returned values ────────────────────────────────────────────────────────

/// `c` is an operator that decides the class of an expression.
pub open spec fn class_operator(c: char) -> bool {
    c == '+' || c == '-' || c == '*' || c == '/' || c == '^' || c == '&' || c == '|' || c == '%'
}

/// The last operator outside parentheses from `i` on, or else `last`.
pub open spec fn outer_from(t: Seq<char>, i: int, depth: int, last: char) -> char
    decreases t.len() - i,
{
    if i < 0 || i >= t.len() {
        last
    } else {
        outer_from(
            t,
            i + 1,
            depth + nesting(t[i]),
            if depth == 0 && class_operator(t[i]) {
                t[i]
            } else {
                last
            },
        )
    }
}

/// The outer operator of an expression; `?` if it has none.
pub open spec fn outer_class(expr: Seq<char>) -> char {
    outer_from(trim(expr), 0, 0, '?')
}

/// `normalized`, unless its outer operator differs from that of `original`.
pub open spec fn guarded(normalized: Seq<char>, original: Seq<char>) -> Seq<char> {
    let a = outer_class(original);
    let b = outer_class(normalized);
    if a != '?' && b != '?' && a != b {
        original
    } else {
        normalized
    }
}

fn outer_class_of(expr: &Vec<char>) -> (r: char)
    ensures
        r == outer_class(expr@),
{
    let e = trim_text(expr);
    let mut depth: i128 = 0;
    let mut last: char = '?';
    let mut i: usize = 0;
    while i < e.len()
        invariant
            i <= e@.len(),
            e@ == trim(expr@),
            -(i as int) <= depth <= i,
            outer_from(e@, i as int, depth as int, last) == outer_class(expr@),
        decreases e@.len() - i,
    {
        let c = e[i];
        if c == '(' {
            depth += 1;
        } else if c == ')' {
            depth -= 1;
        } else if depth == 0 && (c == '+' || c == '-' || c == '*' || c == '/' || c == '^' || c == '&'
            || c == '|' || c == '%') {
            last = c;
        }
        i += 1;
    }
    last
}

/// Outer operator class of a returned expression.
pub fn return_outer_class(expr: &str) -> (r: char)
    ensures
        r == outer_class(expr@),
{
    outer_class_of(&chars_of(expr))
}

pub fn guard_text(normalized: &Vec<char>, original: &Vec<char>) -> (r: Vec<char>)
    ensures
        r@ == guarded(normalized@, original@),
{
    let a = outer_class_of(original);
    let b = outer_class_of(normalized);
    if a != '?' && b != '?' && a != b {
        copy_text(original)
    } else {
        copy_text(normalized)
    }
}

/// Reject rewrites that change the outer operator class.
pub fn guard_return_class(normalized: &str, original: &str) -> (r: String)
    ensures
        r@ == guarded(normalized@, original@),
{
    string_of(&guard_text(&chars_of(normalized), &chars_of(original)))
}

/// The guard never lets one known outer operator turn into another.
pub proof fn law_guard_keeps_class(normalized: Seq<char>, original: Seq<char>)
    ensures
        outer_class(original) != '?' && outer_class(guarded(normalized, original)) != '?'
            ==> outer_class(guarded(normalized, original)) == outer_class(original),
        guarded(normalized, original) == normalized || guarded(normalized, original) == original,
{
}

/// The pieces of `t` between occurrences of `c` from `start` on, added to `acc`; no
/// `c` stands in `start..i`.
pub open spec fn pieces_from(t: Seq<char>, c: char, start: int, i: int, acc: Seq<Seq<char>>) -> Seq<Seq<char>>
    decreases t.len() - i,
{
    if i < 0 || i >= t.len() {
        acc.push(t.subrange(start, t.len() as int))
    } else if t[i] == c {
        pieces_from(t, c, i + 1, i + 1, acc.push(t.subrange(start, i)))
    } else {
        pieces_from(t, c, start, i + 1, acc)
    }
}

/// The pieces of `t` between occurrences of `c`.
pub open spec fn pieces(t: Seq<char>, c: char) -> Seq<Seq<char>> {
    pieces_from(t, c, 0, 0, Seq::empty())
}

/// The first `n` pieces, trimmed, without the empty ones.
pub open spec fn operands(p: Seq<Seq<char>>, n: int) -> Seq<Seq<char>>
    decreases n,
{
    if n <= 0 {
        Seq::empty()
    } else if trim(p[n - 1]).len() > 0 {
        operands(p, n - 1).push(trim(p[n - 1]))
    } else {
        operands(p, n - 1)
    }
}

/// Position of the first text that `x` stands before.
pub open spec fn place(v: Seq<Seq<char>>, x: Seq<char>, i: int) -> int
    decreases v.len() - i,
{
    if i < 0 || i >= v.len() || text_lt(x, v[i]) {
        i
    } else {
        place(v, x, i + 1)
    }
}

/// The first `n` texts in ascending order.
pub open spec fn ordered_texts(v: Seq<Seq<char>>, n: int) -> Seq<Seq<char>>
    decreases n,
{
    if n <= 0 {
        Seq::empty()
    } else {
        let done = ordered_texts(v, n - 1);
        done.insert(place(done, v[n - 1], 0), v[n - 1])
    }
}

/// The operands of a flat chain of `c`, sorted and joined.
pub open spec fn sorted_chain(e: Seq<char>, c: char, lit: Seq<char>, sep: Seq<char>) -> Option<Seq<char>> {
    let ops = operands(pieces(e, c), pieces(e, c).len() as int);
    if has(e, lit) && lacks(e, "-"@) && lacks(e, "/"@) && lacks(e, "^"@) && ops.len() >= 2 {
        Some(join(ordered_texts(ops, ops.len() as int), sep))
    } else {
        None
    }
}

/// A returned expression in a form that does not depend on the order of the operands
/// of a flat sum or product.
pub open spec fn normalized_class(expr: Seq<char>) -> Seq<char> {
    let e = trim(expr);
    if has(e, "("@) || has(e, ")"@) {
        e
    } else {
        match sorted_chain(e, '+', "+"@, " + "@) {
            Some(t) => t,
            None => match sorted_chain(e, '*', "*"@, " * "@) {
                Some(t) => t,
                None => e,
            },
        }
    }
}

fn split_at(t: &Vec<char>, c: char) -> (r: Vec<Vec<char>>)
    ensures
        deep(r@) == pieces(t@, c),
{
    let mut out = new_items();
    let mut start: usize = 0;
    let mut i: usize = 0;
    while i < t.len()
        invariant
            start <= i <= t@.len(),
            pieces_from(t@, c, start as int, i as int, deep(out@)) == pieces(t@, c),
        decreases t@.len() - i,
    {
        if t[i] == c {
            push_item(&mut out, slice_text(t, start, i));
            start = i + 1;
        }
        i += 1;
    }
    push_item(&mut out, slice_text(t, start, t.len()));
    out
}

fn operands_of(p: &Vec<Vec<char>>) -> (r: Vec<Vec<char>>)
    ensures
        deep(r@) == operands(deep(p@), p@.len() as int),
{
    let mut out = new_items();
    let mut i: usize = 0;
    while i < p.len()
        invariant
            i <= p@.len(),
            deep(out@) == operands(deep(p@), i as int),
        decreases p@.len() - i,
    {
        let t = trim_text(&p[i]);
        assert(deep(p@)[i as int] == p@[i as int]@);
        if t.len() > 0 {
            push_item(&mut out, t);
        }
        i += 1;
    }
    out
}

fn sort_texts(v: &Vec<Vec<char>>) -> (r: Vec<Vec<char>>)
    ensures
        deep(r@) == ordered_texts(deep(v@), v@.len() as int),
{
    let mut out = new_items();
    let mut n: usize = 0;
    while n < v.len()
        invariant
            n <= v@.len(),
            deep(out@) == ordered_texts(deep(v@), n as int),
        decreases v@.len() - n,
    {
        let x = &v[n];
        let ghost done = deep(out@);
        assert(deep(v@)[n as int] == x@);
        let mut i: usize = 0;
        let mut found = false;
        while !found && i < out.len()
            invariant
                i <= out@.len(),
                done == deep(out@),
                !found ==> place(done, x@, i as int) == place(done, x@, 0),
                found ==> i == place(done, x@, 0),
            decreases out@.len() - i + (if found {
                    0int
                } else {
                    1int
                }),
        {
            assert(done[i as int] == out@[i as int]@);
            if is_text_lt(x, &out[i]) {
                found = true;
            } else {
                i += 1;
            }
        }
        let ghost before = out@;
        out.insert(i, copy_text(x));
        assert(deep(out@) =~= deep(before).insert(i as int, x@));
        n += 1;
    }
    out
}

fn sort_chain(e: &Vec<char>, c: char, lit: &str, sep: &str) -> (r: Option<Vec<char>>)
    ensures
        opt_text(r) == sorted_chain(e@, c, lit@, sep@),
{
    if !has_lit(e, lit) || has_lit(e, "-") || has_lit(e, "/") || has_lit(e, "^") {
        return None;
    }
    let ops = operands_of(&split_at(e, c));
    if ops.len() < 2 {
        return None;
    }
    Some(join_items(&sort_texts(&ops), sep))
}

pub fn normalize_text(expr: &Vec<char>) -> (r: Vec<char>)
    ensures
        r@ == normalized_class(expr@),
{
    let e = trim_text(expr);
    if has_lit(&e, "(") || has_lit(&e, ")") {
        return e;
    }
    if let Some(t) = sort_chain(&e, '+', "+", " + ") {
        return t;
    }
    if let Some(t) = sort_chain(&e, '*', "*", " * ") {
        return t;
    }
    e
}

/// Normalize a returned expression under reordering of `+` and `*` chains.
pub fn normalize_return_class_expr(expr: &str) -> (r: String)
    ensures
        r@ == normalized_class(expr@),
{
    string_of(&normalize_text(&chars_of(expr)))
}

/// `a` stands before `b`, or is the same text.
pub open spec fn text_le(a: Seq<char>, b: Seq<char>) -> bool {
    !text_lt(b, a)
}

pub proof fn lemma_lt_irreflexive(a: Seq<char>)
    ensures
        !text_lt(a, a),
    decreases a.len(),
{
    if a.len() > 0 {
        lemma_lt_irreflexive(a.drop_first());
    }
}

proof fn lemma_code_points(a: char, b: char)
    requires
        a != b,
    ensures
        a as u32 != b as u32,
{
}

pub proof fn lemma_lt_total(a: Seq<char>, b: Seq<char>)
    ensures
        text_lt(a, b) || text_lt(b, a) || a == b,
        !(text_lt(a, b) && text_lt(b, a)),
    decreases a.len(),
{
    if a.len() > 0 && b.len() > 0 {
        if a[0] == b[0] {
            lemma_lt_total(a.drop_first(), b.drop_first());
            if a.drop_first() == b.drop_first() {
                assert(a =~= seq![a[0]] + a.drop_first());
                assert(b =~= seq![b[0]] + b.drop_first());
            }
        } else {
            lemma_code_points(a[0], b[0]);
        }
    } else if a.len() == 0 && b.len() == 0 {
        assert(a =~= b);
    }
}

pub proof fn lemma_lt_transitive(a: Seq<char>, b: Seq<char>, c: Seq<char>)
    requires
        text_lt(a, b),
        text_lt(b, c),
    ensures
        text_lt(a, c),
    decreases a.len(),
{
    if a.len() > 0 && a[0] == b[0] && b[0] == c[0] {
        lemma_lt_transitive(a.drop_first(), b.drop_first(), c.drop_first());
    }
}

proof fn lemma_le_total_order()
    ensures
        vstd::relations::total_ordering(|a: Seq<char>, b: Seq<char>| text_le(a, b)),
{
    let le = |a: Seq<char>, b: Seq<char>| text_le(a, b);
    assert forall|a: Seq<char>| #[trigger] le(a, a) by {
        lemma_lt_irreflexive(a);
    }
    assert forall|a: Seq<char>, b: Seq<char>| #[trigger] le(a, b) && #[trigger] le(b, a) implies a
        == b by {
        lemma_lt_total(a, b);
    }
    assert forall|a: Seq<char>, b: Seq<char>| #[trigger] le(a, b) || #[trigger] le(b, a) by {
        lemma_lt_total(a, b);
    }
    assert forall|a: Seq<char>, b: Seq<char>, c: Seq<char>| #[trigger]
        le(a, b) && #[trigger] le(b, c) implies le(a, c) by {
        lemma_lt_total(a, b);
        lemma_lt_total(b, c);
        lemma_lt_total(a, c);
        if text_lt(c, a) {
            if text_lt(a, b) {
                lemma_lt_transitive(c, a, b);
            }
        }
    }
}

proof fn lemma_place(v: Seq<Seq<char>>, x: Seq<char>, i: int)
    requires
        0 <= i <= v.len(),
    ensures
        i <= place(v, x, i) <= v.len(),
        forall|k: int| i <= k < place(v, x, i) ==> !text_lt(x, #[trigger] v[k]),
        place(v, x, i) < v.len() ==> text_lt(x, v[place(v, x, i)]),
    decreases v.len() - i,
{
    if i < v.len() && !text_lt(x, v[i]) {
        lemma_place(v, x, i + 1);
    }
}

proof fn lemma_ordered(v: Seq<Seq<char>>, n: int)
    requires
        0 <= n <= v.len(),
    ensures
        vstd::relations::sorted_by(
            ordered_texts(v, n),
            |a: Seq<char>, b: Seq<char>| text_le(a, b),
        ),
        ordered_texts(v, n).to_multiset() == v.take(n).to_multiset(),
        ordered_texts(v, n).len() == n,
    decreases n,
{
    let le = |a: Seq<char>, b: Seq<char>| text_le(a, b);
    broadcast use vstd::seq_lib::group_to_multiset_ensures;

    if n > 0 {
        lemma_ordered(v, n - 1);
        let s = ordered_texts(v, n - 1);
        let x = v[n - 1];
        let k = place(s, x, 0);
        lemma_place(s, x, 0);
        let t = s.insert(k, x);
        vstd::seq_lib::to_multiset_insert(s, k, x);
        assert(v.take(n) =~= v.take(n - 1).push(x));
        assert forall|i: int, j: int| 0 <= i < j < t.len() implies #[trigger] le(t[i], t[j]) by {
            if j < k {
                assert(le(s[i], s[j]));
            } else if j == k {
                assert(t[i] == s[i]);
            } else if i == k {
                assert(t[j] == s[j - 1]);
                if k < j - 1 {
                    assert(le(s[k], s[j - 1]));
                }
                lemma_lt_total(x, s[k]);
                lemma_lt_total(s[k], s[j - 1]);
                lemma_lt_total(x, s[j - 1]);
                if text_lt(s[j - 1], x) {
                    lemma_lt_transitive(s[j - 1], x, s[k]);
                }
            } else {
                let a = if i < k {
                    i
                } else {
                    i - 1
                };
                assert(le(s[a], s[j - 1]));
            }
        }
    } else {
        assert(v.take(0) =~= Seq::empty());
    }
}

/// The order of the operands does not matter: chains with the same operands have
/// the same normal form.
pub proof fn law_operand_order_is_irrelevant(a: Seq<Seq<char>>, b: Seq<Seq<char>>)
    requires
        a.to_multiset() == b.to_multiset(),
    ensures
        ordered_texts(a, a.len() as int) == ordered_texts(b, b.len() as int),
{
    lemma_ordered(a, a.len() as int);
    lemma_ordered(b, b.len() as int);
    assert(a.take(a.len() as int) =~= a);
    assert(b.take(b.len() as int) =~= b);
    lemma_le_total_order();
    vstd::seq_lib::lemma_sorted_unique(
        ordered_texts(a, a.len() as int),
        ordered_texts(b, b.len() as int),
        |a: Seq<char>, b: Seq<char>| text_le(a, b),
    );
}

// ─── Shapes of expressions ──────────────────────────────────────────────────

/// One identifier and nothing else.
pub open spec fn bare_name(expr: Seq<char>) -> bool {
    trim(expr).len() > 0 && wordy(trim(expr), "_@"@)
}

pub fn expr_is_bare_name(expr: &Vec<char>) -> (r: bool)
    ensures
        r == bare_name(expr@),
{
    let e = trim_text(expr);
    e.len() > 0 && is_wordy(&e, "_@")
}

/// Address arithmetic on the frame, with no other value in it.
pub open spec fn frame_arithmetic(expr: Seq<char>) -> bool {
    let e = lower_all(trim(expr));
    &&& has(e, "fp"@) || has(e, "rbp"@) || has(e, "rsp"@) || has(e, "sp_"@)
    &&& has(e, "+"@) || has(e, "-"@)
    &&& !(has(e, "mem_"@) || has(e, "arg_1"@) || has(e, "arg_2"@) || has(e, "arg_3"@) || has(
        e,
        "arg_4"@,
    ) || has(e, "arg_8"@) || has(e, "arg_10"@) || has(e, "arg_18"@) || has(e, "arg_20"@) || has(
        e,
        "arg_28"@,
    ))
}

pub fn is_frame_epilogue_expr(expr: &Vec<char>) -> (r: bool)
    ensures
        r == frame_arithmetic(expr@),
{
    let e = lower_text(&trim_text(expr));
    if !(has_lit(&e, "fp") || has_lit(&e, "rbp") || has_lit(&e, "rsp") || has_lit(&e, "sp_")) {
        return false;
    }
    if !(has_lit(&e, "+") || has_lit(&e, "-")) {
        return false;
    }
    !(has_lit(&e, "mem_") || has_lit(&e, "arg_1") || has_lit(&e, "arg_2") || has_lit(&e, "arg_3")
        || has_lit(&e, "arg_4") || has_lit(&e, "arg_8") || has_lit(&e, "arg_10") || has_lit(
        &e,
        "arg_18",
    ) || has_lit(&e, "arg_20") || has_lit(&e, "arg_28"))
}

} // verus!
