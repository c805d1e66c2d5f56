//! Text passes over labels and jumps: redundant jumps go, jumps into short leaves
//! become those leaves, and labels without a jump are dropped.

use vstd::prelude::*;
use crate::lines::{closed_line, close_line, join, join_items, lines, lines_of, lower_all, lower_text, width};
use crate::structure::predicate::nesting;
use crate::text::{after, before, chars_of, copy_text, cut_prefix, cut_prefix_lit, cut_suffix, cut_suffix_lit, deep, drop_words, drop_words_lit, ends, ends_lit, find, find_lit, first_piece, first_piece_lit, has, has_item, has_lit, indent, indent_text, is_lit, new_items, opt_text, push_item, push_lit, push_text, same, slice_text, starts, starts_lit, string_of, strip_end, strip_end_lit, text_after, text_before, trim, trim_end, trim_end_text, trim_start, trim_start_text, trim_text};

verus! {

broadcast use crate::text::lemma_deep_push;

// ─── Labels and jumps ───────────────────────────────────────────────────────

/// `t`, if it can be a label.
pub open spec fn label_name(t: Option<Seq<char>>) -> Option<Seq<char>> {
    match t {
        Some(l) => if starts(l, "L"@) {
            Some(l)
        } else {
            None
        },
        None => None,
    }
}

/// The target of a line that is a jump and nothing else.
pub open spec fn goto_of(t: Seq<char>) -> Option<Seq<char>> {
    label_name(
        match cut_prefix(t, "goto "@) {
            Some(rest) => match cut_suffix(rest, ";"@) {
                Some(l) => Some(trim(l)),
                None => None,
            },
            None => None,
        },
    )
}

/// The label at the start of a text.
pub open spec fn leading_label(rest: Seq<char>) -> Option<Seq<char>> {
    label_name(Some(trim(first_piece(rest, "; /"@))))
}

/// The target of a line that starts with a jump.
pub open spec fn loose_goto_of(t: Seq<char>) -> Option<Seq<char>> {
    match cut_prefix(trim(t), "goto "@) {
        Some(rest) => leading_label(rest),
        None => None,
    }
}

/// The name of a label line.
pub open spec fn label_of(t: Seq<char>) -> Option<Seq<char>> {
    label_name(cut_suffix(t, ":"@))
}

fn keep_label(t: Option<Vec<char>>) -> (r: Option<Vec<char>>)
    ensures
        opt_text(r) == label_name(opt_text(t)),
{
    match t {
        Some(l) => if starts_lit(&l, "L") {
            Some(l)
        } else {
            None
        },
        None => None,
    }
}

fn parse_goto(t: &Vec<char>) -> (r: Option<Vec<char>>)
    ensures
        opt_text(r) == goto_of(t@),
{
    let l: Option<Vec<char>> = match cut_prefix_lit(t, "goto ") {
        Some(rest) => match cut_suffix_lit(&rest, ";") {
            Some(l) => Some(trim_text(&l)),
            None => None,
        },
        None => None,
    };
    keep_label(l)
}

fn parse_leading_label(rest: &Vec<char>) -> (r: Option<Vec<char>>)
    ensures
        opt_text(r) == leading_label(rest@),
{
    let l = trim_text(&first_piece_lit(rest, "; /"));
    keep_label(Some(l))
}

fn parse_goto_loose(t: &Vec<char>) -> (r: Option<Vec<char>>)
    ensures
        opt_text(r) == loose_goto_of(t@),
{
    match cut_prefix_lit(&trim_text(t), "goto ") {
        Some(rest) => parse_leading_label(&rest),
        None => None,
    }
}

pub fn parse_label(t: &Vec<char>) -> (r: Option<Vec<char>>)
    ensures
        opt_text(r) == label_of(t@),
{
    keep_label(cut_suffix_lit(t, ":"))
}

/// Both are the same text, and there is one.
fn same_label(a: &Option<Vec<char>>, b: &Vec<char>) -> (r: bool)
    ensures
        r == (opt_text(*a) == Some(b@)),
{
    match a {
        Some(x) => same(x, b),
        None => false,
    }
}

/// Line `i` names label `l`.
pub open spec fn labels(v: Seq<Seq<char>>, i: int, l: Seq<char>) -> bool {
    label_of(trim(v[i])) == Some(l)
}

/// A line jumps to label `l`; a strict jump is the whole line.
pub open spec fn jumps(v: Seq<Seq<char>>, i: int, l: Seq<char>, loose: bool) -> bool {
    if loose {
        loose_goto_of(trim(v[i])) == Some(l)
    } else {
        goto_of(trim(v[i])) == Some(l)
    }
}

/// Some line jumps to label `l`.
pub open spec fn targeted(v: Seq<Seq<char>>, l: Seq<char>, loose: bool) -> bool {
    exists|i: int| 0 <= i < v.len() && #[trigger] jumps(v, i, l, loose)
}

/// Some line names label `l`.
pub open spec fn defined(v: Seq<Seq<char>>, l: Seq<char>) -> bool {
    exists|i: int| 0 <= i < v.len() && #[trigger] labels(v, i, l)
}

fn is_targeted(v: &Vec<Vec<char>>, l: &Vec<char>, loose: bool) -> (r: bool)
    ensures
        r == targeted(deep(v@), l@, loose),
{
    let mut i: usize = 0;
    while i < v.len()
        invariant
            i <= v@.len(),
            forall|j: int| 0 <= j < i ==> !(#[trigger] jumps(deep(v@), j, l@, loose)),
        decreases v@.len() - i,
    {
        let t = trim_text(&v[i]);
        let g = if loose {
            parse_goto_loose(&t)
        } else {
            parse_goto(&t)
        };
        assert(deep(v@)[i as int] == v@[i as int]@);
        if same_label(&g, l) {
            assert(jumps(deep(v@), i as int, l@, loose));
            return true;
        }
        i += 1;
    }
    false
}

fn is_defined(v: &Vec<Vec<char>>, l: &Vec<char>) -> (r: bool)
    ensures
        r == defined(deep(v@), l@),
{
    let mut i: usize = 0;
    while i < v.len()
        invariant
            i <= v@.len(),
            forall|j: int| 0 <= j < i ==> !(#[trigger] labels(deep(v@), j, l@)),
        decreases v@.len() - i,
    {
        let g = parse_label(&trim_text(&v[i]));
        assert(deep(v@)[i as int] == v@[i as int]@);
        if same_label(&g, l) {
            assert(labels(deep(v@), i as int, l@));
            return true;
        }
        i += 1;
    }
    false
}

/// The first `n` lines without the labels that no line of `v` jumps to.
pub open spec fn without_idle_labels(v: Seq<Seq<char>>, loose: bool, n: int) -> Seq<Seq<char>>
    decreases n,
{
    if n <= 0 {
        Seq::empty()
    } else {
        let done = without_idle_labels(v, loose, n - 1);
        match label_of(trim(v[n - 1])) {
            Some(l) => if targeted(v, l, loose) {
                done.push(v[n - 1])
            } else {
                done
            },
            None => done.push(v[n - 1]),
        }
    }
}

fn drop_idle_labels(v: &Vec<Vec<char>>, loose: bool) -> (r: Vec<Vec<char>>)
    ensures
        deep(r@) == without_idle_labels(deep(v@), loose, v@.len() as int),
{
    let mut r = new_items();
    let mut i: usize = 0;
    while i < v.len()
        invariant
            i <= v@.len(),
            deep(r@) == without_idle_labels(deep(v@), loose, i as int),
        decreases v@.len() - i,
    {
        assert(deep(v@)[i as int] == v@[i as int]@);
        let keep = match parse_label(&trim_text(&v[i])) {
            Some(l) => is_targeted(v, &l, loose),
            None => true,
        };
        if keep {
            push_item(&mut r, copy_text(&v[i]));
        }
        i += 1;
    }
    r
}

/// Position of the first line from `i` on that is not blank.
pub open spec fn filled_from(v: Seq<Seq<char>>, i: int) -> int
    decreases v.len() - i,
{
    if i < 0 || i >= v.len() || trim(v[i]).len() > 0 {
        i
    } else {
        filled_from(v, i + 1)
    }
}

fn next_filled(v: &Vec<Vec<char>>, from: usize) -> (r: usize)
    requires
        from <= v@.len(),
    ensures
        r == filled_from(deep(v@), from as int),
        from <= r <= v@.len(),
{
    let mut i: usize = from;
    let mut found = false;
    while i < v.len() && !found
        invariant
            from <= i <= v@.len(),
            filled_from(deep(v@), i as int) == filled_from(deep(v@), from as int),
            found ==> i == filled_from(deep(v@), from as int),
        decreases v@.len() - i + (if found {
                0int
            } else {
                1int
            }),
    {
        assert(deep(v@)[i as int] == v@[i as int]@);
        if trim_text(&v[i]).len() > 0 {
            found = true;
        } else {
            i += 1;
        }
    }
    i
}

// ─── Redundant jumps ────────────────────────────────────────────────────────

/// Line `i` jumps to the label on the next line that is not blank.
pub open spec fn falls_through(v: Seq<Seq<char>>, i: int) -> bool {
    match goto_of(trim(v[i])) {
        Some(l) => {
            let j = filled_from(v, i + 1);
            j < v.len() && labels(v, j, l)
        },
        None => false,
    }
}

/// The first `n` lines without the jumps that fall through anyway.
pub open spec fn without_redundant(v: Seq<Seq<char>>, n: int) -> Seq<Seq<char>>
    decreases n,
{
    if n <= 0 {
        Seq::empty()
    } else if falls_through(v, n - 1) {
        without_redundant(v, n - 1)
    } else {
        without_redundant(v, n - 1).push(v[n - 1])
    }
}

/// Position of the parenthesis that closes the one at the start, from `i` on.
pub open spec fn closing_from(t: Seq<char>, i: int, depth: int) -> Option<int>
    decreases t.len() - i,
{
    if i < 0 || i >= t.len() {
        None
    } else {
        let d = depth + nesting(t[i]);
        if t[i] == ')' && d == 0 {
            Some(i)
        } else {
            closing_from(t, i + 1, d)
        }
    }
}

fn find_closing(t: &Vec<char>) -> (r: Option<usize>)
    ensures
        crate::text::idx(r) == closing_from(t@, 0, 0),
        r is Some ==> r->0 < t@.len(),
{
    let mut depth: i128 = 0;
    let mut i: usize = 0;
    while i < t.len()
        invariant
            i <= t@.len(),
            -(i as int) <= depth <= i,
            closing_from(t@, i as int, depth as int) == closing_from(t@, 0, 0),
        decreases t@.len() - i,
    {
        if t[i] == '(' {
            depth += 1;
        } else if t[i] == ')' {
            depth -= 1;
            if depth == 0 {
                return Some(i);
            }
        }
        i += 1;
    }
    None
}

/// The text between the parentheses of an `if`.
pub open spec fn if_condition(line: Seq<char>) -> Option<Seq<char>> {
    match cut_prefix(trim(line), "if"@) {
        Some(r) => {
            let rest = trim_start(r);
            if starts(rest, "("@) {
                match closing_from(rest, 0, 0) {
                    Some(i) => if 1 <= i {
                        Some(trim(rest.subrange(1, i)))
                    } else {
                        None
                    },
                    None => None,
                }
            } else {
                None
            }
        },
        None => None,
    }
}

pub fn extract_if_cond(line: &Vec<char>) -> (r: Option<Vec<char>>)
    ensures
        opt_text(r) == if_condition(line@),
{
    match cut_prefix_lit(&trim_text(line), "if") {
        Some(t) => {
            let rest = trim_start_text(&t);
            if !starts_lit(&rest, "(") {
                return None;
            }
            match find_closing(&rest) {
                Some(i) => if 1 <= i {
                    Some(trim_text(&slice_text(&rest, 1, i)))
                } else {
                    None
                },
                None => None,
            }
        },
        None => None,
    }
}

/// The condition under which `if (!cond) break;` goes on.
pub open spec fn break_condition(line: Seq<char>) -> Option<Seq<char>> {
    if !(has(trim(line), "break"@)) {
        None
    } else {
        match if_condition(line) {
            Some(inside) => {
                let wrapped = match cut_prefix(inside, "!("@) {
                    Some(t) => cut_suffix(t, ")"@),
                    None => None,
                };
                let cond = match wrapped {
                    Some(t) => Some(trim(t)),
                    None => match cut_prefix(inside, "!"@) {
                        Some(t) => Some(trim(t)),
                        None => None,
                    },
                };
                match cond {
                    Some(c) => if c.len() > 0 {
                        Some(c)
                    } else {
                        None
                    },
                    None => None,
                }
            },
            None => None,
        }
    }
}

fn parse_if_not_break(line: &Vec<char>) -> (r: Option<Vec<char>>)
    ensures
        opt_text(r) == break_condition(line@),
{
    if !has_lit(&trim_text(line), "break") {
        return None;
    }
    match extract_if_cond(line) {
        Some(inside) => {
            let wrapped: Option<Vec<char>> = match cut_prefix_lit(&inside, "!(") {
                Some(t) => cut_suffix_lit(&t, ")"),
                None => None,
            };
            let cond: Option<Vec<char>> = match wrapped {
                Some(t) => Some(trim_text(&t)),
                None => match cut_prefix_lit(&inside, "!") {
                    Some(t) => Some(trim_text(&t)),
                    None => None,
                },
            };
            match cond {
                Some(c) => if c.len() > 0 {
                    Some(c)
                } else {
                    None
                },
                None => None,
            }
        },
        None => None,
    }
}

/// `n` blanks.
pub open spec fn blanks(n: int) -> Seq<char>
    decreases n,
{
    if n <= 0 {
        Seq::empty()
    } else {
        blanks(n - 1) + " "@
    }
}

/// One blank for every byte of the first `n` characters.
pub open spec fn blanked(t: Seq<char>, n: int) -> Seq<char>
    decreases n,
{
    if n <= 0 {
        Seq::empty()
    } else {
        blanked(t, n - 1) + blanks(width(t[n - 1]) as int)
    }
}

fn blank_out(t: &Vec<char>) -> (r: Vec<char>)
    ensures
        r@ == blanked(t@, t@.len() as int),
{
    let mut r: Vec<char> = Vec::new();
    let mut i: usize = 0;
    assert(r@ =~= Seq::empty());
    while i < t.len()
        invariant
            i <= t@.len(),
            r@ == blanked(t@, i as int),
        decreases t@.len() - i,
    {
        let u: u32 = t[i] as u32;
        let w: usize = if u < 0x80 {
            1
        } else if u < 0x800 {
            2
        } else if u < 0x10000 {
            3
        } else {
            4
        };
        let mut piece: Vec<char> = Vec::new();
        let mut k: usize = 0;
        assert(piece@ =~= Seq::empty());
        while k < w
            invariant
                k <= w <= 4,
                piece@ == blanks(k as int),
            decreases w - k,
        {
            push_lit(&mut piece, " ");
            k += 1;
        }
        push_text(&mut r, &piece);
        i += 1;
    }
    r
}

/// The line opens a loop without condition.
pub open spec fn endless(t: Seq<char>) -> bool {
    starts(t, "while"@) && (has(t, "(1)"@) || has(t, "(true)"@) || has(t, "(0x1)"@)) && ends(t, "{"@)
}

/// The condition of the endless loop on line `i`, if it starts with a conditional
/// break, and the line behind that break.
pub open spec fn bounded_loop(v: Seq<Seq<char>>, i: int) -> Option<(Seq<char>, int)> {
    if endless(trim(v[i])) {
        let j = filled_from(v, i + 1);
        if j < v.len() {
            match break_condition(trim(v[j])) {
                Some(c) => Some((c, j + 1)),
                None => None,
            }
        } else {
            None
        }
    } else {
        None
    }
}

/// `acc` with the lines from `i` on behind it, endless loops with a leading break as
/// bounded ones.
pub open spec fn bounded_from(v: Seq<Seq<char>>, i: int, acc: Seq<char>) -> Seq<char>
    decreases v.len() - i,
{
    if i < 0 || i >= v.len() {
        acc
    } else {
        match bounded_loop(v, i) {
            Some((c, next)) => if i < next {
                bounded_from(
                    v,
                    next,
                    acc + (blanked(indent(v[i]), indent(v[i]).len() as int) + "while ("@ + c + ") {\n"@),
                )
            } else {
                acc
            },
            None => bounded_from(v, i + 1, acc + (v[i] + "\n"@)),
        }
    }
}

/// `while (1) { if (!(c)) break; .. }` as `while (c) { .. }`.
pub open spec fn with_bounds(src: Seq<char>) -> Seq<char> {
    bounded_from(lines(src), 0, Seq::empty())
}

fn find_bounded_loop(v: &Vec<Vec<char>>, i: usize) -> (r: Option<(Vec<char>, usize)>)
    requires
        i < v@.len(),
    ensures
        match r {
            Some((c, next)) => bounded_loop(deep(v@), i as int) == Some((c@, next as int)) && i < next
                <= v@.len(),
            None => bounded_loop(deep(v@), i as int) is None,
        },
{
    assert(deep(v@)[i as int] == v@[i as int]@);
    let t = trim_text(&v[i]);
    if !(starts_lit(&t, "while") && (has_lit(&t, "(1)") || has_lit(&t, "(true)") || has_lit(
        &t,
        "(0x1)",
    )) && ends_lit(&t, "{")) {
        return None;
    }
    let n: usize = v.len();
    assert(i < n);
    let j = next_filled(v, i + 1);
    if j < v.len() {
        assert(deep(v@)[j as int] == v@[j as int]@);
        match parse_if_not_break(&trim_text(&v[j])) {
            Some(c) => Some((c, j + 1)),
            None => None,
        }
    } else {
        None
    }
}

pub fn bound_loops(src: &Vec<char>) -> (r: Vec<char>)
    ensures
        r@ == with_bounds(src@),
{
    let v = lines_of(src);
    let mut out: Vec<char> = Vec::new();
    let mut i: usize = 0;
    assert(out@ =~= Seq::empty());
    while i < v.len()
        invariant
            i <= v@.len(),
            deep(v@) == lines(src@),
            bounded_from(deep(v@), i as int, out@) == with_bounds(src@),
        decreases v@.len() - i,
    {
        assert(deep(v@)[i as int] == v@[i as int]@);
        match find_bounded_loop(&v, i) {
            Some((c, next)) => {
                let mut line = blank_out(&indent_text(&v[i]));
                push_lit(&mut line, "while (");
                push_text(&mut line, &c);
                push_lit(&mut line, ") {\n");
                push_text(&mut out, &line);
                i = next;
            },
            None => {
                let mut line = copy_text(&v[i]);
                push_lit(&mut line, "\n");
                push_text(&mut out, &line);
                i += 1;
            },
        }
    }
    out
}

/// Rewrite an endless loop whose first statement is a conditional break into a loop
/// with that bound.
pub fn fold_while_true_break_boundary(src: &str) -> (r: String)
    ensures
        r@ == with_bounds(src@),
{
    string_of(&bound_loops(&chars_of(src)))
}

/// The text without redundant jumps and idle labels, and with bounded loops.
pub open spec fn minimized(src: Seq<char>) -> Seq<char> {
    let v = lines(src);
    let cleaned = without_redundant(v, v.len() as int);
    closed_line(
        with_bounds(join(without_idle_labels(cleaned, false, cleaned.len() as int), "\n"@)),
    )
}

pub fn minimize_gotos(src: &Vec<char>) -> (r: Vec<char>)
    ensures
        r@ == minimized(src@),
{
    let v = lines_of(src);
    let mut cleaned = new_items();
    let mut i: usize = 0;
    while i < v.len()
        invariant
            i <= v@.len(),
            deep(cleaned@) == without_redundant(deep(v@), i as int),
        decreases v@.len() - i,
    {
        assert(deep(v@)[i as int] == v@[i as int]@);
        let mut drop = false;
        if let Some(l) = parse_goto(&trim_text(&v[i])) {
            let j = next_filled(&v, i + 1);
            if j < v.len() {
                assert(deep(v@)[j as int] == v@[j as int]@);
                drop = same_label(&parse_label(&trim_text(&v[j])), &l);
            }
        }
        assert(drop == falls_through(deep(v@), i as int));
        if !drop {
            push_item(&mut cleaned, copy_text(&v[i]));
        }
        i += 1;
    }
    let kept = drop_idle_labels(&cleaned, false);
    let mut out = bound_loops(&join_items(&kept, "\n"));
    close_line(&mut out);
    out
}

// ─── Jumps to returns ───────────────────────────────────────────────────────

/// Position of the last of the first `n` lines that names label `l`.
pub open spec fn last_label(v: Seq<Seq<char>>, l: Seq<char>, n: int) -> Option<int>
    decreases n,
{
    if n <= 0 {
        None
    } else if labels(v, n - 1, l) {
        Some(n - 1)
    } else {
        last_label(v, l, n - 1)
    }
}

/// The return that the jump on line `i` leads to.
pub open spec fn returned_at(v: Seq<Seq<char>>, i: int) -> Option<Seq<char>> {
    match loose_goto_of(trim(v[i])) {
        Some(l) => match last_label(v, l, v.len() as int) {
            Some(k) => {
                let j = filled_from(v, k + 1);
                if j < v.len() && starts(trim(v[j]), "return"@) {
                    Some(indent(v[i]) + trim(v[j]))
                } else {
                    None
                }
            },
            None => None,
        },
        None => None,
    }
}

/// A jump without the comment behind it.
pub open spec fn uncommented_jump(line: Seq<char>) -> Seq<char> {
    if has(line, "goto "@) && has(line, "/*"@) {
        let head = trim_end(before(line, find(line, "/*"@)->0));
        if ends(head, ";"@) {
            indent(line) + trim_start(head)
        } else {
            line
        }
    } else {
        line
    }
}

/// The first `n` lines, jumps to returns as those returns.
pub open spec fn with_returns(v: Seq<Seq<char>>, n: int) -> Seq<Seq<char>>
    decreases n,
{
    if n <= 0 {
        Seq::empty()
    } else {
        with_returns(v, n - 1).push(
            match returned_at(v, n - 1) {
                Some(t) => t,
                None => uncommented_jump(v[n - 1]),
            },
        )
    }
}

/// The text with jumps to returns as those returns, and without idle labels.
pub open spec fn returns_folded(src: Seq<char>) -> Seq<char> {
    let v = lines(src);
    let out = with_returns(v, v.len() as int);
    closed_line(join(without_idle_labels(out, true, out.len() as int), "\n"@))
}

fn find_last_label(v: &Vec<Vec<char>>, l: &Vec<char>) -> (r: Option<usize>)
    ensures
        crate::text::idx(r) == last_label(deep(v@), l@, v@.len() as int),
        r is Some ==> r->0 < v@.len(),
{
    let mut n: usize = v.len();
    while n > 0
        invariant
            n <= v@.len(),
            last_label(deep(v@), l@, n as int) == last_label(deep(v@), l@, v@.len() as int),
        decreases n,
    {
        n -= 1;
        assert(deep(v@)[n as int] == v@[n as int]@);
        if same_label(&parse_label(&trim_text(&v[n])), l) {
            return Some(n);
        }
    }
    None
}

fn find_returned(v: &Vec<Vec<char>>, i: usize) -> (r: Option<Vec<char>>)
    requires
        i < v@.len(),
    ensures
        opt_text(r) == returned_at(deep(v@), i as int),
{
    assert(deep(v@)[i as int] == v@[i as int]@);
    if let Some(l) = parse_goto_loose(&trim_text(&v[i])) {
        let n: usize = v.len();
        if let Some(k) = find_last_label(v, &l) {
            assert(k < n);
            let j = next_filled(v, k + 1);
            if j < v.len() {
                assert(deep(v@)[j as int] == v@[j as int]@);
                let t = trim_text(&v[j]);
                if starts_lit(&t, "return") {
                    let mut line = indent_text(&v[i]);
                    push_text(&mut line, &t);
                    return Some(line);
                }
            }
        }
    }
    None
}

fn uncomment_jump(line: &Vec<char>) -> (r: Vec<char>)
    ensures
        r@ == uncommented_jump(line@),
{
    if has_lit(line, "goto ") {
        if let Some(k) = find_lit(line, "/*") {
            let head = trim_end_text(&text_before(line, k));
            if ends_lit(&head, ";") {
                let mut t = indent_text(line);
                push_text(&mut t, &trim_start_text(&head));
                return t;
            }
        }
    }
    copy_text(line)
}

pub fn fold_goto_return_and_trivial_rejoins(src: &Vec<char>) -> (r: Vec<char>)
    ensures
        r@ == returns_folded(src@),
{
    let v = lines_of(src);
    let mut out = new_items();
    let mut i: usize = 0;
    while i < v.len()
        invariant
            i <= v@.len(),
            deep(out@) == with_returns(deep(v@), i as int),
        decreases v@.len() - i,
    {
        assert(deep(v@)[i as int] == v@[i as int]@);
        let line = match find_returned(&v, i) {
            Some(t) => t,
            None => uncomment_jump(&v[i]),
        };
        push_item(&mut out, line);
        i += 1;
    }
    let kept = drop_idle_labels(&out, true);
    let mut t = join_items(&kept, "\n");
    close_line(&mut t);
    t
}

// ─── Failure leaves ─────────────────────────────────────────────────────────

/// The line returns nothing but failure.
pub open spec fn bare_failure(l: Seq<char>) -> bool {
    let t = lower_all(trim(strip_end(trim(l), ";"@)));
    ||| t == "return"@
    ||| t == "return 0"@
    ||| t == "return 0x0"@
    ||| t == "return 0x00"@
    ||| t == "return ((u64)rax ^ (u64)rax)"@
    ||| t == "return (u64)(u64)rax ^ (u64)rax"@
    ||| t == "return;"@
    ||| t == "return 0;"@
    ||| starts(t, "return"@) && (has(t, "/* gs-cookie"@) || has(t, "/*cookie"@))
}

/// The line transfers control or computes.
pub open spec fn works(t: Seq<char>) -> bool {
    has(t, "goto "@) || has(t, "while"@) || has(t, "for "@) || has(t, "switch"@) || has(t, "+"@) || has(
        t,
        "mem_"@,
    )
}

/// The line can stand in a failure leaf.
pub open spec fn leaf_line(l: Seq<char>) -> bool {
    let t = trim(l);
    t.len() == 0 || t == "}"@ || starts(t, "/*"@) || starts(t, "return"@) || has(t, "arg_0 = 0x14"@)
        || has(t, "security_check"@) || has(t, "__report"@) || has(t, "abort"@) || has(t, "call("@) || has(
        t,
        "FUN_"@,
    )
}

/// A short body that only fails: it returns nothing, and does nothing else but call
/// failure helpers.
pub open spec fn pure_failure(body: Seq<Seq<char>>) -> bool {
    &&& 1 <= body.len() <= 4
    &&& forall|i: int| 0 <= i < body.len() ==> !works(#[trigger] body[i])
    &&& exists|i: int| 0 <= i < body.len() && starts(trim(#[trigger] body[i]), "return"@)
    &&& forall|i: int|
        0 <= i < body.len() && starts(trim(#[trigger] body[i]), "return"@) ==> bare_failure(body[i])
    &&& forall|i: int| 0 <= i < body.len() ==> leaf_line(#[trigger] body[i])
}

fn is_bare_failure(l: &Vec<char>) -> (r: bool)
    ensures
        r == bare_failure(l@),
{
    let t = lower_text(&trim_text(&strip_end_lit(&trim_text(l), ";")));
    is_lit(&t, "return") || is_lit(&t, "return 0") || is_lit(&t, "return 0x0") || is_lit(
        &t,
        "return 0x00",
    ) || is_lit(&t, "return ((u64)rax ^ (u64)rax)") || is_lit(&t, "return (u64)(u64)rax ^ (u64)rax")
        || is_lit(&t, "return;") || is_lit(&t, "return 0;") || (starts_lit(&t, "return") && (has_lit(
        &t,
        "/* gs-cookie",
    ) || has_lit(&t, "/*cookie")))
}

fn is_working(t: &Vec<char>) -> (r: bool)
    ensures
        r == works(t@),
{
    has_lit(t, "goto ") || has_lit(t, "while") || has_lit(t, "for ") || has_lit(t, "switch") || has_lit(
        t,
        "+",
    ) || has_lit(t, "mem_")
}

fn is_leaf_line(l: &Vec<char>) -> (r: bool)
    ensures
        r == leaf_line(l@),
{
    let t = trim_text(l);
    t.len() == 0 || is_lit(&t, "}") || starts_lit(&t, "/*") || starts_lit(&t, "return") || has_lit(
        &t,
        "arg_0 = 0x14",
    ) || has_lit(&t, "security_check") || has_lit(&t, "__report") || has_lit(&t, "abort") || has_lit(
        &t,
        "call(",
    ) || has_lit(&t, "FUN_")
}

fn is_pure_failure(body: &Vec<Vec<char>>) -> (r: bool)
    ensures
        r == pure_failure(deep(body@)),
{
    if body.len() == 0 || body.len() > 4 {
        return false;
    }
    let ghost d = deep(body@);
    let mut returns_seen = false;
    let mut i: usize = 0;
    while i < body.len()
        invariant
            i <= body@.len(),
            d == deep(body@),
            d.len() == body@.len(),
            1 <= d.len() <= 4,
            returns_seen == exists|k: int| 0 <= k < i && starts(trim(#[trigger] d[k]), "return"@),
            forall|k: int| 0 <= k < i ==> !works(#[trigger] d[k]),
            forall|k: int|
                0 <= k < i && starts(trim(#[trigger] d[k]), "return"@) ==> bare_failure(d[k]),
            forall|k: int| 0 <= k < i ==> leaf_line(#[trigger] d[k]),
        decreases body@.len() - i,
    {
        assert(d[i as int] == body@[i as int]@);
        let line = &body[i];
        if is_working(line) || !is_leaf_line(line) {
            return false;
        }
        if starts_lit(&trim_text(line), "return") {
            if !is_bare_failure(line) {
                return false;
            }
            returns_seen = true;
        }
        i += 1;
    }
    returns_seen
}

/// How a line changes the depth of braces: one that ends in an opening brace goes
/// deeper, one that starts with a closing brace comes back.
pub open spec fn brace_change(t: Seq<char>) -> int {
    (if ends(t, "{"@) {
        1int
    } else {
        0int
    }) - (if starts(t, "}"@) {
        1int
    } else {
        0int
    })
}

/// The lines below a label from `j` on, up to six, until the block ends; and the line
/// to go on with.
pub open spec fn leaf_body(v: Seq<Seq<char>>, j: int, depth: int, body: Seq<Seq<char>>) -> (Seq<Seq<char>>, int)
    decreases v.len() - j,
{
    if j < 0 || j >= v.len() {
        (body, j)
    } else {
        let t = trim(v[j]);
        let d = depth + brace_change(t);
        if (label_of(t) is Some && depth == 0) || (starts(t, "}"@) && d < 0) {
            (body, j)
        } else {
            let more = body.push(v[j]);
            if starts(t, "return"@) || has(t, "__report"@) || has(t, "abort"@) {
                (more, j + 1)
            } else if more.len() >= 6 {
                (more, j)
            } else {
                leaf_body(v, j + 1, d, more)
            }
        }
    }
}

/// The texts without surrounding blanks.
pub open spec fn trimmed_all(v: Seq<Seq<char>>) -> Seq<Seq<char>> {
    Seq::new(v.len(), |i: int| trim(v[i]))
}

/// The failure leaves from line `i` on, added to `acc`.
pub open spec fn leaves_from(v: Seq<Seq<char>>, i: int, acc: Seq<(Seq<char>, Seq<Seq<char>>)>) -> Seq<(Seq<char>, Seq<Seq<char>>)>
    decreases v.len() - i,
{
    if i < 0 || i >= v.len() {
        acc
    } else {
        match label_of(trim(v[i])) {
            Some(l) => {
                let (body, j) = leaf_body(v, i + 1, 0, Seq::empty());
                let next = if pure_failure(trimmed_all(body)) {
                    acc.push((l, body))
                } else {
                    acc
                };
                if i < j <= v.len() {
                    leaves_from(v, j, next)
                } else {
                    next
                }
            },
            None => leaves_from(v, i + 1, acc),
        }
    }
}

/// The body of the last of the first `n` leaves with label `l`.
pub open spec fn leaf_for(leaves: Seq<(Seq<char>, Seq<Seq<char>>)>, l: Seq<char>, n: int) -> Option<Seq<Seq<char>>>
    decreases n,
{
    if n <= 0 {
        None
    } else if leaves[n - 1].0 == l {
        Some(leaves[n - 1].1)
    } else {
        leaf_for(leaves, l, n - 1)
    }
}

/// The leaf with label `l`.
pub open spec fn leaf_of(leaves: Seq<(Seq<char>, Seq<Seq<char>>)>, l: Seq<char>) -> Option<Seq<Seq<char>>> {
    leaf_for(leaves, l, leaves.len() as int)
}

/// `acc` with the first `n` lines of a leaf behind it, at the indentation `pad`.
pub open spec fn placed_leaf(body: Seq<Seq<char>>, pad: Seq<char>, n: int, acc: Seq<Seq<char>>) -> Seq<Seq<char>>
    decreases n,
{
    if n <= 0 {
        acc
    } else {
        let done = placed_leaf(body, pad, n - 1, acc);
        if trim(body[n - 1]).len() == 0 {
            done
        } else {
            done.push(pad + trim(body[n - 1]))
        }
    }
}

/// The first `n` lines, jumps to leaves as those leaves.
pub open spec fn with_leaves(v: Seq<Seq<char>>, leaves: Seq<(Seq<char>, Seq<Seq<char>>)>, n: int) -> Seq<Seq<char>>
    decreases n,
{
    if n <= 0 {
        Seq::empty()
    } else {
        let done = with_leaves(v, leaves, n - 1);
        let body = match loose_goto_of(trim(v[n - 1])) {
            Some(l) => leaf_of(leaves, l),
            None => None,
        };
        match body {
            Some(b) => placed_leaf(b, indent(v[n - 1]), b.len() as int, done),
            None => done.push(v[n - 1]),
        }
    }
}

/// What is left out: the label of a leaf that nothing jumps to, and its lines.
pub ghost struct Skipping {
    pub lines: Seq<Seq<char>>,
    pub leaf: Option<Seq<char>>,
}

/// One of the texts, without surrounding blanks, is `t`.
pub open spec fn among(body: Seq<Seq<char>>, t: Seq<char>) -> bool {
    exists|i: int| 0 <= i < body.len() && trim(#[trigger] body[i]) == t
}

/// After line `line` of `v`.
pub open spec fn skip_leaf_step(v: Seq<Seq<char>>, leaves: Seq<(Seq<char>, Seq<Seq<char>>)>, line: Seq<char>, st: Skipping) -> Skipping {
    let t = trim(line);
    match label_of(t) {
        Some(l) => if leaf_of(leaves, l) is Some && !targeted(v, l, true) {
            Skipping { leaf: Some(l), ..st }
        } else {
            Skipping { lines: st.lines.push(line), leaf: None }
        },
        None => match st.leaf {
            Some(l) => if (leaf_of(leaves, l) matches Some(b) && among(b, t)) || starts(t, "return"@)
                || t == "}"@ {
                Skipping {
                    leaf: if t == "}"@ {
                        None
                    } else {
                        st.leaf
                    },
                    ..st
                }
            } else {
                Skipping { lines: st.lines.push(line), ..st }
            },
            None => Skipping { lines: st.lines.push(line), ..st },
        },
    }
}

/// After the first `n` lines of `v`.
pub open spec fn skip_leaves(v: Seq<Seq<char>>, leaves: Seq<(Seq<char>, Seq<Seq<char>>)>, n: int) -> Skipping
    decreases n,
{
    if n <= 0 {
        Skipping { lines: Seq::empty(), leaf: None }
    } else {
        skip_leaf_step(v, leaves, v[n - 1], skip_leaves(v, leaves, n - 1))
    }
}

/// The text with jumps to failure leaves as those leaves, and without leaves that
/// nothing jumps to any more.
pub open spec fn leaves_inlined(src: Seq<char>) -> Seq<char> {
    let v = lines(src);
    let leaves = leaves_from(v, 0, Seq::empty());
    if leaves.len() == 0 {
        src
    } else {
        let out = with_leaves(v, leaves, v.len() as int);
        closed_line(join(skip_leaves(out, leaves, out.len() as int).lines, "\n"@))
    }
}

/// A label with its body.
pub struct Leaf {
    pub label: Vec<char>,
    pub body: Vec<Vec<char>>,
}

/// The leaves as values.
pub open spec fn leaf_views(v: Seq<Leaf>) -> Seq<(Seq<char>, Seq<Seq<char>>)> {
    Seq::new(v.len(), |i: int| (v[i].label@, deep(v[i].body@)))
}

fn find_leaf_body(v: &Vec<Vec<char>>, from: usize) -> (r: (Vec<Vec<char>>, usize))
    requires
        from <= v@.len(),
    ensures
        (deep(r.0@), r.1 as int) == leaf_body(deep(v@), from as int, 0, Seq::empty()),
        from <= r.1 <= v@.len(),
{
    let ghost d = deep(v@);
    let mut body = new_items();
    let mut depth: i128 = 0;
    let mut j: usize = from;
    while j < v.len()
        invariant
            from <= j <= v@.len(),
            d == deep(v@),
            d.len() == v@.len(),
            -(j as int) <= depth <= j,
            leaf_body(d, j as int, depth as int, deep(body@)) == leaf_body(
                d,
                from as int,
                0,
                Seq::empty(),
            ),
        decreases v@.len() - j,
    {
        assert(d[j as int] == v@[j as int]@);
        let t = trim_text(&v[j]);
        if parse_label(&t).is_some() && depth == 0 {
            return (body, j);
        }
        if ends_lit(&t, "{") {
            depth += 1;
        }
        if starts_lit(&t, "}") {
            depth -= 1;
            if depth < 0 {
                return (body, j);
            }
        }
        push_item(&mut body, copy_text(&v[j]));
        if starts_lit(&t, "return") || has_lit(&t, "__report") || has_lit(&t, "abort") {
            return (body, j + 1);
        }
        if body.len() >= 6 {
            return (body, j);
        }
        j += 1;
    }
    (body, j)
}

fn trim_all(v: &Vec<Vec<char>>) -> (r: Vec<Vec<char>>)
    ensures
        deep(r@) == trimmed_all(deep(v@)),
{
    let mut r = new_items();
    let mut i: usize = 0;
    while i < v.len()
        invariant
            i <= v@.len(),
            deep(r@).len() == i,
            forall|k: int| 0 <= k < i ==> deep(r@)[k] == trim(#[trigger] deep(v@)[k]),
        decreases v@.len() - i,
    {
        assert(deep(v@)[i as int] == v@[i as int]@);
        push_item(&mut r, trim_text(&v[i]));
        i += 1;
    }
    assert(deep(r@) =~= trimmed_all(deep(v@)));
    r
}

fn find_leaves(v: &Vec<Vec<char>>) -> (r: Vec<Leaf>)
    ensures
        leaf_views(r@) == leaves_from(deep(v@), 0, Seq::empty()),
{
    let ghost d = deep(v@);
    let mut r: Vec<Leaf> = Vec::new();
    let mut i: usize = 0;
    assert(leaf_views(r@) =~= Seq::empty());
    while i < v.len()
        invariant
            i <= v@.len(),
            d == deep(v@),
            d.len() == v@.len(),
            leaves_from(d, i as int, leaf_views(r@)) == leaves_from(d, 0, Seq::empty()),
        decreases v@.len() - i,
    {
        assert(d[i as int] == v@[i as int]@);
        match parse_label(&trim_text(&v[i])) {
            Some(label) => {
                let (body, j) = find_leaf_body(v, i + 1);
                if is_pure_failure(&trim_all(&body)) {
                    let ghost r0 = r@;
                    let leaf = Leaf { label, body };
                    r.push(leaf);
                    assert(leaf_views(r@) =~= leaf_views(r0).push(
                        (leaf.label@, deep(leaf.body@)),
                    ));
                }
                i = j;
            },
            None => {
                i += 1;
            },
        }
    }
    r
}

fn find_leaf(leaves: &Vec<Leaf>, l: &Vec<char>) -> (r: Option<usize>)
    ensures
        match r {
            Some(k) => k < leaves@.len() && leaf_of(leaf_views(leaves@), l@) == Some(
                deep(leaves@[k as int].body@),
            ),
            None => leaf_of(leaf_views(leaves@), l@) is None,
        },
{
    let ghost d = leaf_views(leaves@);
    let mut n: usize = leaves.len();
    while n > 0
        invariant
            n <= leaves@.len(),
            d == leaf_views(leaves@),
            leaf_for(d, l@, n as int) == leaf_of(d, l@),
        decreases n,
    {
        n -= 1;
        assert(d[n as int] == (leaves@[n as int].label@, deep(leaves@[n as int].body@)));
        if same(&leaves[n].label, l) {
            return Some(n);
        }
    }
    None
}

fn place_leaf(out: &mut Vec<Vec<char>>, body: &Vec<Vec<char>>, pad: &Vec<char>)
    ensures
        deep(final(out)@) == placed_leaf(
            deep(body@),
            pad@,
            body@.len() as int,
            deep(old(out)@),
        ),
{
    let ghost before = deep(out@);
    let mut i: usize = 0;
    while i < body.len()
        invariant
            i <= body@.len(),
            deep(out@) == placed_leaf(deep(body@), pad@, i as int, before),
        decreases body@.len() - i,
    {
        assert(deep(body@)[i as int] == body@[i as int]@);
        let t = trim_text(&body[i]);
        if t.len() > 0 {
            let mut line = copy_text(pad);
            push_text(&mut line, &t);
            push_item(out, line);
        }
        i += 1;
    }
}

fn is_among(body: &Vec<Vec<char>>, t: &Vec<char>) -> (r: bool)
    ensures
        r == among(deep(body@), t@),
{
    let mut i: usize = 0;
    while i < body.len()
        invariant
            i <= body@.len(),
            forall|k: int| 0 <= k < i ==> trim(#[trigger] deep(body@)[k]) != t@,
        decreases body@.len() - i,
    {
        assert(deep(body@)[i as int] == body@[i as int]@);
        if same(&trim_text(&body[i]), t) {
            return true;
        }
        i += 1;
    }
    false
}

fn skip_idle_leaves(v: &Vec<Vec<char>>, leaves: &Vec<Leaf>) -> (r: Vec<Vec<char>>)
    ensures
        deep(r@) == skip_leaves(deep(v@), leaf_views(leaves@), v@.len() as int).lines,
{
    let ghost d = deep(v@);
    let ghost ls = leaf_views(leaves@);
    let mut kept = new_items();
    let mut leaf: Option<Vec<char>> = None;
    let mut i: usize = 0;
    while i < v.len()
        invariant
            i <= v@.len(),
            d == deep(v@),
            d.len() == v@.len(),
            ls == leaf_views(leaves@),
            (Skipping { lines: deep(kept@), leaf: opt_text(leaf) }) == skip_leaves(d, ls, i as int),
        decreases v@.len() - i,
    {
        assert(d[i as int] == v@[i as int]@);
        let t = trim_text(&v[i]);
        match parse_label(&t) {
            Some(l) => {
                if find_leaf(leaves, &l).is_some() && !is_targeted(v, &l, true) {
                    leaf = Some(l);
                } else {
                    leaf = None;
                    push_item(&mut kept, copy_text(&v[i]));
                }
            },
            None => {
                let mut skip = false;
                if let Some(l) = &leaf {
                    let inside = match find_leaf(leaves, l) {
                        Some(k) => is_among(&leaves[k].body, &t),
                        None => false,
                    };
                    skip = inside || starts_lit(&t, "return") || is_lit(&t, "}");
                }
                if skip {
                    if is_lit(&t, "}") {
                        leaf = None;
                    }
                } else {
                    push_item(&mut kept, copy_text(&v[i]));
                }
            },
        }
        i += 1;
    }
    kept
}

pub fn inline_leaf_goto_targets(src: &Vec<char>) -> (r: Vec<char>)
    ensures
        r@ == leaves_inlined(src@),
{
    let v = lines_of(src);
    let leaves = find_leaves(&v);
    if leaves.len() == 0 {
        return copy_text(src);
    }
    let ghost ls = leaf_views(leaves@);
    let mut out = new_items();
    let mut i: usize = 0;
    while i < v.len()
        invariant
            i <= v@.len(),
            ls == leaf_views(leaves@),
            deep(out@) == with_leaves(deep(v@), ls, i as int),
        decreases v@.len() - i,
    {
        assert(deep(v@)[i as int] == v@[i as int]@);
        let at: Option<usize> = match parse_goto_loose(&trim_text(&v[i])) {
            Some(l) => find_leaf(&leaves, &l),
            None => None,
        };
        match at {
            Some(k) => {
                place_leaf(&mut out, &leaves[k].body, &indent_text(&v[i]));
            },
            None => {
                push_item(&mut out, copy_text(&v[i]));
            },
        }
        i += 1;
    }
    let kept = skip_idle_leaves(&out, &leaves);
    let mut t = join_items(&kept, "\n");
    close_line(&mut t);
    t
}

// ─── Cookie checks ──────────────────────────────────────────────────────────

/// The filled lines below a label from `j` on, trimmed, up to five, until the block
/// ends; and the line to go on with.
pub open spec fn fail_body(v: Seq<Seq<char>>, j: int, depth: int, body: Seq<Seq<char>>) -> (Seq<Seq<char>>, int)
    decreases v.len() - j,
{
    if j < 0 || j >= v.len() {
        (body, j)
    } else {
        let t = trim(v[j]);
        let d = depth + brace_change(t);
        if (label_of(t) is Some && depth == 0) || (starts(t, "}"@) && d < 0) {
            (body, j)
        } else {
            let more = if t.len() > 0 {
                body.push(t)
            } else {
                body
            };
            if more.len() > 4 {
                (more, j)
            } else {
                fail_body(v, j + 1, d, more)
            }
        }
    }
}

/// The labels of failure leaves from line `i` on, added to `acc`.
pub open spec fn fail_labels(v: Seq<Seq<char>>, i: int, acc: Seq<Seq<char>>) -> Seq<Seq<char>>
    decreases v.len() - i,
{
    if i < 0 || i >= v.len() {
        acc
    } else {
        match label_of(trim(v[i])) {
            Some(l) => {
                let (body, j) = fail_body(v, i + 1, 0, Seq::empty());
                let next = if pure_failure(body) {
                    acc.push(l)
                } else {
                    acc
                };
                if i < j <= v.len() {
                    fail_labels(v, j, next)
                } else {
                    next
                }
            },
            None => fail_labels(v, i + 1, acc),
        }
    }
}

/// The lines from `j` on, up to the next label, return zero or nothing and do
/// nothing else.
pub open spec fn trivial_from(v: Seq<Seq<char>>, j: int, seen: bool) -> bool
    decreases v.len() - j,
{
    if j < 0 || j >= v.len() {
        seen
    } else {
        let t = trim(v[j]);
        if label_of(t) is Some {
            seen
        } else if t.len() == 0 || t == "{"@ || t == "}"@ {
            trivial_from(v, j + 1, seen)
        } else if starts(t, "return"@) {
            let payload = trim(strip_end(trim(drop_words(t, "return"@)), ";"@));
            if payload.len() == 0 || payload == "0"@ || payload == "0x0"@ {
                trivial_from(v, j + 1, true)
            } else {
                false
            }
        } else {
            false
        }
    }
}

/// The first label `l` from line `i` on heads a trivial return.
pub open spec fn trivial_return(v: Seq<Seq<char>>, l: Seq<char>, i: int) -> bool
    decreases v.len() - i,
{
    if i < 0 || i >= v.len() {
        false
    } else if labels(v, i, l) {
        trivial_from(v, i + 1, false)
    } else {
        trivial_return(v, l, i + 1)
    }
}

/// The text checks a stack cookie.
pub open spec fn checks_cookie(src: Seq<char>) -> bool {
    has(src, "g_14"@) || has(src, "0x14001a"@) || has(src, "cookie"@)
}

/// The jump on line `i` only fails: to a failure leaf, to a trivial return beside a
/// cookie check, or to a label that does not exist.
pub open spec fn fails_at(src: Seq<char>, v: Seq<Seq<char>>, fails: Seq<Seq<char>>, i: int) -> bool {
    match loose_goto_of(trim(v[i])) {
        Some(l) => fails.contains(l) || (checks_cookie(src) && trivial_return(v, l, 0)) || !defined(v, l),
        None => false,
    }
}

/// The first `n` lines, failing jumps as returns.
pub open spec fn with_failures(src: Seq<char>, v: Seq<Seq<char>>, fails: Seq<Seq<char>>, n: int) -> Seq<Seq<char>>
    decreases n,
{
    if n <= 0 {
        Seq::empty()
    } else {
        with_failures(src, v, fails, n - 1).push(
            if fails_at(src, v, fails, n - 1) {
                indent(v[n - 1]) + "return;"@
            } else {
                v[n - 1]
            },
        )
    }
}

/// The lines kept so far, and whether the body of a failure leaf is being left out.
pub ghost struct Dropping {
    pub lines: Seq<Seq<char>>,
    pub inside: bool,
}

/// After line `line` of `v`.
pub open spec fn drop_fail_step(v: Seq<Seq<char>>, fails: Seq<Seq<char>>, line: Seq<char>, st: Dropping) -> Dropping {
    let t = trim(line);
    match label_of(t) {
        Some(l) => if fails.contains(l) && !targeted(v, l, true) {
            Dropping { inside: true, ..st }
        } else {
            Dropping { lines: st.lines.push(line), inside: false }
        },
        None => if st.inside && (t == "}"@ || starts(t, "return"@) || t.len() == 0) {
            Dropping { inside: t != "}"@, ..st }
        } else if st.inside && (starts(t, "call("@) || has(t, "FUN_"@)) {
            st
        } else {
            Dropping { lines: st.lines.push(line), inside: false }
        },
    }
}

/// After the first `n` lines of `v`.
pub open spec fn drop_fails(v: Seq<Seq<char>>, fails: Seq<Seq<char>>, n: int) -> Dropping
    decreases n,
{
    if n <= 0 {
        Dropping { lines: Seq::empty(), inside: false }
    } else {
        drop_fail_step(v, fails, v[n - 1], drop_fails(v, fails, n - 1))
    }
}

/// The text with failing jumps as returns, and without failure leaves that nothing
/// jumps to any more.
pub open spec fn cookies_stripped(src: Seq<char>) -> Seq<char> {
    let v = lines(src);
    let fails = fail_labels(v, 0, Seq::empty());
    let out = with_failures(src, v, fails, v.len() as int);
    closed_line(join(drop_fails(out, fails, out.len() as int).lines, "\n"@))
}

fn find_fail_body(v: &Vec<Vec<char>>, from: usize) -> (r: (Vec<Vec<char>>, usize))
    requires
        from <= v@.len(),
    ensures
        (deep(r.0@), r.1 as int) == fail_body(deep(v@), from as int, 0, Seq::empty()),
        from <= r.1 <= v@.len(),
{
    let ghost d = deep(v@);
    let mut body = new_items();
    let mut depth: i128 = 0;
    let mut j: usize = from;
    while j < v.len()
        invariant
            from <= j <= v@.len(),
            d == deep(v@),
            d.len() == v@.len(),
            -(j as int) <= depth <= j,
            fail_body(d, j as int, depth as int, deep(body@)) == fail_body(
                d,
                from as int,
                0,
                Seq::empty(),
            ),
        decreases v@.len() - j,
    {
        assert(d[j as int] == v@[j as int]@);
        let t = trim_text(&v[j]);
        if parse_label(&t).is_some() && depth == 0 {
            return (body, j);
        }
        if ends_lit(&t, "{") {
            depth += 1;
        }
        if starts_lit(&t, "}") {
            depth -= 1;
            if depth < 0 {
                return (body, j);
            }
        }
        if t.len() > 0 {
            push_item(&mut body, t);
        }
        if body.len() > 4 {
            return (body, j);
        }
        j += 1;
    }
    (body, j)
}

fn collect_pure_fail_labels(v: &Vec<Vec<char>>) -> (r: Vec<Vec<char>>)
    ensures
        deep(r@) == fail_labels(deep(v@), 0, Seq::empty()),
{
    let ghost d = deep(v@);
    let mut r = new_items();
    let mut i: usize = 0;
    while i < v.len()
        invariant
            i <= v@.len(),
            d == deep(v@),
            d.len() == v@.len(),
            fail_labels(d, i as int, deep(r@)) == fail_labels(d, 0, Seq::empty()),
        decreases v@.len() - i,
    {
        assert(d[i as int] == v@[i as int]@);
        match parse_label(&trim_text(&v[i])) {
            Some(l) => {
                let (body, j) = find_fail_body(v, i + 1);
                if is_pure_failure(&body) {
                    push_item(&mut r, l);
                }
                i = j;
            },
            None => {
                i += 1;
            },
        }
    }
    r
}

fn is_trivial_from(v: &Vec<Vec<char>>, from: usize) -> (r: bool)
    requires
        from <= v@.len(),
    ensures
        r == trivial_from(deep(v@), from as int, false),
{
    let ghost d = deep(v@);
    let mut seen = false;
    let mut j: usize = from;
    while j < v.len()
        invariant
            from <= j <= v@.len(),
            d == deep(v@),
            d.len() == v@.len(),
            trivial_from(d, j as int, seen) == trivial_from(d, from as int, false),
        decreases v@.len() - j,
    {
        assert(d[j as int] == v@[j as int]@);
        let t = trim_text(&v[j]);
        if parse_label(&t).is_some() {
            return seen;
        }
        if !(t.len() == 0 || is_lit(&t, "{") || is_lit(&t, "}")) {
            if !starts_lit(&t, "return") {
                return false;
            }
            let payload = trim_text(
                &strip_end_lit(&trim_text(&drop_words_lit(&t, "return")), ";"),
            );
            if payload.len() == 0 || is_lit(&payload, "0") || is_lit(&payload, "0x0") {
                seen = true;
            } else {
                return false;
            }
        }
        j += 1;
    }
    seen
}

fn label_is_trivial_return(v: &Vec<Vec<char>>, l: &Vec<char>) -> (r: bool)
    ensures
        r == trivial_return(deep(v@), l@, 0),
{
    let ghost d = deep(v@);
    let mut i: usize = 0;
    while i < v.len()
        invariant
            i <= v@.len(),
            d == deep(v@),
            d.len() == v@.len(),
            trivial_return(d, l@, i as int) == trivial_return(d, l@, 0),
        decreases v@.len() - i,
    {
        assert(d[i as int] == v@[i as int]@);
        if same_label(&parse_label(&trim_text(&v[i])), l) {
            return is_trivial_from(v, i + 1);
        }
        i += 1;
    }
    false
}

pub fn strip_security_cookie_gotos(src: &Vec<char>) -> (r: Vec<char>)
    ensures
        r@ == cookies_stripped(src@),
{
    let v = lines_of(src);
    let fails = collect_pure_fail_labels(&v);
    let cookie = has_lit(src, "g_14") || has_lit(src, "0x14001a") || has_lit(src, "cookie");
    let ghost d = deep(v@);
    let ghost fs = deep(fails@);
    let mut out = new_items();
    let mut i: usize = 0;
    while i < v.len()
        invariant
            i <= v@.len(),
            d == deep(v@),
            d.len() == v@.len(),
            fs == deep(fails@),
            cookie == checks_cookie(src@),
            deep(out@) == with_failures(src@, d, fs, i as int),
        decreases v@.len() - i,
    {
        assert(d[i as int] == v@[i as int]@);
        let fail = match parse_goto_loose(&trim_text(&v[i])) {
            Some(l) => has_item(&fails, &l) || (cookie && label_is_trivial_return(&v, &l))
                || !is_defined(&v, &l),
            None => false,
        };
        if fail {
            let mut line = indent_text(&v[i]);
            push_lit(&mut line, "return;");
            push_item(&mut out, line);
        } else {
            push_item(&mut out, copy_text(&v[i]));
        }
        i += 1;
    }
    let ghost od = deep(out@);
    let mut kept = new_items();
    let mut inside = false;
    let mut k: usize = 0;
    while k < out.len()
        invariant
            k <= out@.len(),
            od == deep(out@),
            od.len() == out@.len(),
            fs == deep(fails@),
            (Dropping { lines: deep(kept@), inside }) == drop_fails(od, fs, k as int),
        decreases out@.len() - k,
    {
        assert(od[k as int] == out@[k as int]@);
        let t = trim_text(&out[k]);
        match parse_label(&t) {
            Some(l) => {
                if has_item(&fails, &l) && !is_targeted(&out, &l, true) {
                    inside = true;
                } else {
                    inside = false;
                    push_item(&mut kept, copy_text(&out[k]));
                }
            },
            None => {
                if inside && (is_lit(&t, "}") || starts_lit(&t, "return") || t.len() == 0) {
                    inside = !is_lit(&t, "}");
                } else if inside && (starts_lit(&t, "call(") || has_lit(&t, "FUN_")) {
                } else {
                    inside = false;
                    push_item(&mut kept, copy_text(&out[k]));
                }
            },
        }
        k += 1;
    }
    let mut t = join_items(&kept, "\n");
    close_line(&mut t);
    t
}

// ─── Loops behind labels ────────────────────────────────────────────────────

/// The condition under which line `t` goes back to label `l`: a plain jump always
/// does, `if (cond) goto l` where its condition holds.
pub open spec fn back_condition(t: Seq<char>, l: Seq<char>) -> Option<Seq<char>> {
    if loose_goto_of(t) == Some(l) {
        Some("1"@)
    } else if starts(t, "if"@) && has(t, "goto "@) && leading_label(
        trim(after(t, find(t, "goto "@)->0 + 5)),
    ) == Some(l) {
        if_condition(t)
    } else {
        None
    }
}

/// The jump back to label `l` from line `j` on, with its condition; it stands before
/// the next label and behind at most forty lines.
pub open spec fn back_edge(v: Seq<Seq<char>>, l: Seq<char>, j: int, left: int) -> Option<(int, Seq<char>)>
    decreases v.len() - j,
{
    if j < 0 || j >= v.len() || left < 0 || label_of(trim(v[j])) is Some {
        None
    } else {
        match back_condition(trim(v[j]), l) {
            Some(c) => Some((j, c)),
            None => back_edge(v, l, j + 1, left - 1),
        }
    }
}

/// `acc` with the lines `from..to` behind it, one step further in.
pub open spec fn indented_lines(v: Seq<Seq<char>>, from: int, to: int, acc: Seq<Seq<char>>) -> Seq<Seq<char>>
    decreases to - from,
{
    if from >= to {
        acc
    } else {
        indented_lines(
            v,
            from + 1,
            to,
            acc.push(
                if trim(v[from]).len() == 0 {
                    Seq::empty()
                } else {
                    "    "@ + v[from]
                },
            ),
        )
    }
}

/// The loop that the label on line `i` heads.
pub open spec fn loop_at(v: Seq<Seq<char>>, i: int) -> Option<(int, Seq<char>)> {
    match label_of(trim(v[i])) {
        Some(l) => back_edge(v, l, i + 1, 40),
        None => None,
    }
}

/// `acc` with the lines from `i` on behind it, labels with a jump back as loops.
pub open spec fn loops_from(v: Seq<Seq<char>>, i: int, acc: Seq<Seq<char>>) -> Seq<Seq<char>>
    decreases v.len() - i,
{
    if i < 0 || i >= v.len() {
        acc
    } else {
        match loop_at(v, i) {
            Some((back, cond)) => {
                let opened = acc.push(indent(v[i]) + "while ("@ + cond + ") {"@);
                let body = indented_lines(v, i + 1, back, opened);
                if i < back < v.len() {
                    loops_from(v, back + 1, body.push(indent(v[i]) + "}"@))
                } else {
                    acc
                }
            },
            None => loops_from(v, i + 1, acc.push(v[i])),
        }
    }
}

/// `l: body; if (c) goto l;` as `while (c) { body; }`.
pub open spec fn loops_recovered(src: Seq<char>) -> Seq<char> {
    closed_line(join(loops_from(lines(src), 0, Seq::empty()), "\n"@))
}

fn find_back_condition(t: &Vec<char>, l: &Vec<char>) -> (r: Option<Vec<char>>)
    ensures
        opt_text(r) == back_condition(t@, l@),
{
    if same_label(&parse_goto_loose(t), l) {
        return Some(chars_of("1"));
    }
    if starts_lit(t, "if") {
        if let Some(k) = find_lit(t, "goto ") {
            proof {
                reveal_strlit("goto ");
                crate::text::lemma_find_from(t@, "goto "@, 0);
            }
            let n: usize = t.len();
            assert(k + 5 <= n);
            let rest = trim_text(&text_after(t, k + 5));
            if same_label(&parse_leading_label(&rest), l) {
                return extract_if_cond(t);
            }
        }
    }
    None
}

fn find_back_edge(v: &Vec<Vec<char>>, l: &Vec<char>, from: usize) -> (r: Option<(usize, Vec<char>)>)
    requires
        from <= v@.len(),
    ensures
        match r {
            Some((j, c)) => back_edge(deep(v@), l@, from as int, 40) == Some((j as int, c@)) && from <= j
                < v@.len(),
            None => back_edge(deep(v@), l@, from as int, 40) is None,
        },
{
    let ghost d = deep(v@);
    let mut left: i32 = 40;
    let mut j: usize = from;
    while j < v.len() && left >= 0
        invariant
            from <= j <= v@.len(),
            -1 <= left <= 40,
            d == deep(v@),
            d.len() == v@.len(),
            back_edge(d, l@, j as int, left as int) == back_edge(d, l@, from as int, 40),
        decreases v@.len() - j,
    {
        assert(d[j as int] == v@[j as int]@);
        let t = trim_text(&v[j]);
        if parse_label(&t).is_some() {
            return None;
        }
        if let Some(c) = find_back_condition(&t, l) {
            return Some((j, c));
        }
        j += 1;
        left -= 1;
    }
    None
}

pub fn rewrite_label_backedge_to_while(src: &Vec<char>) -> (r: Vec<char>)
    ensures
        r@ == loops_recovered(src@),
{
    let v = lines_of(src);
    let ghost d = deep(v@);
    let mut out = new_items();
    let mut i: usize = 0;
    while i < v.len()
        invariant
            i <= v@.len(),
            d == deep(v@),
            d == lines(src@),
            d.len() == v@.len(),
            loops_from(d, i as int, deep(out@)) == loops_from(d, 0, Seq::empty()),
        decreases v@.len() - i,
    {
        assert(d[i as int] == v@[i as int]@);
        let found: Option<(usize, Vec<char>)> = match parse_label(&trim_text(&v[i])) {
            Some(l) => find_back_edge(&v, &l, i + 1),
            None => None,
        };
        match found {
            Some((back, cond)) => {
                let mut head = indent_text(&v[i]);
                push_lit(&mut head, "while (");
                push_text(&mut head, &cond);
                push_lit(&mut head, ") {");
                push_item(&mut out, head);
                let ghost opened = deep(out@);
                let mut k: usize = i + 1;
                while k < back
                    invariant
                        i + 1 <= k <= back < v@.len(),
                        d == deep(v@),
                        d.len() == v@.len(),
                        indented_lines(d, k as int, back as int, deep(out@)) == indented_lines(
                            d,
                            i + 1,
                            back as int,
                            opened,
                        ),
                    decreases back - k,
                {
                    assert(d[k as int] == v@[k as int]@);
                    if trim_text(&v[k]).len() == 0 {
                        let blank: Vec<char> = Vec::new();
                        assert(blank@ =~= Seq::empty());
                        push_item(&mut out, blank);
                    } else {
                        let mut line = chars_of("    ");
                        push_text(&mut line, &v[k]);
                        push_item(&mut out, line);
                    }
                    k += 1;
                }
                let mut tail = indent_text(&v[i]);
                push_lit(&mut tail, "}");
                push_item(&mut out, tail);
                i = back + 1;
            },
            None => {
                push_item(&mut out, copy_text(&v[i]));
                i += 1;
            },
        }
    }
    let mut t = join_items(&out, "\n");
    close_line(&mut t);
    t
}

} // verus!
