//! Pairs of flag tests that say one thing.

use vstd::prelude::*;
use crate::lines::{end_line, byte_len, compact, compact_text, ended, is_wordy, lines, lines_of, replace, replace_lit, shorter_than, wordy};
use crate::structure::ladder::{from_on, literal, parse_int_lit, take_from_on, take_up_to, up_to};
use crate::text::{after, before, chars_of, copy_text, cut_prefix, cut_prefix_lit, deep, ends, ends_lit, find, find_lit, has, has_lit, indent, indent_text, is_ws, lacks, opt_text, push_char, push_lit, push_text, starts, starts_lit, starts_text, strip_end, strip_end_lit, strip_start, strip_start_lit, text_after, text_before, trim, trim_text, ws};

verus! {

broadcast use crate::text::lemma_deep_push;

// ─── A test for zero with a test for less than zero ─────────────────────────

/// The pairs on the registers that carry arguments and results, in the order in which
/// they are replaced.
pub open spec fn known_pairs(t: Seq<char>) -> Seq<char> {
    let a = replace(t, "(arg1==0x0),(0x0!=(arg1<0x0))"@, "(arg1 == 0x0)"@);
    let b = replace(a, "(arg1==0x0),(0x0!=(arg1<0))"@, "(arg1 == 0x0)"@);
    let c = replace(b, "(rdx==0x0),(0x0!=(rdx<0x0))"@, "(rdx == 0x0)"@);
    let d = replace(c, "(rbp==0x0),(0x0!=(rbp<0x0))"@, "(rbp == 0x0)"@);
    let e = replace(d, "(rax==0x0),(0x0!=(rax<0x0))"@, "(rax == 0x0)"@);
    let f = replace(e, "(r8==0x0),(0x0!=(r8<0x0))"@, "(r8 == 0x0)"@);
    let g = replace(f, "(arg1 == 0x0),(0x0 != (arg1 < 0x0))"@, "(arg1 == 0x0)"@);
    let h = replace(g, "(arg1 == 0x0), (0x0 != (arg1 < 0x0))"@, "(arg1 == 0x0)"@);
    let i = replace(h, "(rdx == 0x0),(0x0 != (rdx < 0x0))"@, "(rdx == 0x0)"@);
    let j = replace(i, "(rbp == 0x0),(0x0 != (rbp < 0x0))"@, "(rbp == 0x0)"@);
    let k = replace(j, "(rax == 0x0),(0x0 != (rax < 0x0))"@, "(rax == 0x0)"@);
    replace(k, "(r8 == 0x0),(0x0 != (r8 < 0x0))"@, "(r8 == 0x0)"@)
}

fn replace_known_pairs(t: &Vec<char>) -> (r: Vec<char>)
    ensures
        r@ == known_pairs(t@),
{
    let a = replace_lit(t, "(arg1==0x0),(0x0!=(arg1<0x0))", "(arg1 == 0x0)");
    let b = replace_lit(&a, "(arg1==0x0),(0x0!=(arg1<0))", "(arg1 == 0x0)");
    let c = replace_lit(&b, "(rdx==0x0),(0x0!=(rdx<0x0))", "(rdx == 0x0)");
    let d = replace_lit(&c, "(rbp==0x0),(0x0!=(rbp<0x0))", "(rbp == 0x0)");
    let e = replace_lit(&d, "(rax==0x0),(0x0!=(rax<0x0))", "(rax == 0x0)");
    let f = replace_lit(&e, "(r8==0x0),(0x0!=(r8<0x0))", "(r8 == 0x0)");
    let g = replace_lit(&f, "(arg1 == 0x0),(0x0 != (arg1 < 0x0))", "(arg1 == 0x0)");
    let h = replace_lit(&g, "(arg1 == 0x0), (0x0 != (arg1 < 0x0))", "(arg1 == 0x0)");
    let i = replace_lit(&h, "(rdx == 0x0),(0x0 != (rdx < 0x0))", "(rdx == 0x0)");
    let j = replace_lit(&i, "(rbp == 0x0),(0x0 != (rbp < 0x0))", "(rbp == 0x0)");
    let k = replace_lit(&j, "(rax == 0x0),(0x0 != (rax < 0x0))", "(rax == 0x0)");
    replace_lit(&k, "(r8 == 0x0),(0x0 != (r8 < 0x0))", "(r8 == 0x0)")
}

/// `acc` and the first characters from `i` on that are not white space, `n` in all.
pub open spec fn solid(t: Seq<char>, i: int, n: int, acc: Seq<char>) -> Seq<char>
    decreases t.len() - i,
{
    if i < 0 || i >= t.len() || acc.len() >= n {
        acc
    } else if ws(t[i]) {
        solid(t, i + 1, n, acc)
    } else {
        solid(t, i + 1, n, acc + seq![t[i]])
    }
}

fn take_solid(t: &Vec<char>, from: usize, n: usize) -> (r: Vec<char>)
    requires
        from <= t@.len(),
    ensures
        r@ == solid(t@, from as int, n as int, Seq::empty()),
{
    let mut out: Vec<char> = Vec::new();
    let mut i: usize = from;
    assert(out@ =~= Seq::empty());
    while i < t.len() && out.len() < n
        invariant
            from <= i <= t@.len(),
            solid(t@, i as int, n as int, out@) == solid(t@, from as int, n as int, Seq::empty()),
        decreases t@.len() - i,
    {
        if !is_ws(t[i]) {
            push_char(&mut out, t[i]);
        }
        i += 1;
    }
    out
}

/// Position behind the `n`-th character from `i` on that is not white space.
pub open spec fn past_solid(t: Seq<char>, i: int, n: int) -> int
    decreases t.len() - i,
{
    if i < 0 || i >= t.len() || n <= 0 {
        i
    } else if ws(t[i]) {
        past_solid(t, i + 1, n)
    } else {
        past_solid(t, i + 1, n - 1)
    }
}

fn skip_solid(t: &Vec<char>, from: usize, n: usize) -> (r: usize)
    requires
        from <= t@.len(),
    ensures
        r == past_solid(t@, from as int, n as int),
        from <= r <= t@.len(),
        from < t@.len() && n > 0 ==> from < r,
{
    let mut left: usize = n;
    let mut i: usize = from;
    while i < t.len() && left > 0
        invariant
            from <= i <= t@.len(),
            from < t@.len() && n > 0 ==> (i > from || left == n),
            past_solid(t@, i as int, left as int) == past_solid(t@, from as int, n as int),
        decreases t@.len() - i,
    {
        if !is_ws(t[i]) {
            left -= 1;
        }
        i += 1;
    }
    i
}

/// The second test behind a test of `name` for zero, in one of its three forms.
pub open spec fn zero_pair(name: Seq<char>, form: int) -> Seq<char> {
    if form == 0 {
        "==0x0),(0x0!=("@ + name + "<0x0))"@
    } else if form == 1 {
        "==0x0),(0x0!=("@ + name + "<0))"@
    } else {
        "==0),(0!=("@ + name + "<0))"@
    }
}

fn write_zero_pair(name: &Vec<char>, form: u8) -> (r: Vec<char>)
    ensures
        r@ == zero_pair(name@, form as int),
{
    if form == 0 {
        let mut r = chars_of("==0x0),(0x0!=(");
        push_text(&mut r, name);
        push_lit(&mut r, "<0x0))");
        r
    } else if form == 1 {
        let mut r = chars_of("==0x0),(0x0!=(");
        push_text(&mut r, name);
        push_lit(&mut r, "<0))");
        r
    } else {
        let mut r = chars_of("==0),(0!=(");
        push_text(&mut r, name);
        push_lit(&mut r, "<0))");
        r
    }
}

/// The name that is tested twice at position `i`, and the length of the two tests
/// without white space.
pub open spec fn zero_pair_at(t: Seq<char>, i: int) -> Option<(Seq<char>, int)> {
    let c = solid(t, i, 120, Seq::empty());
    match cut_prefix(c, "("@) {
        None => None,
        Some(rest) => {
            let eq = match find(rest, "==0x0),("@) {
                Some(e) => Some(e),
                None => find(rest, "==0),("@),
            };
            match eq {
                None => None,
                Some(e) => {
                    let name = before(rest, e);
                    let tail = after(rest, e);
                    if name.len() == 0 || !wordy(name, "_"@) {
                        None
                    } else if starts(tail, zero_pair(name, 0)) {
                        Some((name, (1 + name.len() + zero_pair(name, 0).len()) as int))
                    } else if starts(tail, zero_pair(name, 1)) {
                        Some((name, (1 + name.len() + zero_pair(name, 1).len()) as int))
                    } else if starts(tail, zero_pair(name, 2)) {
                        Some((name, (1 + name.len() + zero_pair(name, 2).len()) as int))
                    } else {
                        None
                    }
                },
            }
        },
    }
}

fn match_dual_flag_zero_at(t: &Vec<char>, i: usize) -> (r: Option<(Vec<char>, usize)>)
    requires
        i <= t@.len(),
    ensures
        match r {
            Some((name, n)) => zero_pair_at(t@, i as int) == Some((name@, n as int)) && n > 0,
            None => zero_pair_at(t@, i as int) is None,
        },
{
    let c = take_solid(t, i, 120);
    let n: usize = c.len();
    match cut_prefix_lit(&c, "(") {
        None => None,
        Some(rest) => {
            proof {
                reveal_strlit("(");
            }
            assert(rest@.len() + 1 == n);
            let e: usize = match find_lit(&rest, "==0x0),(") {
                Some(e) => {
                    proof {
                        crate::text::lemma_find_from(rest@, "==0x0),("@, 0);
                    }
                    e
                },
                None => match find_lit(&rest, "==0),(") {
                    Some(e) => {
                        proof {
                            crate::text::lemma_find_from(rest@, "==0),("@, 0);
                        }
                        e
                    },
                    None => {
                        return None;
                    },
                },
            };
            let name = text_before(&rest, e);
            let tail = text_after(&rest, e);
            if name.len() == 0 || !is_wordy(&name, "_") {
                return None;
            }
            let a = write_zero_pair(&name, 0);
            if starts_text(&tail, &a) {
                assert(a@.len() <= tail@.len());
                return Some((name, 1 + e + a.len()));
            }
            let b = write_zero_pair(&name, 1);
            if starts_text(&tail, &b) {
                assert(b@.len() <= tail@.len());
                return Some((name, 1 + e + b.len()));
            }
            let d = write_zero_pair(&name, 2);
            if starts_text(&tail, &d) {
                assert(d@.len() <= tail@.len());
                return Some((name, 1 + e + d.len()));
            }
            None
        },
    }
}

/// `(name == 0x0)`.
pub open spec fn zero_test(name: Seq<char>) -> Seq<char> {
    "("@ + name + " == 0x0)"@
}

/// `acc` and the text from `i` on with each pair as one test.
pub open spec fn pairs_from(t: Seq<char>, i: int, acc: Seq<char>) -> Seq<char>
    decreases t.len() - i,
{
    if i < 0 || i >= t.len() {
        acc
    } else {
        match zero_pair_at(t, i) {
            Some((name, n)) => if i < past_solid(t, i, n) <= t.len() {
                pairs_from(t, past_solid(t, i, n), acc + zero_test(name))
            } else {
                acc
            },
            None => pairs_from(t, i + 1, acc + seq![t[i]]),
        }
    }
}

/// The text with each pair of zero tests as one.
pub open spec fn zero_tests_paired(src: Seq<char>) -> Seq<char> {
    pairs_from(known_pairs(src), 0, Seq::empty())
}

pub fn polish_dual_flag_zero_tests(src: &Vec<char>) -> (r: Vec<char>)
    ensures
        r@ == zero_tests_paired(src@),
{
    let t = replace_known_pairs(src);
    let mut out: Vec<char> = Vec::new();
    let mut i: usize = 0;
    assert(out@ =~= Seq::empty());
    while i < t.len()
        invariant
            i <= t@.len(),
            pairs_from(t@, i as int, out@) == pairs_from(t@, 0, Seq::empty()),
        decreases t@.len() - i,
    {
        match match_dual_flag_zero_at(&t, i) {
            Some((name, n)) => {
                let mut test = chars_of("(");
                push_text(&mut test, &name);
                push_lit(&mut test, " == 0x0)");
                push_text(&mut out, &test);
                i = skip_solid(&t, i, n);
            },
            None => {
                push_char(&mut out, t[i]);
                    i += 1;
            },
        }
    }
    out
}

// ─── A test for less with the sign of the difference ────────────────────────

/// Where the innermost group before a comparison begins and ends, going back from
/// position `i`.
pub open spec fn group_back(t: Seq<char>, i: int, depth: int, end: int) -> (int, int)
    decreases i,
{
    if i <= 0 {
        (t.len() as int, end)
    } else if t[i - 1] == ')' {
        group_back(
            t,
            i - 1,
            depth + 1,
            if depth == 0 {
                i - 1
            } else {
                end
            },
        )
    } else if t[i - 1] == '(' {
        if depth == 1 {
            (i, end)
        } else {
            group_back(t, i - 1, depth - 1, end)
        }
    } else {
        group_back(t, i - 1, depth, end)
    }
}

/// The left side of the comparison.
pub open spec fn left_side(t: Seq<char>) -> Seq<char> {
    let (start, end) = group_back(t, t.len() as int, 0, t.len() as int);
    if start < end {
        t.subrange(start, end)
    } else {
        strip_start(strip_end(t, ")"@), "("@)
    }
}

fn take_left_side(t: &Vec<char>) -> (r: Vec<char>)
    ensures
        r@ == left_side(t@),
{
    let n: usize = t.len();
    let mut depth: i128 = 0;
    let mut end: usize = n;
    let mut start: usize = n;
    let mut i: usize = n;
    let ghost want = group_back(t@, t@.len() as int, 0, t@.len() as int);
    let mut going = true;
    while i > 0 && going
        invariant
            i <= n,
            n == t@.len(),
            end <= n,
            start <= n,
            -(n - i) <= depth <= n - i,
            want == group_back(t@, t@.len() as int, 0, t@.len() as int),
            going ==> start == n && group_back(t@, i as int, depth as int, end as int) == want,
            !going ==> want == (start as int, end as int),
        decreases i,
    {
        let c = t[i - 1];
        if c == ')' {
            if depth == 0 {
                end = i - 1;
            }
            depth += 1;
        } else if c == '(' {
            if depth == 1 {
                start = i;
                going = false;
            } else {
                depth -= 1;
            }
        }
        i -= 1;
    }
    if start < end {
        crate::text::slice_text(t, start, end)
    } else {
        strip_start_lit(&strip_end_lit(t, ")"), "(")
    }
}

/// What follows the first comparison and the sign that compares it with the second.
pub open spec fn second_test(rest: Seq<char>) -> Option<Seq<char>> {
    match cut_prefix(rest, ")!="@) {
        Some(r) => Some(r),
        None => match cut_prefix(rest, ")=="@) {
            Some(r) => Some(r),
            None => match cut_prefix(rest, "!="@) {
                Some(r) => Some(r),
                None => cut_prefix(rest, "=="@),
            },
        },
    }
}

fn take_second_test(rest: &Vec<char>) -> (r: Option<Vec<char>>)
    ensures
        opt_text(r) == second_test(rest@),
{
    if let Some(r) = cut_prefix_lit(rest, ")!=") {
        return Some(r);
    }
    if let Some(r) = cut_prefix_lit(rest, ")==") {
        return Some(r);
    }
    if let Some(r) = cut_prefix_lit(rest, "!=") {
        return Some(r);
    }
    cut_prefix_lit(rest, "==")
}

/// The two sides of a comparison for less that is tested together with the sign of
/// the difference.
pub open spec fn less_pair(line: Seq<char>) -> Option<(Seq<char>, Seq<char>)> {
    let c = compact(line);
    if lacks(line, "<"@) || (lacks(line, "!="@) && lacks(line, "=="@)) || (lacks(line, " - "@) && lacks(
        line,
        "- 0x"@,
    ) && lacks(line, "-0x"@)) {
        None
    } else {
        match find(c, "<"@) {
            None => None,
            Some(lt) => {
                let rhs = up_to(after(c, lt + 1), ")!=,"@);
                if literal(rhs) is None && !wordy(rhs, "_*()"@) {
                    None
                } else {
                    match second_test(from_on(after(c, lt + 1), ")!=,"@)) {
                        None => None,
                        Some(second) => {
                            let lhs = left_side(before(c, lt));
                            if has(strip_start(second, "("@), "-"@) && (has(strip_start(second, "("@), "<0x0"@)
                                || has(strip_start(second, "("@), "<0)"@)) && lhs.len() > 0 && byte_len(lhs) <= 80 {
                                Some((lhs, rhs))
                            } else {
                                None
                            }
                        },
                    }
                }
            },
        }
    }
}

fn parse_less_pair(line: &Vec<char>) -> (r: Option<(Vec<char>, Vec<char>)>)
    ensures
        match r {
            Some((a, b)) => less_pair(line@) == Some((a@, b@)),
            None => less_pair(line@) is None,
        },
{
    if !has_lit(line, "<") || (!has_lit(line, "!=") && !has_lit(line, "==")) {
        return None;
    }
    if !has_lit(line, " - ") && !has_lit(line, "- 0x") && !has_lit(line, "-0x") {
        return None;
    }
    let c = compact_text(line);
    let n: usize = c.len();
    let lt: usize = match find_lit(&c, "<") {
        Some(lt) => {
            proof {
                reveal_strlit("<");
                crate::text::lemma_find_from(c@, "<"@, 0);
            }
            lt
        },
        None => {
            return None;
        },
    };
    assert(lt < n);
    let tail = text_after(&c, lt + 1);
    let rhs = take_up_to(&tail, ")!=,");
    if parse_int_lit(&rhs).is_none() && !is_wordy(&rhs, "_*()") {
        return None;
    }
    let second = match take_second_test(&take_from_on(&tail, ")!=,")) {
        Some(s) => strip_start_lit(&s, "("),
        None => {
            return None;
        },
    };
    if !has_lit(&second, "-") {
        return None;
    }
    if !has_lit(&second, "<0x0") && !has_lit(&second, "<0)") {
        return None;
    }
    let lhs = take_left_side(&text_before(&c, lt));
    if lhs.len() == 0 || !shorter_than(&lhs, 81) {
        return None;
    }
    Some((lhs, rhs))
}

/// The line with the pair as one comparison, if it is a condition.
pub open spec fn less_line(line: Seq<char>) -> Option<Seq<char>> {
    let t = trim(line);
    let brace = if ends(t, "{"@) {
        " {"@
    } else {
        Seq::empty()
    };
    match less_pair(line) {
        None => None,
        Some((l, r)) => if starts(t, "if"@) {
            Some(indent(line) + "if (("@ + l + " < "@ + r + "))"@ + brace)
        } else if starts(t, "while"@) {
            if has(t, "while (!"@) || has(t, "while(!"@) {
                Some(indent(line) + "while (!(("@ + l + " < "@ + r + ")))"@ + brace)
            } else {
                Some(indent(line) + "while (("@ + l + " < "@ + r + "))"@ + brace)
            }
        } else {
            None
        },
    }
}

fn try_simplify_dual_flag_lt(line: &Vec<char>) -> (r: Option<Vec<char>>)
    ensures
        opt_text(r) == less_line(line@),
{
    let t = trim_text(line);
    match parse_less_pair(line) {
        None => None,
        Some((l, r)) => {
            let mut brace: Vec<char> = Vec::new();
            assert(brace@ =~= Seq::empty());
            if ends_lit(&t, "{") {
                brace = chars_of(" {");
            }
            let mut out = indent_text(line);
            let mut close = chars_of("))");
            if starts_lit(&t, "if") {
                push_lit(&mut out, "if ((");
            } else if starts_lit(&t, "while") {
                if has_lit(&t, "while (!") || has_lit(&t, "while(!") {
                    push_lit(&mut out, "while (!((");
                    close = chars_of(")))");
                } else {
                    push_lit(&mut out, "while ((");
                }
            } else {
                return None;
            }
            push_text(&mut out, &l);
            push_lit(&mut out, " < ");
            push_text(&mut out, &r);
            push_text(&mut out, &close);
            push_text(&mut out, &brace);
            Some(out)
        },
    }
}

/// The first `n` lines, each pair in a condition as one comparison.
pub open spec fn less_paired(v: Seq<Seq<char>>, n: int) -> Seq<char>
    decreases n,
{
    if n <= 0 {
        Seq::empty()
    } else {
        less_paired(v, n - 1) + ended(
            match less_line(v[n - 1]) {
                Some(l) => l,
                None => v[n - 1],
            },
        )
    }
}

pub fn polish_flag_lt_compares(src: &Vec<char>) -> (r: Vec<char>)
    ensures
        r@ == less_paired(lines(src@), lines(src@).len() as int),
{
    let v = lines_of(src);
    let ghost d = deep(v@);
    let mut out: Vec<char> = Vec::new();
    let mut i: usize = 0;
    assert(out@ =~= Seq::empty());
    while i < v.len()
        invariant
            i <= v@.len(),
            d == deep(v@),
            out@ == less_paired(d, i as int),
        decreases v@.len() - i,
    {
        assert(d[i as int] == v@[i as int]@);
        let line = match try_simplify_dual_flag_lt(&v[i]) {
            Some(l) => l,
            None => copy_text(&v[i]),
        };
        push_text(&mut out, &end_line(&line));
        i += 1;
    }
    out
}

} // verus!
