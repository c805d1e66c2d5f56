//! Calls that set up and tear down resources.

use vstd::prelude::*;
use crate::lines::{end_line, compact, compact_text, count, count_lit, ended, lines, lines_of, replace, replace_lit, unend, unended};
use crate::numbers::opt_int;
use crate::structure::ladder::{literal, parse_int_lit};
use crate::structure::polish::keywords::{has_loop, holds_loop};
use crate::text::{copy_text, deep, find_any, find_any_lit, has, has_lit, indent, indent_text, is_lit, new_items, opt_text, push_char, push_item, push_lit, push_text, rfind_any, rfind_any_lit, same, slice_text, starts, starts_lit, trim, trim_text};

verus! {

broadcast use crate::text::lemma_deep_push;

// ─── Tear-down after a loop ─────────────────────────────────────────────────

/// The line calls a function on a stack slot.
pub open spec fn cleanup_call(t: Seq<char>) -> bool {
    (has(t, "FUN_"@) || starts(t, "call("@)) && (has(t, "fp"@) || has(t, "arg_"@) || has(t, "0x30"@) || has(
        t,
        "0x38"@,
    ) || has(t, "0x20"@) || has(t, "0x28"@) || has(t, "0x40"@) || has(t, "0x48"@))
}

fn is_cleanup_call(t: &Vec<char>) -> (r: bool)
    ensures
        r == cleanup_call(t@),
{
    (has_lit(t, "FUN_") || starts_lit(t, "call(")) && (has_lit(t, "fp") || has_lit(t, "arg_") || has_lit(t, "0x30")
        || has_lit(t, "0x38") || has_lit(t, "0x20") || has_lit(t, "0x28") || has_lit(t, "0x40") || has_lit(
        t,
        "0x48",
    ))
}

/// The line loads an argument.
pub open spec fn loads_argument(t: Seq<char>) -> bool {
    starts(t, "arg_0 = 0x"@)
}

/// The line belongs to a run of calls.
pub open spec fn in_run(t: Seq<char>) -> bool {
    t.len() == 0 || loads_argument(t) || cleanup_call(t)
}

/// Where the run of calls from line `i` on ends.
pub open spec fn run_end(v: Seq<Seq<char>>, i: int) -> int
    decreases v.len() - i,
{
    if 0 <= i < v.len() && in_run(trim(v[i])) {
        run_end(v, i + 1)
    } else {
        i
    }
}

/// `acc` and the calls of the run from line `i` on.
pub open spec fn run_calls(v: Seq<Seq<char>>, i: int, acc: Seq<usize>) -> Seq<usize>
    decreases v.len() - i,
{
    if 0 <= i < v.len() && in_run(trim(v[i])) {
        let t = trim(v[i]);
        run_calls(
            v,
            i + 1,
            if t.len() > 0 && !loads_argument(t) {
                acc.push(i as usize)
            } else {
                acc
            },
        )
    } else {
        acc
    }
}

fn collect_run(v: &Vec<Vec<char>>, from: usize) -> (r: (usize, Vec<usize>))
    requires
        from <= v@.len(),
    ensures
        r.0 == run_end(deep(v@), from as int),
        from <= r.0 <= v@.len(),
        r.1@ == run_calls(deep(v@), from as int, Seq::empty()),
{
    let ghost d = deep(v@);
    let mut calls: Vec<usize> = Vec::new();
    let mut i: usize = from;
    assert(calls@ =~= Seq::empty());
    while i < v.len()
        invariant
            from <= i <= v@.len(),
            d == deep(v@),
            d.len() == v@.len(),
            run_end(d, i as int) == run_end(d, from as int),
            run_calls(d, i as int, calls@) == run_calls(d, from as int, Seq::empty()),
        decreases v@.len() - i,
    {
        assert(d[i as int] == v@[i as int]@);
        let t = trim_text(&v[i]);
        if t.len() == 0 || starts_lit(&t, "arg_0 = 0x") {
            i += 1;
        } else if is_cleanup_call(&t) {
            calls.push(i);
            i += 1;
        } else {
            return (i, calls);
        }
    }
    (i, calls)
}

/// The line starts or holds a loop.
pub open spec fn loop_line(t: Seq<char>) -> bool {
    has(t, "while"@) || starts(t, "for "@) || starts(t, "for("@)
}

/// `acc` and the calls, from line `i` on, of each run of two at least that follows a
/// loop.
pub open spec fn teardown_from(v: Seq<Seq<char>>, i: int, seen: bool, acc: Seq<usize>) -> Seq<usize>
    decreases v.len() - i,
{
    if i < 0 || i >= v.len() {
        acc
    } else {
        let t = trim(v[i]);
        let now = seen || loop_line(t);
        let calls = run_calls(v, i, Seq::empty());
        if now && (cleanup_call(t) || loads_argument(t)) && i < run_end(v, i) <= v.len() {
            teardown_from(
                v,
                run_end(v, i),
                now,
                if calls.len() >= 2 {
                    acc + calls
                } else {
                    acc
                },
            )
        } else {
            teardown_from(v, i + 1, now, acc)
        }
    }
}

fn collect_teardown(v: &Vec<Vec<char>>) -> (r: Vec<usize>)
    ensures
        r@ == teardown_from(deep(v@), 0, false, Seq::empty()),
{
    let ghost d = deep(v@);
    let mut marks: Vec<usize> = Vec::new();
    let mut seen = false;
    let mut i: usize = 0;
    assert(marks@ =~= Seq::empty());
    while i < v.len()
        invariant
            i <= v@.len(),
            d == deep(v@),
            d.len() == v@.len(),
            teardown_from(d, i as int, seen, marks@) == teardown_from(d, 0, false, Seq::empty()),
        decreases v@.len() - i,
    {
        assert(d[i as int] == v@[i as int]@);
        let t = trim_text(&v[i]);
        if has_lit(&t, "while") || starts_lit(&t, "for ") || starts_lit(&t, "for(") {
            seen = true;
        }
        if seen && (is_cleanup_call(&t) || starts_lit(&t, "arg_0 = 0x")) {
            let (e, mut calls) = collect_run(v, i);
            proof {
                assert(in_run(t@));
                lemma_run_end(d, i + 1);
            }
            if calls.len() >= 2 {
                marks.append(&mut calls);
            }
            i = e;
        } else {
            i += 1;
        }
    }
    marks
}

/// A run does not end before it starts.
proof fn lemma_run_end(v: Seq<Seq<char>>, i: int)
    ensures
        run_end(v, i) >= i,
    decreases v.len() - i,
{
    if 0 <= i < v.len() && in_run(trim(v[i])) {
        lemma_run_end(v, i + 1);
    }
}

/// The first `n` lines, each marked one behind a comment.
pub open spec fn marked_lines(v: Seq<Seq<char>>, marks: Seq<usize>, n: int) -> Seq<char>
    decreases n,
{
    if n <= 0 {
        Seq::empty()
    } else {
        marked_lines(v, marks, n - 1) + (if marks.contains((n - 1) as usize) {
            indent(v[n - 1]) + "/* destroy */\n"@
        } else {
            Seq::empty()
        }) + ended(v[n - 1])
    }
}

/// The text with its tear-down calls marked.
pub open spec fn teardown_marked(src: Seq<char>) -> Seq<char> {
    let v = lines(src);
    let marks = teardown_from(v, 0, false, Seq::empty());
    if (count(src, "FUN_"@) < 2 && count(src, "call("@) < 2) || !has_loop(src) || marks.len() < 2 {
        src
    } else {
        marked_lines(v, marks, v.len() as int)
    }
}

fn is_marked(marks: &Vec<usize>, k: usize) -> (r: bool)
    ensures
        r == marks@.contains(k),
{
    let mut i: usize = 0;
    while i < marks.len()
        invariant
            i <= marks@.len(),
            forall|j: int| 0 <= j < i ==> marks@[j] != k,
        decreases marks@.len() - i,
    {
        if marks[i] == k {
            return true;
        }
        i += 1;
    }
    false
}

pub fn polish_paired_cleanup_destroys(src: &Vec<char>) -> (r: Vec<char>)
    ensures
        r@ == teardown_marked(src@),
{
    if (count_lit(src, "FUN_") < 2 && count_lit(src, "call(") < 2) || !holds_loop(src) {
        return copy_text(src);
    }
    let v = lines_of(src);
    let marks = collect_teardown(&v);
    if marks.len() < 2 {
        return copy_text(src);
    }
    let ghost d = deep(v@);
    let mut out: Vec<char> = Vec::new();
    let mut i: usize = 0;
    assert(out@ =~= Seq::empty());
    while i < v.len()
        invariant
            i <= v@.len(),
            d == deep(v@),
            out@ == marked_lines(d, marks@, i as int),
        decreases v@.len() - i,
    {
        assert(d[i as int] == v@[i as int]@);
        let mut mark: Vec<char> = Vec::new();
        assert(mark@ =~= Seq::empty());
        if is_marked(&marks, i) {
            mark = indent_text(&v[i]);
            push_lit(&mut mark, "/* destroy */\n");
        }
        push_text(&mut out, &mark);
        push_text(&mut out, &end_line(&v[i]));
        i += 1;
    }
    out
}

// ─── Names for pairs of resources ───────────────────────────────────────────

/// The arguments from position `i` of a list on, after `acc`; `cur` is the part of
/// one that has been read.
pub open spec fn arguments_from(t: Seq<char>, i: int, depth: int, cur: Seq<char>, acc: Seq<Seq<char>>) -> Seq<Seq<char>>
    decreases t.len() - i,
{
    if i < 0 || i >= t.len() {
        if trim(cur).len() > 0 {
            acc.push(trim(cur))
        } else {
            acc
        }
    } else if t[i] == ',' && depth == 0 {
        arguments_from(t, i + 1, depth, Seq::empty(), acc.push(trim(cur)))
    } else {
        arguments_from(
            t,
            i + 1,
            if t[i] == '(' {
                depth + 1
            } else if t[i] == ')' {
                depth - 1
            } else {
                depth
            },
            cur + seq![t[i]],
            acc,
        )
    }
}

/// The arguments of the call in a line; none where there is no call.
pub open spec fn arguments(t: Seq<char>) -> Seq<Seq<char>> {
    match find_any(t, "("@) {
        None => Seq::empty(),
        Some(a) => match rfind_any(t, ")"@) {
            None => Seq::empty(),
            Some(b) => if b <= a {
                Seq::empty()
            } else {
                arguments_from(t.subrange(a + 1, b), 0, 0, Seq::empty(), Seq::empty())
            },
        },
    }
}

fn split_arguments(t: &Vec<char>) -> (r: Vec<Vec<char>>)
    ensures
        deep(r@) == arguments_from(t@, 0, 0, Seq::empty(), Seq::empty()),
{
    let mut out = new_items();
    let mut cur: Vec<char> = Vec::new();
    let mut depth: i128 = 0;
    let mut i: usize = 0;
    assert(deep(out@) =~= Seq::empty());
    assert(cur@ =~= Seq::empty());
    while i < t.len()
        invariant
            i <= t@.len(),
            -(i as int) <= depth <= i,
            arguments_from(t@, i as int, depth as int, cur@, deep(out@)) == arguments_from(
                t@,
                0,
                0,
                Seq::empty(),
                Seq::empty(),
            ),
        decreases t@.len() - i,
    {
        let c = t[i];
        if c == ',' && depth == 0 {
            push_item(&mut out, trim_text(&cur));
            cur = Vec::new();
            assert(cur@ =~= Seq::empty());
        } else {
            if c == '(' {
                depth += 1;
            } else if c == ')' {
                depth -= 1;
            }
            push_char(&mut cur, c);
        }
        i += 1;
    }
    let last = trim_text(&cur);
    if last.len() > 0 {
        push_item(&mut out, last);
    }
    out
}

fn extract_call_args(t: &Vec<char>) -> (r: Vec<Vec<char>>)
    ensures
        deep(r@) == arguments(t@),
{
    let n: usize = t.len();
    if let Some(a) = find_any_lit(t, "(") {
        if let Some(b) = rfind_any_lit(t, ")") {
            if a < b {
                assert(b < n);
                return split_arguments(&slice_text(t, a + 1, b));
            }
        }
    }
    let none = new_items();
    assert(deep(none@) =~= Seq::empty());
    none
}

/// The slot without white space and without the number of the frame pointer.
pub open spec fn slot_key(s: Seq<char>) -> Seq<char> {
    replace(
        replace(replace(replace(compact(s), "fp_2"@, "fp"@), "fp_3"@, "fp"@), "fp_4"@, "fp"@),
        "fp_5"@,
        "fp"@,
    )
}

fn normalize_slot(s: &Vec<char>) -> (r: Vec<char>)
    ensures
        r@ == slot_key(s@),
{
    let a = replace_lit(&compact_text(s), "fp_2", "fp");
    let b = replace_lit(&a, "fp_3", "fp");
    let c = replace_lit(&b, "fp_4", "fp");
    replace_lit(&c, "fp_5", "fp")
}

/// The number that tags the resource which a line sets up.
pub open spec fn tag_of(args: Seq<Seq<char>>) -> Option<int> {
    if args.len() >= 2 {
        literal(compact(args[1]))
    } else {
        None
    }
}

fn parse_tag(args: &Vec<Vec<char>>) -> (r: Option<i64>)
    ensures
        opt_int(r) == tag_of(deep(args@)),
{
    if args.len() >= 2 {
        assert(deep(args@)[1] == args@[1]@);
        parse_int_lit(&compact_text(&args[1]))
    } else {
        None
    }
}

/// The line may set up or tear down a resource.
pub open spec fn resource_line(t: Seq<char>) -> bool {
    has(t, "FUN_"@) || starts(t, "call("@) || has(t, "res_init"@) || has(t, "res_destroy"@)
}

/// The slot that the last of the first `n` lines with the tag sets up.
pub open spec fn slot_of(v: Seq<Seq<char>>, tag: int, n: int) -> Option<Seq<char>>
    decreases n,
{
    if n <= 0 {
        None
    } else {
        let t = trim(v[n - 1]);
        let args = arguments(t);
        if resource_line(t) && tag_of(args) == Some(tag) {
            Some(slot_key(args[0]))
        } else {
            slot_of(v, tag, n - 1)
        }
    }
}

fn find_slot(v: &Vec<Vec<char>>, tag: i64) -> (r: Option<Vec<char>>)
    ensures
        opt_text(r) == slot_of(deep(v@), tag as int, v@.len() as int),
{
    let ghost d = deep(v@);
    let mut i: usize = v.len();
    while i > 0
        invariant
            i <= v@.len(),
            d == deep(v@),
            d.len() == v@.len(),
            slot_of(d, tag as int, i as int) == slot_of(d, tag as int, v@.len() as int),
        decreases i,
    {
        assert(d[i - 1] == v@[i - 1]@);
        let t = trim_text(&v[i - 1]);
        if has_lit(&t, "FUN_") || starts_lit(&t, "call(") || has_lit(&t, "res_init") || has_lit(&t, "res_destroy") {
            let args = extract_call_args(&t);
            if let Some(k) = parse_tag(&args) {
                if k == tag {
                    assert(deep(args@)[0] == args@[0]@);
                    return Some(normalize_slot(&args[0]));
                }
            }
        }
        i -= 1;
    }
    None
}

/// What stands for a line: the named call on the resource in slot `a` or `b`, nothing
/// for a mark, or the line itself.
pub open spec fn named_line(line: Seq<char>, a: Seq<char>, b: Seq<char>) -> Seq<char> {
    let t = trim(line);
    let args = arguments(t);
    if tag_of(args) == Some(1int) && slot_key(args[0]) == a {
        indent(line) + "res_init(&a, 1);\n"@
    } else if tag_of(args) == Some(2int) && slot_key(args[0]) == b {
        indent(line) + "res_init(&b, 2);\n"@
    } else if args.len() == 1 && slot_key(args[0]) == b {
        indent(line) + "res_destroy(&b);\n"@
    } else if args.len() == 1 && slot_key(args[0]) == a {
        indent(line) + "res_destroy(&a);\n"@
    } else if t == "/* destroy */"@ {
        Seq::empty()
    } else {
        ended(line)
    }
}

/// The named call that stands for a line, if any.
fn name_call(t: &Vec<char>, a: &Vec<char>, b: &Vec<char>) -> (r: u8)
    ensures
        r == (if tag_of(arguments(t@)) == Some(1int) && slot_key(arguments(t@)[0]) == a@ {
            1int
        } else if tag_of(arguments(t@)) == Some(2int) && slot_key(arguments(t@)[0]) == b@ {
            2int
        } else if arguments(t@).len() == 1 && slot_key(arguments(t@)[0]) == b@ {
            3int
        } else if arguments(t@).len() == 1 && slot_key(arguments(t@)[0]) == a@ {
            4int
        } else {
            0int
        }),
{
    let args = extract_call_args(t);
    if args.len() == 0 {
        return 0;
    }
    assert(deep(args@)[0] == args@[0]@);
    let slot = normalize_slot(&args[0]);
    match parse_tag(&args) {
        Some(k) => {
            if k == 1 && same(&slot, a) {
                return 1;
            }
            if k == 2 && same(&slot, b) {
                return 2;
            }
        },
        None => {},
    }
    if args.len() == 1 {
        if same(&slot, b) {
            return 3;
        }
        if same(&slot, a) {
            return 4;
        }
    }
    0
}

fn write_named_line(line: &Vec<char>, a: &Vec<char>, b: &Vec<char>) -> (r: Vec<char>)
    ensures
        r@ == named_line(line@, a@, b@),
{
    let t = trim_text(line);
    let k = name_call(&t, a, b);
    let mut out = indent_text(line);
    if k == 1 {
        push_lit(&mut out, "res_init(&a, 1);\n");
        out
    } else if k == 2 {
        push_lit(&mut out, "res_init(&b, 2);\n");
        out
    } else if k == 3 {
        push_lit(&mut out, "res_destroy(&b);\n");
        out
    } else if k == 4 {
        push_lit(&mut out, "res_destroy(&a);\n");
        out
    } else if is_lit(&t, "/* destroy */") {
        let none: Vec<char> = Vec::new();
        assert(none@ =~= Seq::empty());
        none
    } else {
        end_line(line)
    }
}

pub open spec fn named_lines(v: Seq<Seq<char>>, a: Seq<char>, b: Seq<char>, n: int) -> Seq<char>
    decreases n,
{
    if n <= 0 {
        Seq::empty()
    } else {
        named_lines(v, a, b, n - 1) + named_line(v[n - 1], a, b)
    }
}

/// The text calls enough functions for a pair of resources.
pub open spec fn may_pair(src: Seq<char>) -> bool {
    count(src, "FUN_"@) >= 2 || count(src, "call("@) >= 2 || count(src, "res_init"@) + count(src, "res_destroy"@)
        >= 2 || count(src, "/* destroy */"@) >= 2
}

fn holds_pair(src: &Vec<char>) -> (r: bool)
    ensures
        r == may_pair(src@),
{
    count_lit(src, "FUN_") >= 2 || count_lit(src, "call(") >= 2 || count_lit(src, "res_init") as u128 + count_lit(
        src,
        "res_destroy",
    ) as u128 >= 2 || count_lit(src, "/* destroy */") >= 2
}

/// The text with names for the calls on a pair of resources, if it sets up one with
/// tag 1 and one with tag 2.
pub open spec fn pairs_named(src: Seq<char>) -> Seq<char> {
    let v = lines(src);
    let n = v.len() as int;
    if !may_pair(src) {
        src
    } else {
        match slot_of(v, 1, n) {
            None => src,
            Some(a) => match slot_of(v, 2, n) {
                None => src,
                Some(b) => unended(src, named_lines(v, a, b, n)),
            },
        }
    }
}

pub fn polish_resource_pair_names(src: &Vec<char>) -> (r: Vec<char>)
    ensures
        r@ == pairs_named(src@),
{
    if !holds_pair(src) {
        return copy_text(src);
    }
    let v = lines_of(src);
    let a = match find_slot(&v, 1) {
        Some(a) => a,
        None => {
            return copy_text(src);
        },
    };
    let b = match find_slot(&v, 2) {
        Some(b) => b,
        None => {
            return copy_text(src);
        },
    };
    let ghost d = deep(v@);
    let mut out: Vec<char> = Vec::new();
    let mut i: usize = 0;
    assert(out@ =~= Seq::empty());
    while i < v.len()
        invariant
            i <= v@.len(),
            d == deep(v@),
            out@ == named_lines(d, a@, b@, i as int),
        decreases v@.len() - i,
    {
        assert(d[i as int] == v@[i as int]@);
        push_text(&mut out, &write_named_line(&v[i], &a, &b));
        i += 1;
    }
    unend(src, out)
}

} // verus!
