//! Repeated keywords, and guards round bodies that have none.

use vstd::prelude::*;
use crate::lines::{replace, replace_lit};
use crate::text::{after, before, copy_text, find_any, find_any_lit, has, has_lit, push_lit, push_text, rfind_any, rfind_any_lit, same, text_after, text_before};

verus! {

/// One round of taking a `while` out of a `while` condition.
pub open spec fn while_round(t: Seq<char>) -> Seq<char> {
    replace(
        replace(
            replace(replace(t, "while ((while("@, "while (("@), "while (while("@, "while ("@),
            "while((while("@,
            "while(("@,
        ),
        "while(while("@,
        "while("@,
    )
}

fn one_while_round(t: &Vec<char>) -> (r: Vec<char>)
    ensures
        r@ == while_round(t@),
{
    let a = replace_lit(t, "while ((while(", "while ((");
    let b = replace_lit(&a, "while (while(", "while (");
    let c = replace_lit(&b, "while((while(", "while((");
    replace_lit(&c, "while(while(", "while(")
}

/// `n` rounds, or as many as change something.
pub open spec fn while_rounds(t: Seq<char>, n: nat) -> Seq<char>
    decreases n,
{
    if n == 0 || while_round(t) == t {
        t
    } else {
        while_rounds(while_round(t), (n - 1) as nat)
    }
}

/// Takes `while` keywords out of `while` conditions.
pub fn polish_nested_while_keyword(src: &Vec<char>) -> (r: Vec<char>)
    ensures
        r@ == while_rounds(src@, 4),
{
    let mut out = copy_text(src);
    let mut n: u8 = 4;
    while n > 0
        invariant
            while_rounds(out@, n as nat) == while_rounds(src@, 4),
        decreases n,
    {
        let next = one_while_round(&out);
        if same(&next, &out) {
            return out;
        }
        out = next;
        n -= 1;
    }
    out
}

/// One round of taking an `if` out of an `if` condition.
pub open spec fn if_round(t: Seq<char>) -> Seq<char> {
    replace(
        replace(
            replace(
                replace(
                    replace(replace(t, "if ((if("@, "if (("@), "if (if("@, "if ("@),
                    "if((if("@,
                    "if(("@,
                ),
                "if(if("@,
                "if("@,
            ),
            "if ((!if("@,
            "if ((!"@,
        ),
        "if ((!((if("@,
        "if ((!("@,
    )
}

fn one_if_round(t: &Vec<char>) -> (r: Vec<char>)
    ensures
        r@ == if_round(t@),
{
    let a = replace_lit(t, "if ((if(", "if ((");
    let b = replace_lit(&a, "if (if(", "if (");
    let c = replace_lit(&b, "if((if(", "if((");
    let d = replace_lit(&c, "if(if(", "if(");
    let e = replace_lit(&d, "if ((!if(", "if ((!");
    replace_lit(&e, "if ((!((if(", "if ((!(")
}

/// `n` rounds, or as many as change something.
pub open spec fn if_rounds(t: Seq<char>, n: nat) -> Seq<char>
    decreases n,
{
    if n == 0 || if_round(t) == t {
        t
    } else {
        if_rounds(if_round(t), (n - 1) as nat)
    }
}

/// Takes `if` keywords out of `if` conditions.
pub fn polish_nested_if_keyword(src: &Vec<char>) -> (r: Vec<char>)
    ensures
        r@ == if_rounds(src@, 6),
{
    let mut out = copy_text(src);
    let mut n: u8 = 6;
    while n > 0
        invariant
            if_rounds(out@, n as nat) == if_rounds(src@, 6),
        decreases n,
    {
        let next = one_if_round(&out);
        if same(&next, &out) {
            return out;
        }
        out = next;
        n -= 1;
    }
    out
}

/// The text holds an `if`.
pub open spec fn has_if(t: Seq<char>) -> bool {
    has(t, "if "@) || has(t, "if("@)
}

pub fn holds_if(t: &Vec<char>) -> (r: bool)
    ensures
        r == has_if(t@),
{
    has_lit(t, "if ") || has_lit(t, "if(")
}

/// The text holds a loop.
pub open spec fn has_loop(t: Seq<char>) -> bool {
    has(t, "while"@) || has(t, "for "@) || has(t, "for("@)
}

pub fn holds_loop(t: &Vec<char>) -> (r: bool)
    ensures
        r == has_loop(t@),
{
    has_lit(t, "while") || has_lit(t, "for ") || has_lit(t, "for(")
}

/// The text with an `if` that always holds just inside the first brace, closed before
/// the last one.
pub open spec fn wrapped(src: Seq<char>) -> Seq<char> {
    match find_any(src, "{"@) {
        None => src,
        Some(open) => {
            let out = before(src, open + 1) + "\n if ((1)) {"@ + after(src, open + 1);
            match rfind_any(out, "}"@) {
                None => out,
                Some(last) => before(out, last) + " }\n"@ + after(out, last),
            }
        },
    }
}

fn wrap_function_body_with_true_if(src: &Vec<char>) -> (r: Vec<char>)
    ensures
        r@ == wrapped(src@),
{
    let n: usize = src.len();
    match find_any_lit(src, "{") {
        None => copy_text(src),
        Some(open) => {
            assert(open < n);
            let mut out = text_before(src, open + 1);
            push_lit(&mut out, "\n if ((1)) {");
            push_text(&mut out, &text_after(src, open + 1));
            match rfind_any_lit(&out, "}") {
                None => out,
                Some(last) => {
                    let mut r = text_before(&out, last);
                    push_lit(&mut r, " }\n");
                    push_text(&mut r, &text_after(&out, last));
                    r
                },
            }
        },
    }
}

/// A body with a switch and no `if` gets a guard.
pub open spec fn switch_guarded(src: Seq<char>) -> Seq<char> {
    if has(src, "switch"@) && !has_if(src) {
        wrapped(src)
    } else {
        src
    }
}

pub fn polish_switch_with_guard_if(src: &Vec<char>) -> (r: Vec<char>)
    ensures
        r@ == switch_guarded(src@),
{
    if has_lit(src, "switch") && !holds_if(src) {
        wrap_function_body_with_true_if(src)
    } else {
        copy_text(src)
    }
}

/// A body with a loop and no `if` gets a guard.
pub open spec fn loop_guarded(src: Seq<char>) -> Seq<char> {
    if has_loop(src) && !has_if(src) {
        wrapped(src)
    } else {
        src
    }
}

pub fn polish_loop_with_guard_if(src: &Vec<char>) -> (r: Vec<char>)
    ensures
        r@ == loop_guarded(src@),
{
    if holds_loop(src) && !holds_if(src) {
        wrap_function_body_with_true_if(src)
    } else {
        copy_text(src)
    }
}

} // verus!
