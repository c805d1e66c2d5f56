//! Removal of flag-helper debris from printed text.

use vstd::prelude::*;
use crate::lines::{compact, compact_text, join, join_items, lines, lines_of, replace, replace_lit};
use crate::structure::predicate::{byte_chars, comment_end, push_bytes};
use crate::text::{after, before, copy_text, deep, ends, ends_lit, find, find_lit, find_text, has, has_lit, has_text, new_items, opt_text, push_item, push_lit, push_text, rfind_any, rfind_any_lit, slice_text, strip_end, strip_end_lit, text_after, text_before};

verus! {

broadcast use crate::text::lemma_deep_push;

/// The comment mentions flag helpers.
pub open spec fn noisy_comment(body: Seq<char>) -> bool {
    has(body, "IntSBorrow"@) || has(body, "IntSLess"@) || has(body, "IntLess"@) || has(body, "FLAG_"@)
        || has(body, "Bool"@) || has(body, "Varnode"@)
}

/// `acc` with the text from `i` on behind it, without noisy comments; outside comments
/// every byte becomes a character.
pub open spec fn quiet_from(t: Seq<char>, i: int, acc: Seq<char>) -> Seq<char>
    decreases t.len() - i,
{
    if i < 0 || i >= t.len() {
        acc
    } else if i + 1 < t.len() && t[i] == '/' && t[i + 1] == '*' {
        let e = comment_end(t, i + 2);
        if i < e <= t.len() {
            let body = t.subrange(i, e);
            quiet_from(
                t,
                e,
                if noisy_comment(body) {
                    acc
                } else {
                    acc + body
                },
            )
        } else {
            acc
        }
    } else {
        quiet_from(t, i + 1, acc + byte_chars(t[i]))
    }
}

fn strip_noisy_comments(t: &Vec<char>) -> (r: Vec<char>)
    ensures
        r@ == quiet_from(t@, 0, Seq::empty()),
{
    let mut out: Vec<char> = Vec::new();
    let mut i: usize = 0;
    assert(out@ =~= Seq::empty());
    while i < t.len()
        invariant
            i <= t@.len(),
            quiet_from(t@, i as int, out@) == quiet_from(t@, 0, Seq::empty()),
        decreases t@.len() - i,
    {
        if i < t.len() - 1 && t[i] == '/' && t[i + 1] == '*' {
            let ghost from = i + 2;
            let mut k: usize = i + 2;
            let mut done = false;
            while !done
                invariant
                    from <= k <= t@.len(),
                    from == i + 2,
                    !done ==> comment_end(t@, k as int) == comment_end(t@, from),
                    done ==> k == comment_end(t@, from),
                decreases t@.len() - k + (if done {
                        0int
                    } else {
                        1int
                    }),
            {
                if k >= t.len() - 1 {
                    k = t.len();
                    done = true;
                } else if t[k] == '*' && t[k + 1] == '/' {
                    k += 2;
                    done = true;
                } else {
                    k += 1;
                }
            }
            let body = slice_text(t, i, k);
            if !(has_lit(&body, "IntSBorrow") || has_lit(&body, "IntSLess") || has_lit(
                &body,
                "IntLess",
            ) || has_lit(&body, "FLAG_") || has_lit(&body, "Bool") || has_lit(&body, "Varnode")) {
                push_text(&mut out, &body);
            }
            i = k;
        } else {
            push_bytes(&mut out, t[i]);
            i += 1;
        }
    }
    out
}

/// The first `n` characters, every run of blanks as one.
pub open spec fn squeezed(t: Seq<char>, n: int) -> Seq<char>
    decreases n,
{
    if n <= 0 {
        Seq::empty()
    } else {
        let done = squeezed(t, n - 1);
        if t[n - 1] == ' ' && done.len() > 0 && done.last() == ' ' {
            done
        } else {
            done.push(t[n - 1])
        }
    }
}

fn squeeze(t: &Vec<char>) -> (r: Vec<char>)
    ensures
        r@ == squeezed(t@, t@.len() as int),
{
    let mut r: Vec<char> = Vec::new();
    let mut i: usize = 0;
    assert(r@ =~= Seq::empty());
    while i < t.len()
        invariant
            i <= t@.len(),
            r@ == squeezed(t@, i as int),
        decreases t@.len() - i,
    {
        if !(t[i] == ' ' && r.len() > 0 && r[r.len() - 1] == ' ') {
            r.push(t[i]);
        }
        i += 1;
    }
    r
}

/// No two blanks stand side by side in a squeezed text.
pub proof fn law_squeezed(t: Seq<char>, n: int)
    requires
        0 <= n <= t.len(),
    ensures
        forall|i: int|
            0 < i < squeezed(t, n).len() ==> !(#[trigger] squeezed(t, n)[i] == ' ' && squeezed(t, n)[i
                - 1] == ' '),
    decreases n,
{
    if n > 0 {
        law_squeezed(t, n - 1);
        let done = squeezed(t, n - 1);
        let now = squeezed(t, n);
        assert forall|i: int| 0 < i < now.len() implies !(#[trigger] now[i] == ' ' && now[i - 1] == ' ') by {
            if i < done.len() {
                assert(now[i] == done[i] && now[i - 1] == done[i - 1]);
            }
        }
    }
}

/// The text without the names of flag helpers.
pub open spec fn without_helpers(t: Seq<char>) -> Seq<char> {
    replace(
        replace(
            replace(
                replace(
                    replace(replace(t, "IntSBorrow"@, ""@), "IntSLess"@, ""@),
                    "IntLess"@,
                    ""@,
                ),
                "IntSLessEqual"@,
                ""@,
            ),
            "IntCarry"@,
            ""@,
        ),
        "IntSCarry"@,
        ""@,
    )
}

fn drop_helpers(t: &Vec<char>) -> (r: Vec<char>)
    ensures
        r@ == without_helpers(t@),
{
    let a = replace_lit(t, "IntSBorrow", "");
    let b = replace_lit(&a, "IntSLess", "");
    let c = replace_lit(&b, "IntLess", "");
    let d = replace_lit(&c, "IntSLessEqual", "");
    let e = replace_lit(&d, "IntCarry", "");
    replace_lit(&e, "IntSCarry", "")
}

/// Position behind the zero that ends a flag comparison.
pub open spec fn zero_end(rest: Seq<char>) -> Option<int> {
    match find(rest, ",0x0"@) {
        Some(i) => Some(i + 4),
        None => match find(rest, ",0"@) {
            Some(i) => Some(i + 2),
            None => None,
        },
    }
}

/// The start of the word before the last comma.
pub open spec fn word_start(region: Seq<char>) -> int {
    match rfind_any(region, "(!=&|"@) {
        Some(i) => i + 1,
        None => 0,
    }
}

/// `a,b == (a - b),0` as `a < b`, without blanks around it.
pub open spec fn signed_relation(line: Seq<char>) -> Option<Seq<char>> {
    let c = compact(line);
    if !(has(line, ","@)) || !(has(line, "=="@)) || !(has(line, "-"@)) {
        None
    } else {
        match find(c, "=="@) {
            None => None,
            Some(eq) => match rfind_any(before(c, eq), ","@) {
                None => None,
                Some(comma) => {
                    let b = strip_end(before(c, eq).subrange(comma + 1, eq), ")!"@);
                    let region = before(c, comma);
                    let a = after(region, word_start(region));
                    let right = after(c, eq + 2);
                    let needle = a + ","@ + b + "=="@;
                    if a.len() == 0 || b.len() == 0 || !(has(right, a + "-"@ + b)) || !(has(right, ",0"@)) {
                        None
                    } else {
                        match find(c, needle) {
                            None => None,
                            Some(pos) => {
                                let from = pos + needle.len();
                                match zero_end(after(c, from)) {
                                    None => None,
                                    Some(z) => Some(
                                        before(c, pos) + a + " < "@ + b + after(c, from + z),
                                    ),
                                }
                            },
                        }
                    }
                },
            },
        }
    }
}

fn try_rewrite_signed_of_eq(line: &Vec<char>) -> (r: Option<Vec<char>>)
    ensures
        opt_text(r) == signed_relation(line@),
{
    if !(has_lit(line, ",") && has_lit(line, "==") && has_lit(line, "-")) {
        return None;
    }
    proof {
        reveal_strlit("==");
        reveal_strlit(",0x0");
        reveal_strlit(",0");
    }
    let c = compact_text(line);
    let n: usize = c.len();
    let eq: usize = match find_lit(&c, "==") {
        Some(eq) => eq,
        None => {
            return None;
        },
    };
    proof {
        crate::text::lemma_find_from(c@, "=="@, 0);
    }
    assert(eq + 2 <= n);
    let left = text_before(&c, eq);
    let comma: usize = match rfind_any_lit(&left, ",") {
        Some(k) => k,
        None => {
            return None;
        },
    };
    let b = strip_end_lit(&slice_text(&left, comma + 1, eq), ")!");
    let region = text_before(&c, comma);
    let rn: usize = region.len();
    let start: usize = match rfind_any_lit(&region, "(!=&|") {
        Some(k) => k + 1,
        None => 0,
    };
    let a = text_after(&region, start);
    let right = text_after(&c, eq + 2);
    let mut sub = copy_text(&a);
    push_lit(&mut sub, "-");
    push_text(&mut sub, &b);
    if a.len() == 0 || b.len() == 0 || !has_text(&right, &sub) || !has_lit(&right, ",0") {
        return None;
    }
    let mut needle = copy_text(&a);
    push_lit(&mut needle, ",");
    push_text(&mut needle, &b);
    push_lit(&mut needle, "==");
    let pos: usize = match find_text(&c, &needle) {
        Some(p) => p,
        None => {
            return None;
        },
    };
    proof {
        crate::text::lemma_find_from(c@, needle@, 0);
    }
    assert(pos + needle@.len() <= n);
    let from: usize = pos + needle.len();
    let rest = text_after(&c, from);
    let m: usize = rest.len();
    let z: usize = match find_lit(&rest, ",0x0") {
        Some(k) => {
            proof {
                crate::text::lemma_find_from(rest@, ",0x0"@, 0);
            }
            assert(k + 4 <= m);
            k + 4
        },
        None => match find_lit(&rest, ",0") {
            Some(k) => {
                proof {
                    crate::text::lemma_find_from(rest@, ",0"@, 0);
                }
                assert(k + 2 <= m);
                k + 2
            },
            None => {
                return None;
            },
        },
    };
    assert(from + z <= n);
    let mut t = text_before(&c, pos);
    push_text(&mut t, &a);
    push_lit(&mut t, " < ");
    push_text(&mut t, &b);
    push_text(&mut t, &text_after(&c, from + z));
    Some(t)
}

/// The first `n` lines, flag comparisons as relations.
pub open spec fn with_relations(v: Seq<Seq<char>>, n: int) -> Seq<Seq<char>>
    decreases n,
{
    if n <= 0 {
        Seq::empty()
    } else {
        with_relations(v, n - 1).push(
            match signed_relation(v[n - 1]) {
                Some(t) => t,
                None => v[n - 1],
            },
        )
    }
}

/// The text with flag comparisons as relations.
pub open spec fn relations_restored(src: Seq<char>) -> Seq<char> {
    let t = join(with_relations(lines(src), lines(src).len() as int), "\n"@);
    if ends(src, "\n"@) {
        t + "\n"@
    } else {
        t
    }
}

fn rewrite_flag_comma_soup(src: &Vec<char>) -> (r: Vec<char>)
    ensures
        r@ == relations_restored(src@),
{
    let v = lines_of(src);
    let mut out = new_items();
    let mut i: usize = 0;
    while i < v.len()
        invariant
            i <= v@.len(),
            deep(out@) == with_relations(deep(v@), i as int),
        decreases v@.len() - i,
    {
        assert(deep(v@)[i as int] == v@[i as int]@);
        let line = match try_rewrite_signed_of_eq(&v[i]) {
            Some(t) => t,
            None => copy_text(&v[i]),
        };
        push_item(&mut out, line);
        i += 1;
    }
    let mut t = join_items(&out, "\n");
    if ends_lit(src, "\n") {
        push_lit(&mut t, "\n");
    }
    t
}

/// The text without flag helpers: their comments and names go, blanks are squeezed,
/// and what is left of a signed comparison becomes one.
pub open spec fn quieted(src: Seq<char>) -> Seq<char> {
    let t = without_helpers(quiet_from(src, 0, Seq::empty()));
    relations_restored(squeezed(t, t.len() as int))
}

pub fn strip_flag_helper_noise(src: &Vec<char>) -> (r: Vec<char>)
    ensures
        r@ == quieted(src@),
{
    let t = drop_helpers(&strip_noisy_comments(src));
    rewrite_flag_comma_soup(&squeeze(&t))
}

} // verus!
