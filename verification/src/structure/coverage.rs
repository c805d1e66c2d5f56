//! The text of a function passes over none of its blocks.

use vstd::prelude::*;
use crate::structure::cfg_norm::{jump_only, resolve};
use crate::structure::emit_core::{body_text, entry_from, only_control, residual_from};
use crate::structure::emit_region::{alternative, block_and_on, cases_from, closing_line, defers, edge, edge_keyword, fixed_line, goto_line, head_line, joint_condition, keyword_line, kept, label_line, lemma_mark, linear, mark, merge_or, region, resolved_succs, return_of, say, structured, unstructured, ways_from, LoopFrame, Page, remaining};
use crate::structure::region::RegionView;
use crate::numbers::signed_dec;
use crate::structure::predicate::simplified;
use crate::structure::statements::{block_lines, cond_or_mark, do_while_text, oriented, pad, switch_from, while_text, Scene};

verus! {

/// What `p` holds stands at the start of `q`, and what is written in `p` is written in
/// `q`.
pub open spec fn grows(p: Page, q: Page) -> bool {
    p.emitted.subset_of(q.emitted) && p.out.is_prefix_of(q.out)
}

broadcast proof fn lemma_say(p: Page, t: Seq<char>)
    ensures
        #[trigger] grows(p, say(p, t)),
{
    assert(p.out =~= (p.out + t).subrange(0, p.out.len() as int));
}

broadcast proof fn lemma_marked(p: Page, b: u32)
    ensures
        #[trigger] grows(p, mark(p, b)),
{
    assert(p.out =~= p.out.subrange(0, p.out.len() as int));
}

proof fn lemma_same(p: Page)
    ensures
        grows(p, p),
{
    assert(p.out =~= p.out.subrange(0, p.out.len() as int));
}

proof fn lemma_chain(p: Page, q: Page, r: Page)
    requires
        grows(p, q),
        grows(q, r),
    ensures
        grows(p, r),
{
    assert(p.out =~= r.out.subrange(0, p.out.len() as int)) by {
        assert forall|i: int| 0 <= i < p.out.len() implies p.out[i] == r.out[i] by {
            assert(p.out[i] == q.out.subrange(0, p.out.len() as int)[i]);
            assert(q.out[i] == r.out.subrange(0, q.out.len() as int)[i]);
        }
    }
}

proof fn lemma_kept(sc: Scene, p: Page, q: Page)
    requires
        grows(p, q),
    ensures
        grows(p, kept(sc, p, q)),
{
    lemma_same(p);
}

proof fn lemma_region(sc: Scene, p: Page, b: u32, stop: u32, indent: int, loops: Seq<LoopFrame>)
    ensures
        grows(p, region(sc, p, b, stop, indent, loops)),
        b != stop && b != sc.ve && b < sc.ssa.blocks@.len() <= u32::MAX && loops.len() == 0 ==> region(
            sc,
            p,
            b,
            stop,
            indent,
            loops,
        ).emitted.contains(b),
    decreases
        remaining(sc, p),
        (if p.emitted.contains(b) {
            3int
        } else {
            1int
        }),
        0int,
{
    broadcast use {lemma_say, lemma_marked};

    lemma_same(p);
    if b == stop || b == sc.ve || b >= sc.ssa.blocks@.len() {
    } else if loops.len() > 0 && loops.last().exit == b {
    } else if p.emitted.contains(b) {
        let t = resolve(sc.ssa, b, 16);
        let kw = match edge_keyword(sc, loops, t) {
            Some(k) => Some(k),
            None => edge_keyword(sc, loops, b),
        };
        if kw is None {
            lemma_alternative(sc, p, t, stop, indent, loops);
            let (q, done) = alternative(sc, p, t, stop, indent, loops);
            let r = say(q, goto_line(sc, t, "join_already_emitted"@, indent));
            lemma_chain(p, q, r);
        }
    } else if sc.ssa.blocks@.len() > u32::MAX {
    } else {
        let p0 = say(p, label_line(sc, b, indent, loops));
        let p1 = mark(p0, b);
        lemma_mark(sc, p, b);
        assert(p1.emitted == mark(p, b).emitted);
        lemma_chain(p, p0, p1);
        lemma_block_and_on(sc, p1, b, stop, indent, loops);
        let (q, next) = block_and_on(sc, p1, b, stop, indent, loops);
        lemma_chain(p, p1, q);
        if let Some(x) = next {
            let q1 = kept(sc, p1, q);
            lemma_kept(sc, p1, q);
            lemma_region(sc, q1, x, stop, indent, loops);
            lemma_chain(p, p1, q1);
            lemma_chain(p, q1, region(sc, q1, x, stop, indent, loops));
        }
    }
}

proof fn lemma_block_and_on(sc: Scene, p: Page, b: u32, stop: u32, indent: int, loops: Seq<LoopFrame>)
    ensures
        grows(p, block_and_on(sc, p, b, stop, indent, loops).0),
    decreases remaining(sc, p), 8int, 0int,
{
    broadcast use {lemma_say, lemma_marked};

    lemma_same(p);
    let p2 = if defers(sc, b) {
        p
    } else {
        say(p, block_lines(sc, sc.ssa.blocks@[b as int], indent))
    };
    match joint_condition(sc, b) {
        Some((cond, second, truth)) => {
            let h = say(p2, head_line("if ("@, cond, indent));
            let m = mark(h, second);
            lemma_chain(p, p2, h);
            lemma_chain(p, h, m);
            let p3 = kept(sc, p, m);
            lemma_kept(sc, p, m);
            let merge = merge_or(sc, b, truth);
            let p4 = if !p3.emitted.contains(truth) && truth != merge {
                region(sc, p3, truth, merge, indent + 1, loops)
            } else {
                p3
            };
            if !p3.emitted.contains(truth) && truth != merge {
                lemma_region(sc, p3, truth, merge, indent + 1, loops);
                lemma_chain(p, p3, p4);
            }
            lemma_chain(p, p4, say(p4, fixed_line("}\n"@, indent)));
        },
        None => {
            match crate::maps::lookup(sc.regions, b) {
                Some(r) => {
                    lemma_structured(sc, p2, b, r, indent, loops);
                    lemma_chain(p, p2, structured(sc, p2, b, r, indent, loops).0);
                },
                None => {
                    lemma_unstructured(sc, p2, b, stop, indent, loops);
                    lemma_chain(p, p2, unstructured(sc, p2, b, stop, indent, loops).0);
                },
            }
        },
    }
}

/// An arm that is written, or left out where it is the merge.
proof fn lemma_arm(sc: Scene, p: Page, entry: u32, merge: u32, indent: int, loops: Seq<LoopFrame>)
    ensures
        grows(
            p,
            if entry != merge {
                region(sc, p, entry, merge, indent, loops)
            } else {
                p
            },
        ),
    decreases remaining(sc, p), 6int, 0int,
{
    lemma_same(p);
    if entry != merge {
        lemma_region(sc, p, entry, merge, indent, loops);
    }
}

proof fn lemma_structured(sc: Scene, p: Page, b: u32, r: RegionView, indent: int, loops: Seq<LoopFrame>)
    ensures
        grows(p, structured(sc, p, b, r, indent, loops).0),
    decreases remaining(sc, p), 7int, 0int,
{
    broadcast use {lemma_say, lemma_marked};

    lemma_same(p);
    let done = structured(sc, p, b, r, indent, loops).0;
    match r {
        RegionView::Return => {},
        RegionView::IfElse { then_entry, else_entry, merge, invert } => {
            let p1 = say(p, head_line("if ("@, oriented(cond_or_mark(sc, b), invert), indent));
            let p2 = if then_entry != merge {
                region(sc, p1, then_entry, merge, indent + 1, loops)
            } else {
                p1
            };
            lemma_arm(sc, p1, then_entry, merge, indent + 1, loops);
            lemma_chain(p, p1, p2);
            let k = kept(sc, p, p2);
            lemma_kept(sc, p, p2);
            let p3 = say(k, fixed_line("} else {\n"@, indent));
            lemma_chain(p, k, p3);
            let p4 = if else_entry != merge {
                region(sc, p3, else_entry, merge, indent + 1, loops)
            } else {
                p3
            };
            lemma_arm(sc, p3, else_entry, merge, indent + 1, loops);
            lemma_chain(p, p3, p4);
            lemma_chain(p, p4, done);
        },
        RegionView::IfThenFallthrough { then_entry, cont_entry, merge, invert } => {
            let p1 = say(p, head_line("if ("@, oriented(cond_or_mark(sc, b), invert), indent));
            let p2 = if then_entry != merge {
                region(sc, p1, then_entry, merge, indent + 1, loops)
            } else {
                p1
            };
            lemma_arm(sc, p1, then_entry, merge, indent + 1, loops);
            lemma_chain(p, p1, p2);
            let k = kept(sc, p, p2);
            lemma_kept(sc, p, p2);
            let p3 = say(k, fixed_line("}\n"@, indent));
            lemma_chain(p, k, p3);
            if cont_entry != merge && !p3.emitted.contains(cont_entry) {
                lemma_region(sc, p3, cont_entry, merge, indent, loops);
                lemma_chain(p, p3, done);
            }
        },
        RegionView::If { body_entry, merge, invert } => {
            let p1 = say(p, head_line("if ("@, oriented(cond_or_mark(sc, b), invert), indent));
            let p2 = if body_entry != merge {
                region(sc, p1, body_entry, merge, indent + 1, loops)
            } else {
                p1
            };
            lemma_arm(sc, p1, body_entry, merge, indent + 1, loops);
            lemma_chain(p, p1, p2);
            lemma_chain(p, p2, done);
        },
        RegionView::While { body_entry, exit } => {
            let p1 = say(p, head_line("while ("@, while_text(sc, b, body_entry), indent));
            let p2 = if body_entry == b {
                say(p1, block_lines(sc, sc.ssa.blocks@[b as int], indent + 1))
            } else {
                region(sc, p1, body_entry, b, indent + 1, loops.push(LoopFrame { header: b, exit }))
            };
            if body_entry != b {
                lemma_region(sc, p1, body_entry, b, indent + 1, loops.push(LoopFrame { header: b, exit }));
            }
            lemma_chain(p, p1, p2);
            lemma_chain(p, p2, done);
        },
        RegionView::DoWhile { body_entry, cond_block, exit } => {
            let cond = do_while_text(sc, cond_block, body_entry);
            let on_top = body_entry == b || body_entry == cond_block;
            let p1 = say(
                p,
                if on_top {
                    head_line("while ("@, cond, indent)
                } else {
                    fixed_line("do {\n"@, indent)
                },
            );
            if on_top {
                let q = if body_entry < sc.ssa.blocks@.len() {
                    say(p1, block_lines(sc, sc.ssa.blocks@[body_entry as int], indent + 1))
                } else {
                    p1
                };
                lemma_same(p1);
                lemma_chain(p, p1, q);
                let m = mark(q, body_entry);
                lemma_chain(p, q, m);
                let n = mark(m, cond_block);
                lemma_chain(p, m, n);
                lemma_chain(p, n, done);
            } else {
                let inner = loops.push(LoopFrame { header: body_entry, exit });
                let q = region(sc, p1, body_entry, cond_block, indent + 1, inner);
                lemma_region(sc, p1, body_entry, cond_block, indent + 1, inner);
                lemma_chain(p, p1, q);
                let m = mark(q, cond_block);
                lemma_chain(p, q, m);
                lemma_chain(p, m, done);
            }
        },
        RegionView::Switch { cases, merge } => {
            let p1 = say(
                p,
                head_line("switch ("@, switch_from(sc, sc.ssa.blocks@[b as int].ops@, 0), indent),
            );
            let p2 = cases_from(sc, p1, cases, 0, merge, indent, loops);
            lemma_cases(sc, p1, cases, 0, merge, indent, loops);
            lemma_chain(p, p1, p2);
            lemma_chain(p, p2, done);
        },
    }
}

proof fn lemma_cases(sc: Scene, p: Page, cases: Seq<(i64, u32)>, i: int, merge: u32, indent: int, loops: Seq<LoopFrame>)
    ensures
        grows(p, cases_from(sc, p, cases, i, merge, indent, loops)),
    decreases remaining(sc, p), 4int, cases.len() - i,
{
    broadcast use {lemma_say, lemma_marked};

    lemma_same(p);
    if 0 <= i < cases.len() {
        let p1 = say(p, pad(indent) + "case "@ + signed_dec(cases[i].0 as int) + ":\n"@);
        let t = resolve(sc.ssa, cases[i].1, 16);
        lemma_same(p1);
        let p2 = if t != merge && !p1.emitted.contains(t) {
            region(sc, p1, t, merge, indent + 1, loops)
        } else if p1.emitted.contains(t) {
            match edge_keyword(sc, loops, t) {
                Some(k) => say(p1, closing_line(k, indent + 1)),
                None => {
                    let (q, done) = alternative(sc, p1, t, merge, indent + 1, loops);
                    if done {
                        q
                    } else {
                        say(q, goto_line(sc, t, "shared_case_body"@, indent + 1))
                    }
                },
            }
        } else {
            p1
        };
        if t != merge && !p1.emitted.contains(t) {
            lemma_region(sc, p1, t, merge, indent + 1, loops);
        } else if p1.emitted.contains(t) && edge_keyword(sc, loops, t) is None {
            lemma_alternative(sc, p1, t, merge, indent + 1, loops);
            let (q, done) = alternative(sc, p1, t, merge, indent + 1, loops);
            lemma_chain(p1, q, say(q, goto_line(sc, t, "shared_case_body"@, indent + 1)));
        }
        lemma_chain(p, p1, p2);
        let k = kept(sc, p, p2);
        lemma_kept(sc, p, p2);
        let p3 = say(k, fixed_line("break;\n"@, indent + 1));
        lemma_chain(p, k, p3);
        lemma_cases(sc, p3, cases, i + 1, merge, indent, loops);
        lemma_chain(p, p3, cases_from(sc, p3, cases, i + 1, merge, indent, loops));
    }
}

proof fn lemma_alternative(sc: Scene, p: Page, target: u32, stop: u32, indent: int, loops: Seq<LoopFrame>)
    ensures
        grows(p, alternative(sc, p, target, stop, indent, loops).0),
    decreases remaining(sc, p), 2int, 0int,
{
    broadcast use {lemma_say, lemma_marked};

    lemma_same(p);
    if target >= sc.ssa.blocks@.len() || target == stop || target == sc.ve {
    } else if crate::normalize::has_return(sc.ssa.blocks@[target as int]) {
        let q = say(p, return_of(sc, target, indent));
        lemma_chain(p, q, mark(q, target));
    } else if !p.emitted.contains(target) && sc.regions.dom().contains(target) {
        lemma_region(sc, p, target, stop, indent, loops);
    }
}

proof fn lemma_unstructured(sc: Scene, p: Page, b: u32, stop: u32, indent: int, loops: Seq<LoopFrame>)
    ensures
        grows(p, unstructured(sc, p, b, stop, indent, loops).0),
    decreases remaining(sc, p), 6int, 0int,
{
    broadcast use {lemma_say, lemma_marked};

    lemma_same(p);
    let succs = resolved_succs(sc, b);
    let all = unstructured(sc, p, b, stop, indent, loops).0;
    if crate::normalize::has_return(sc.ssa.blocks@[b as int]) || succs.len() == 0 {
    } else if succs.len() == 1 {
        let s = succs[0];
        if s != stop && s != sc.ve && edge_keyword(sc, loops, s) is None && p.emitted.contains(s) {
            lemma_alternative(sc, p, s, stop, indent, loops);
            let (q, done) = alternative(sc, p, s, stop, indent, loops);
            lemma_chain(p, q, say(q, goto_line(sc, s, "single_succ_rejoin"@, indent)));
        }
    } else if succs.len() == 2 {
        let (fall, taken) = (succs[0], succs[1]);
        let p1 = say(p, head_line("if ("@, simplified(cond_or_mark(sc, b)), indent));
        let p2 = edge(sc, p1, taken, stop, indent, loops);
        lemma_edge(sc, p1, taken, stop, indent, loops);
        lemma_chain(p, p1, p2);
        let k = kept(sc, p, p2);
        lemma_kept(sc, p, p2);
        let p3 = say(k, fixed_line("} else {\n"@, indent));
        lemma_chain(p, k, p3);
        let p4 = edge(sc, p3, fall, stop, indent, loops);
        lemma_edge(sc, p3, fall, stop, indent, loops);
        lemma_chain(p, p3, p4);
        lemma_chain(p, p4, all);
    } else {
        lemma_ways(sc, p, succs, 0, stop, indent, loops);
    }
}

proof fn lemma_ways(sc: Scene, p: Page, succs: Seq<u32>, i: int, stop: u32, indent: int, loops: Seq<LoopFrame>)
    ensures
        grows(p, ways_from(sc, p, succs, i, stop, indent, loops)),
    decreases remaining(sc, p), 4int, succs.len() - i,
{
    broadcast use {lemma_say, lemma_marked};

    lemma_same(p);
    if 0 <= i < succs.len() {
        let s = succs[i];
        let p1 = if s == stop || s >= sc.ssa.blocks@.len() {
            p
        } else {
            match edge_keyword(sc, loops, s) {
                Some(k) => say(p, keyword_line(k, indent)),
                None => {
                    let (q, done) = alternative(sc, p, s, stop, indent, loops);
                    if done {
                        q
                    } else {
                        say(q, goto_line(sc, s, "multiway_residual"@, indent))
                    }
                },
            }
        };
        if s != stop && s < sc.ssa.blocks@.len() && edge_keyword(sc, loops, s) is None {
            lemma_alternative(sc, p, s, stop, indent, loops);
            let (q, done) = alternative(sc, p, s, stop, indent, loops);
            lemma_chain(p, q, say(q, goto_line(sc, s, "multiway_residual"@, indent)));
        }
        let k = kept(sc, p, p1);
        lemma_kept(sc, p, p1);
        lemma_ways(sc, k, succs, i + 1, stop, indent, loops);
        lemma_chain(p, k, ways_from(sc, k, succs, i + 1, stop, indent, loops));
    }
}

proof fn lemma_edge(sc: Scene, p: Page, to: u32, stop: u32, indent: int, loops: Seq<LoopFrame>)
    ensures
        grows(p, edge(sc, p, to, stop, indent, loops)),
    decreases remaining(sc, p), 5int, 0int,
{
    broadcast use {lemma_say, lemma_marked};

    lemma_same(p);
    let t = resolve(sc.ssa, to, 16);
    if t != stop && t != sc.ve && edge_keyword(sc, loops, t) is None && !p.emitted.contains(t) {
        lemma_alternative(sc, p, t, stop, indent + 1, loops);
        let (q, done) = alternative(sc, p, t, stop, indent + 1, loops);
        if !done && linear(sc, t) {
            let block = sc.ssa.blocks@[t as int];
            let q1 = say(q, block_lines(sc, block, indent + 1));
            let p1 = mark(q1, t);
            lemma_chain(p, q, q1);
            lemma_chain(p, q1, p1);
            let all = edge(sc, p, to, stop, indent, loops);
            if all != p1 {
                lemma_chain(p, p1, all);
            }
        }
    }
}

proof fn lemma_residual(sc: Scene, p: Page, i: int)
    requires
        0 <= i <= sc.ssa.blocks@.len() < u32::MAX,
        sc.ve == sc.ssa.blocks@.len(),
        forall|b: u32| b < i ==> #[trigger] p.emitted.contains(b),
    ensures
        forall|b: u32| b < sc.ssa.blocks@.len() ==> #[trigger] residual_from(sc, p, i).emitted.contains(b),
        grows(p, residual_from(sc, p, i)),
    decreases sc.ssa.blocks@.len() - i,
{
    broadcast use {lemma_say, lemma_marked};

    lemma_same(p);
    if i < sc.ssa.blocks@.len() {
        let b = i as u32;
        let q = if p.emitted.contains(b) {
            p
        } else if jump_only(sc.ssa.blocks@[i]) || only_control(sc.ssa.blocks@[i]) {
            mark(p, b)
        } else {
            region(sc, p, b, sc.ve, 1, Seq::empty())
        };
        lemma_region(sc, p, b, sc.ve, 1, Seq::empty());
        assert(grows(p, q));
        assert forall|x: u32| x < i + 1 implies #[trigger] q.emitted.contains(x) by {
            if x < i {
                assert(p.emitted.contains(x));
            }
        }
        lemma_residual(sc, q, i + 1);
        lemma_chain(p, q, residual_from(sc, q, i + 1));
    }
}

/// The page that the text of a function is read from.
pub open spec fn last_page(sc: Scene, head: Seq<char>) -> Page {
    let p = Page { out: head, emitted: Set::empty() };
    residual_from(
        sc,
        if sc.ssa.blocks@.len() == 0 {
            p
        } else {
            region(sc, p, entry_from(sc.ssa, 0), sc.ve, 1, Seq::empty())
        },
        0,
    )
}

/// Printing passes over no block, and the text starts with the lines it was given.
pub proof fn law_every_block_is_written(sc: Scene, head: Seq<char>)
    requires
        sc.ssa.blocks@.len() < u32::MAX,
        sc.ve == sc.ssa.blocks@.len(),
    ensures
        body_text(sc, head) == last_page(sc, head).out + "}\n"@,
        forall|b: u32| b < sc.ssa.blocks@.len() ==> #[trigger] last_page(sc, head).emitted.contains(b),
        head.is_prefix_of(body_text(sc, head)),
{
    let p = Page { out: head, emitted: Set::empty() };
    let q = if sc.ssa.blocks@.len() == 0 {
        p
    } else {
        region(sc, p, entry_from(sc.ssa, 0), sc.ve, 1, Seq::empty())
    };
    lemma_same(p);
    lemma_region(sc, p, entry_from(sc.ssa, 0), sc.ve, 1, Seq::empty());
    lemma_residual(sc, q, 0);
    lemma_chain(p, q, residual_from(sc, q, 0));
    lemma_say(last_page(sc, head), "}\n"@);
    lemma_chain(p, last_page(sc, head), say(last_page(sc, head), "}\n"@));
}

} // verus!
