//! Structured emission: walks the regions of a function and writes its text.
//!
//! Every block is written at most once. Inside a loop, edges to its header and exit
//! become `continue` and `break`; a `goto` remains only where nothing else fits.

use vstd::prelude::*;
use std::collections::HashSet;
use crate::maps::lookup;
use crate::normalize::{block_has_cbranch, block_has_return, has_cbranch, has_return};
use crate::numbers::{prefixed_hex, prefixed_hex_text, signed_dec, signed_dec_text};
use crate::ssa::SsaFunction;
use crate::structure::cfg_norm::{resolve, resolve_jump_target};
use crate::structure::predicate::{simplified, simplify_text};
use crate::structure::rd_model::ResidualReason;
use crate::structure::region::{detect_short_circuit, short_circuit, Region, RegionView};
use crate::structure::return_value::{emit_return, return_line};
use crate::structure::statements::{block_cond, block_lines, cond_of_block, cond_or_mark, cond_or_marker, do_while_cond, do_while_text, emit_block_statements, ind, orient, oriented, pad, switch_from, switch_val, while_cond, while_text, EmitCtx, Scene};
use crate::text::{chars_of, push_lit, push_text};

verus! {

broadcast use vstd::std_specs::hash::group_hash_axioms;

// ─── Pages ──────────────────────────────────────────────────────────────────

/// A loop that is being written: where it goes on and where it ends.
#[derive(Clone, Copy, Debug, PartialEq, Eq, Structural)]
pub struct LoopFrame {
    pub header: u32,
    pub exit: u32,
}

/// The text so far, and the blocks that have been written.
#[verifier::ext_equal]
pub ghost struct Page {
    pub out: Seq<char>,
    pub emitted: Set<u32>,
}

/// The page with more text.
pub open spec fn say(p: Page, t: Seq<char>) -> Page {
    Page { out: p.out + t, ..p }
}

/// The page with block `b` written.
pub open spec fn mark(p: Page, b: u32) -> Page {
    Page { emitted: p.emitted.insert(b), ..p }
}

/// How many of the first `n` blocks have not been written.
pub open spec fn unwritten(emitted: Set<u32>, n: int) -> nat
    decreases n,
{
    if n <= 0 {
        0
    } else if emitted.contains((n - 1) as u32) {
        unwritten(emitted, n - 1)
    } else {
        unwritten(emitted, n - 1) + 1
    }
}

/// How many blocks of the function have not been written.
pub open spec fn remaining(sc: Scene, p: Page) -> nat {
    unwritten(p.emitted, sc.ssa.blocks@.len() as int)
}

/// `q`, which follows `p` on the way: what has been written stays written.
pub open spec fn kept(sc: Scene, p: Page, q: Page) -> Page {
    if remaining(sc, q) <= remaining(sc, p) {
        q
    } else {
        p
    }
}

proof fn lemma_unwritten_mono(a: Set<u32>, b: Set<u32>, n: int)
    requires
        a.subset_of(b),
    ensures
        unwritten(b, n) <= unwritten(a, n),
    decreases n,
{
    if n > 0 {
        lemma_unwritten_mono(a, b, n - 1);
    }
}

proof fn lemma_unwritten_mark(a: Set<u32>, b: u32, n: int)
    requires
        b < n <= u32::MAX + 1,
        !a.contains(b),
    ensures
        unwritten(a.insert(b), n) < unwritten(a, n),
    decreases n,
{
    if b == n - 1 {
        lemma_unwritten_mono(a, a.insert(b), n - 1);
    } else {
        lemma_unwritten_mark(a, b, n - 1);
    }
}

pub proof fn lemma_unwritten_bound(a: Set<u32>, n: int)
    requires
        0 <= n,
    ensures
        unwritten(a, n) <= n,
    decreases n,
{
    if n > 0 {
        lemma_unwritten_bound(a, n - 1);
    }
}

/// Writing a new block leaves fewer.
pub proof fn lemma_mark(sc: Scene, p: Page, b: u32)
    requires
        b < sc.ssa.blocks@.len() <= u32::MAX + 1,
        !p.emitted.contains(b),
    ensures
        remaining(sc, mark(p, b)) < remaining(sc, p),
{
    lemma_unwritten_mark(p.emitted, b, sc.ssa.blocks@.len() as int);
}

// ─── Edges ──────────────────────────────────────────────────────────────────

/// The keyword for an edge to block `t`, from the innermost of the first `n` loops out.
pub open spec fn keyword_among(loops: Seq<LoopFrame>, t: u32, n: int) -> Option<Seq<char>>
    decreases n,
{
    if n <= 0 {
        None
    } else if t == loops[n - 1].header {
        Some("continue"@)
    } else if t == loops[n - 1].exit {
        Some("break"@)
    } else {
        keyword_among(loops, t, n - 1)
    }
}

/// The keyword for an edge to `target`, past blocks that only jump.
pub open spec fn edge_keyword(sc: Scene, loops: Seq<LoopFrame>, target: u32) -> Option<Seq<char>> {
    keyword_among(loops, resolve(sc.ssa, target, 16), loops.len() as int)
}

/// The line of a keyword.
pub open spec fn keyword_line(kw: Seq<char>, indent: int) -> Seq<char> {
    pad(indent) + kw + ";\n"@
}

/// The line of a keyword, unless it is the `continue` that ends a body anyway.
pub open spec fn closing_line(kw: Seq<char>, indent: int) -> Seq<char> {
    if kw == "continue"@ {
        Seq::empty()
    } else {
        keyword_line(kw, indent)
    }
}

/// The line of a residual jump, with its reason.
pub open spec fn goto_line(sc: Scene, target: u32, reason: Seq<char>, indent: int) -> Seq<char> {
    if target < sc.ssa.blocks@.len() {
        pad(indent) + "goto L_"@ + prefixed_hex(sc.ssa.blocks@[target as int].entry_va as nat)
            + "; /* "@ + ResidualReason::of_tag(reason).tag() + " */\n"@
    } else {
        Seq::empty()
    }
}

/// The return statement of a block.
pub open spec fn return_of(sc: Scene, b: u32, indent: int) -> Seq<char> {
    return_line(sc.ssa, sc.ssa.blocks@[b as int], sc.inline, sc.sink, sc.names, pad(indent))
}

/// A head such as `if (cond) {`.
pub open spec fn head_line(word: Seq<char>, cond: Seq<char>, indent: int) -> Seq<char> {
    pad(indent) + word + cond + ") {\n"@
}

/// A line of fixed text.
pub open spec fn fixed_line(t: Seq<char>, indent: int) -> Seq<char> {
    pad(indent) + t
}

/// The block that follows a merge.
pub open spec fn next_block(sc: Scene, merge: u32) -> Option<u32> {
    if merge == sc.ve || merge >= sc.ssa.blocks@.len() {
        None
    } else {
        Some(merge)
    }
}

/// The statements of the block stand inside its own loop.
pub open spec fn defers(sc: Scene, b: u32) -> bool {
    match lookup(sc.regions, b) {
        Some(RegionView::DoWhile { body_entry, .. }) => body_entry == b,
        Some(RegionView::While { body_entry, .. }) => body_entry == b,
        _ => false,
    }
}

/// Two conditional branches that stand for one condition: the operator, the second
/// block, the target and both conditions.
pub open spec fn joint_condition(sc: Scene, b: u32) -> Option<(Seq<char>, u32, u32)> {
    match short_circuit(sc.ssa.blocks@[b as int], sc.ssa) {
        Some((op, second, _, truth)) => match block_cond(sc, b) {
            Some(c1) => {
                let c2 = match block_cond(sc, second) {
                    Some(c) => c,
                    None => "/*c2*/"@,
                };
                Some((c1 + " "@ + op + " "@ + c2, second, truth))
            },
            None => None,
        },
        None => None,
    }
}

/// The merge of a two-way region, or else `other`.
pub open spec fn merge_or(sc: Scene, b: u32, other: u32) -> u32 {
    match lookup(sc.regions, b) {
        Some(RegionView::IfElse { merge, .. }) => merge,
        Some(RegionView::If { merge, .. }) => merge,
        Some(RegionView::IfThenFallthrough { merge, .. }) => merge,
        _ => other,
    }
}

/// The label of a block that several edges lead to, outside loops.
pub open spec fn label_line(sc: Scene, b: u32, indent: int, loops: Seq<LoopFrame>) -> Seq<char> {
    let block = sc.ssa.blocks@[b as int];
    if loops.len() == 0 && block.predecessor_ids@.len() > 1 {
        pad(indent) + "L_"@ + prefixed_hex(block.entry_va as nat) + ":\n"@
    } else {
        Seq::empty()
    }
}

/// The successors of a block, past blocks that only jump.
pub open spec fn resolved_succs(sc: Scene, b: u32) -> Seq<u32> {
    let s = sc.ssa.blocks@[b as int].successor_ids@;
    Seq::new(s.len(), |i: int| resolve(sc.ssa, s[i], 16))
}

// ─── The walk ───────────────────────────────────────────────────────────────

/// The page after the blocks from `b` to `stop` have been written.
pub open spec fn region(sc: Scene, p: Page, b: u32, stop: u32, indent: int, loops: Seq<LoopFrame>) -> Page
    decreases
        remaining(sc, p),
        (if p.emitted.contains(b) {
            3int
        } else {
            1int
        }),
        0int,
    via region_ends
{
    if b == stop || b == sc.ve || b >= sc.ssa.blocks@.len() {
        p
    } else if loops.len() > 0 && loops.last().exit == b {
        say(p, fixed_line("break;\n"@, indent))
    } else if p.emitted.contains(b) {
        let t = resolve(sc.ssa, b, 16);
        let kw = match edge_keyword(sc, loops, t) {
            Some(k) => Some(k),
            None => edge_keyword(sc, loops, b),
        };
        match kw {
            Some(k) => say(p, closing_line(k, indent)),
            None => {
                let (q, done) = alternative(sc, p, t, stop, indent, loops);
                if done {
                    q
                } else {
                    say(q, goto_line(sc, t, "join_already_emitted"@, indent))
                }
            },
        }
    } else if sc.ssa.blocks@.len() > u32::MAX {
        p
    } else {
        let p1 = mark(say(p, label_line(sc, b, indent, loops)), b);
        let (q, next) = block_and_on(sc, p1, b, stop, indent, loops);
        match next {
            Some(x) => region(sc, kept(sc, p1, q), x, stop, indent, loops),
            None => q,
        }
    }
}

#[via_fn]
proof fn region_ends(sc: Scene, p: Page, b: u32, stop: u32, indent: int, loops: Seq<LoopFrame>) {
    if b < sc.ssa.blocks@.len() && !p.emitted.contains(b) && sc.ssa.blocks@.len() <= u32::MAX {
        lemma_mark(sc, p, b);
        assert(mark(say(p, label_line(sc, b, indent, loops)), b).emitted == mark(p, b).emitted);
    }
}

/// The page after block `b` and what hangs on it, and the block to go on with.
pub open spec fn block_and_on(sc: Scene, p: Page, b: u32, stop: u32, indent: int, loops: Seq<LoopFrame>) -> (Page, Option<u32>)
    decreases remaining(sc, p), 8int, 0int,
{
    let p2 = if defers(sc, b) {
        p
    } else {
        say(p, block_lines(sc, sc.ssa.blocks@[b as int], indent))
    };
    match joint_condition(sc, b) {
        Some((cond, second, truth)) => {
            let p3 = kept(sc, p, mark(say(p2, head_line("if ("@, cond, indent)), second));
            let merge = merge_or(sc, b, truth);
            let p4 = if !p3.emitted.contains(truth) && truth != merge {
                region(sc, p3, truth, merge, indent + 1, loops)
            } else {
                p3
            };
            (say(p4, fixed_line("}\n"@, indent)), next_block(sc, merge))
        },
        None => match lookup(sc.regions, b) {
            Some(r) => structured(sc, p2, b, r, indent, loops),
            None => unstructured(sc, p2, b, stop, indent, loops),
        },
    }
}

/// The page after the region `r` that block `b` heads, and the block behind it.
pub open spec fn structured(sc: Scene, p: Page, b: u32, r: RegionView, indent: int, loops: Seq<LoopFrame>) -> (Page, Option<u32>)
    decreases remaining(sc, p), 7int, 0int,
{
    match r {
        RegionView::Return => (say(p, return_of(sc, b, indent)), None),
        RegionView::IfElse { then_entry, else_entry, merge, invert } => {
            let p1 = say(p, head_line("if ("@, oriented(cond_or_mark(sc, b), invert), indent));
            let p2 = if then_entry != merge {
                region(sc, p1, then_entry, merge, indent + 1, loops)
            } else {
                p1
            };
            let p3 = say(kept(sc, p, p2), fixed_line("} else {\n"@, indent));
            let p4 = if else_entry != merge {
                region(sc, p3, else_entry, merge, indent + 1, loops)
            } else {
                p3
            };
            (say(p4, fixed_line("}\n"@, indent)), next_block(sc, merge))
        },
        RegionView::IfThenFallthrough { then_entry, cont_entry, merge, invert } => {
            let p1 = say(p, head_line("if ("@, oriented(cond_or_mark(sc, b), invert), indent));
            let p2 = if then_entry != merge {
                region(sc, p1, then_entry, merge, indent + 1, loops)
            } else {
                p1
            };
            let p3 = say(kept(sc, p, p2), fixed_line("}\n"@, indent));
            let p4 = if cont_entry != merge && !p3.emitted.contains(cont_entry) {
                region(sc, p3, cont_entry, merge, indent, loops)
            } else {
                p3
            };
            (p4, next_block(sc, merge))
        },
        RegionView::If { body_entry, merge, invert } => {
            let p1 = say(p, head_line("if ("@, oriented(cond_or_mark(sc, b), invert), indent));
            let p2 = if body_entry != merge {
                region(sc, p1, body_entry, merge, indent + 1, loops)
            } else {
                p1
            };
            (say(p2, fixed_line("}\n"@, indent)), next_block(sc, merge))
        },
        RegionView::While { body_entry, exit } => {
            let p1 = say(p, head_line("while ("@, while_text(sc, b, body_entry), indent));
            let p2 = if body_entry == b {
                say(p1, block_lines(sc, sc.ssa.blocks@[b as int], indent + 1))
            } else {
                region(
                    sc,
                    p1,
                    body_entry,
                    b,
                    indent + 1,
                    loops.push(LoopFrame { header: b, exit }),
                )
            };
            (say(p2, fixed_line("}\n"@, indent)), next_block(sc, exit))
        },
        RegionView::DoWhile { body_entry, cond_block, exit } => {
            let cond = do_while_text(sc, cond_block, body_entry);
            let on_top = body_entry == b || body_entry == cond_block;
            let p1 = say(
                p,
                if on_top {
                    head_line("while ("@, cond, indent)
                } else {
                    fixed_line("do {\n"@, indent)
                },
            );
            let p2 = if on_top {
                mark(
                    mark(
                        if body_entry < sc.ssa.blocks@.len() {
                            say(
                                p1,
                                block_lines(sc, sc.ssa.blocks@[body_entry as int], indent + 1),
                            )
                        } else {
                            p1
                        },
                        body_entry,
                    ),
                    cond_block,
                )
            } else {
                mark(
                    region(
                        sc,
                        p1,
                        body_entry,
                        cond_block,
                        indent + 1,
                        loops.push(LoopFrame { header: body_entry, exit }),
                    ),
                    cond_block,
                )
            };
            (
                say(
                    p2,
                    if on_top {
                        fixed_line("}\n"@, indent)
                    } else {
                        pad(indent) + "} while ("@ + cond + ");\n"@
                    },
                ),
                next_block(sc, exit),
            )
        },
        RegionView::Switch { cases, merge } => {
            let p1 = say(
                p,
                head_line("switch ("@, switch_from(sc, sc.ssa.blocks@[b as int].ops@, 0), indent),
            );
            let p2 = cases_from(sc, p1, cases, 0, merge, indent, loops);
            (say(p2, fixed_line("}\n"@, indent)), next_block(sc, merge))
        },
    }
}

/// The page after the cases from `i` on.
pub open spec fn cases_from(sc: Scene, p: Page, cases: Seq<(i64, u32)>, i: int, merge: u32, indent: int, loops: Seq<LoopFrame>) -> Page
    decreases remaining(sc, p), 4int, cases.len() - i,
{
    if i < 0 || i >= cases.len() {
        p
    } else {
        let p1 = say(p, pad(indent) + "case "@ + signed_dec(cases[i].0 as int) + ":\n"@);
        let t = resolve(sc.ssa, cases[i].1, 16);
        let p2 = if t != merge && !p1.emitted.contains(t) {
            region(sc, p1, t, merge, indent + 1, loops)
        } else if p1.emitted.contains(t) {
            match edge_keyword(sc, loops, t) {
                Some(k) => say(p1, closing_line(k, indent + 1)),
                None => {
                    let (q, done) = alternative(sc, p1, t, merge, indent + 1, loops);
                    if done {
                        q
                    } else {
                        say(q, goto_line(sc, t, "shared_case_body"@, indent + 1))
                    }
                },
            }
        } else {
            p1
        };
        let p3 = say(kept(sc, p, p2), fixed_line("break;\n"@, indent + 1));
        cases_from(sc, p3, cases, i + 1, merge, indent, loops)
    }
}

/// What can stand in place of a jump to `target`: nothing where control gets there
/// anyway, its return, or its region. Tells whether a jump is no longer needed.
pub open spec fn alternative(sc: Scene, p: Page, target: u32, stop: u32, indent: int, loops: Seq<LoopFrame>) -> (Page, bool)
    decreases remaining(sc, p), 2int, 0int,
{
    if target >= sc.ssa.blocks@.len() || target == stop || target == sc.ve {
        (p, true)
    } else if has_return(sc.ssa.blocks@[target as int]) {
        (mark(say(p, return_of(sc, target, indent)), target), true)
    } else if !p.emitted.contains(target) && sc.regions.dom().contains(target) {
        (region(sc, p, target, stop, indent, loops), true)
    } else {
        (p, false)
    }
}

/// The page after the end of a block without region, and the block to go on with.
pub open spec fn unstructured(sc: Scene, p: Page, b: u32, stop: u32, indent: int, loops: Seq<LoopFrame>) -> (Page, Option<u32>)
    decreases remaining(sc, p), 6int, 0int,
{
    let succs = resolved_succs(sc, b);
    if has_return(sc.ssa.blocks@[b as int]) {
        (say(p, return_of(sc, b, indent)), None)
    } else if succs.len() == 0 {
        (p, None)
    } else if succs.len() == 1 {
        let s = succs[0];
        if s == stop || s == sc.ve {
            (p, None)
        } else {
            match edge_keyword(sc, loops, s) {
                Some(k) => (say(p, closing_line(k, indent)), None),
                None => if p.emitted.contains(s) {
                    let (q, done) = alternative(sc, p, s, stop, indent, loops);
                    if done {
                        (q, None)
                    } else {
                        (say(q, goto_line(sc, s, "single_succ_rejoin"@, indent)), None)
                    }
                } else {
                    (p, Some(s))
                },
            }
        }
    } else if succs.len() == 2 {
        let (fall, taken) = (succs[0], succs[1]);
        let p1 = say(p, head_line("if ("@, simplified(cond_or_mark(sc, b)), indent));
        let p2 = edge(sc, p1, taken, stop, indent, loops);
        let p3 = say(kept(sc, p, p2), fixed_line("} else {\n"@, indent));
        let p4 = edge(sc, p3, fall, stop, indent, loops);
        let p5 = say(p4, fixed_line("}\n"@, indent));
        (p5, rejoin(sc, p5, fall, taken, stop, loops))
    } else {
        (ways_from(sc, p, succs, 0, stop, indent, loops), None)
    }
}

/// Where a two-way end without region goes on: where both arms meet, or with the arm
/// that does not leave the loop.
pub open spec fn rejoin(sc: Scene, p: Page, fall: u32, taken: u32, stop: u32, loops: Seq<LoopFrame>) -> Option<u32> {
    let fall_loop = edge_keyword(sc, loops, fall) is Some;
    let taken_loop = edge_keyword(sc, loops, taken) is Some;
    if fall == taken {
        if fall != stop && fall != sc.ve && !p.emitted.contains(fall) {
            Some(fall)
        } else {
            None
        }
    } else if fall_loop && !taken_loop && !p.emitted.contains(taken) {
        Some(taken)
    } else if taken_loop && !fall_loop && !p.emitted.contains(fall) {
        Some(fall)
    } else {
        None
    }
}

/// The page after the edges from `i` on of a block with more than two successors.
pub open spec fn ways_from(sc: Scene, p: Page, succs: Seq<u32>, i: int, stop: u32, indent: int, loops: Seq<LoopFrame>) -> Page
    decreases remaining(sc, p), 4int, succs.len() - i,
{
    if i < 0 || i >= succs.len() {
        p
    } else {
        let s = succs[i];
        let p1 = if s == stop || s >= sc.ssa.blocks@.len() {
            p
        } else {
            match edge_keyword(sc, loops, s) {
                Some(k) => say(p, keyword_line(k, indent)),
                None => {
                    let (q, done) = alternative(sc, p, s, stop, indent, loops);
                    if done {
                        q
                    } else {
                        say(q, goto_line(sc, s, "multiway_residual"@, indent))
                    }
                },
            }
        };
        ways_from(sc, kept(sc, p, p1), succs, i + 1, stop, indent, loops)
    }
}

/// The block is written in its arm: it has at most one successor and no condition.
pub open spec fn linear(sc: Scene, b: u32) -> bool {
    let block = sc.ssa.blocks@[b as int];
    block.successor_ids@.len() <= 1 && !has_cbranch(block)
}

/// The page after one arm of a two-way end without region.
pub open spec fn edge(sc: Scene, p: Page, to: u32, stop: u32, indent: int, loops: Seq<LoopFrame>) -> Page
    decreases remaining(sc, p), 5int, 0int,
{
    let t = resolve(sc.ssa, to, 16);
    if t == stop || t == sc.ve {
        p
    } else {
        match edge_keyword(sc, loops, t) {
            Some(k) => say(p, closing_line(k, indent + 1)),
            None => if p.emitted.contains(t) {
                say(p, goto_line(sc, t, "arm_rejoin"@, indent + 1))
            } else {
                let (q, done) = alternative(sc, p, t, stop, indent + 1, loops);
                if done {
                    q
                } else if linear(sc, t) {
                    let block = sc.ssa.blocks@[t as int];
                    let p1 = mark(say(q, block_lines(sc, block, indent + 1)), t);
                    let kw = if block.successor_ids@.len() > 0 {
                        edge_keyword(sc, loops, resolve(sc.ssa, block.successor_ids@[0], 16))
                    } else {
                        None
                    };
                    match kw {
                        Some(k) => say(p1, closing_line(k, indent + 1)),
                        None => p1,
                    }
                } else {
                    q
                }
            },
        }
    }
}

// ─── Emission ───────────────────────────────────────────────────────────────

/// The page that is being written.
pub struct Sheet {
    pub out: Vec<char>,
    pub emitted: HashSet<u32>,
}

impl Sheet {
    pub open spec fn page(&self) -> Page {
        Page { out: self.out@, emitted: self.emitted@ }
    }

    fn say_line(&mut self, line: &Vec<char>)
        ensures
            final(self).page() == say(old(self).page(), line@),
            final(self).emitted == old(self).emitted,
    {
        push_text(&mut self.out, line);
    }

    fn say_fixed(&mut self, t: &str, indent: usize)
        ensures
            final(self).page() == say(old(self).page(), fixed_line(t@, indent as int)),
            final(self).emitted == old(self).emitted,
    {
        let mut line = ind(indent);
        push_lit(&mut line, t);
        push_text(&mut self.out, &line);
    }

    fn say_head(&mut self, word: &str, cond: &Vec<char>, indent: usize)
        ensures
            final(self).page() == say(old(self).page(), head_line(word@, cond@, indent as int)),
            final(self).emitted == old(self).emitted,
    {
        let mut line = ind(indent);
        push_lit(&mut line, word);
        push_text(&mut line, cond);
        push_lit(&mut line, ") {\n");
        push_text(&mut self.out, &line);
    }

    fn say_keyword(&mut self, kw: &str, indent: usize)
        ensures
            final(self).page() == say(old(self).page(), keyword_line(kw@, indent as int)),
            final(self).emitted == old(self).emitted,
    {
        let mut line = ind(indent);
        push_lit(&mut line, kw);
        push_lit(&mut line, ";\n");
        push_text(&mut self.out, &line);
    }

    fn say_closing(&mut self, kw: &str, indent: usize)
        ensures
            final(self).page() == say(old(self).page(), closing_line(kw@, indent as int)),
            final(self).emitted == old(self).emitted,
    {
        if crate::text::is_lit(&chars_of(kw), "continue") {
            assert(self.out@ =~= self.out@ + Seq::<char>::empty());
            return;
        }
        self.say_keyword(kw, indent);
    }

    fn say_goto(&mut self, ssa: &SsaFunction, target: u32, reason: &str, indent: usize, Ghost(sc): Ghost<Scene>)
        requires
            sc.ssa == *ssa,
        ensures
            final(self).page() == say(
                old(self).page(),
                goto_line(sc, target, reason@, indent as int),
            ),
            final(self).emitted == old(self).emitted,
    {
        if target as usize >= ssa.blocks.len() {
            assert(self.out@ =~= self.out@ + Seq::<char>::empty());
            return;
        }
        let mut line = ind(indent);
        push_lit(&mut line, "goto L_");
        push_text(&mut line, &prefixed_hex_text(ssa.blocks[target as usize].entry_va));
        push_lit(&mut line, "; /* ");
        push_lit(&mut line, ResidualReason::from_emit_tag(reason).as_str());
        push_lit(&mut line, " */\n");
        push_text(&mut self.out, &line);
    }

    pub fn mark_block(&mut self, b: u32)
        ensures
            final(self).page() == mark(old(self).page(), b),
            final(self).out == old(self).out,
    {
        self.emitted.insert(b);
    }
}

/// What holds before every step: the context is sound, and the indentation fits.
pub open spec fn ready(ctx: EmitCtx<'_>, p: Page, indent: int) -> bool {
    &&& ctx.wf()
    &&& 0 <= indent
    &&& indent + remaining(ctx.scene(), p) <= u32::MAX
}

/// What holds after every step: what was written stays written.
pub open spec fn went_on(ctx: EmitCtx<'_>, p: Page, q: Page) -> bool {
    &&& p.emitted.subset_of(q.emitted)
    &&& remaining(ctx.scene(), q) <= remaining(ctx.scene(), p)
}

proof fn lemma_went_on(ctx: EmitCtx<'_>, p: Page, q: Page)
    requires
        p.emitted.subset_of(q.emitted),
    ensures
        went_on(ctx, p, q),
        kept(ctx.scene(), p, q) == q,
{
    lemma_unwritten_mono(p.emitted, q.emitted, ctx.scene().ssa.blocks@.len() as int);
}

fn loop_edge_kw(ctx: &EmitCtx<'_>, loops: &Vec<LoopFrame>, target: u32) -> (r: Option<&'static str>)
    ensures
        match r {
            Some(k) => edge_keyword(ctx.scene(), loops@, target) == Some(k@),
            None => edge_keyword(ctx.scene(), loops@, target) is None,
        },
{
    let t = resolve_jump_target(ctx.ssa, target, 16);
    let mut n: usize = loops.len();
    while n > 0
        invariant
            n <= loops@.len(),
            keyword_among(loops@, t, n as int) == keyword_among(loops@, t, loops@.len() as int),
            t == resolve(ctx.scene().ssa, target, 16),
        decreases n,
    {
        n -= 1;
        if t == loops[n].header {
            return Some("continue");
        }
        if t == loops[n].exit {
            return Some("break");
        }
    }
    None
}

fn find_next(ctx: &EmitCtx<'_>, merge: u32) -> (r: Option<u32>)
    ensures
        r == next_block(ctx.scene(), merge),
{
    if merge == ctx.ve || merge as usize >= ctx.ssa.blocks.len() {
        None
    } else {
        Some(merge)
    }
}

fn push_frame(loops: &Vec<LoopFrame>, frame: LoopFrame) -> (r: Vec<LoopFrame>)
    ensures
        r@ == loops@.push(frame),
{
    let mut r: Vec<LoopFrame> = Vec::new();
    let mut i: usize = 0;
    while i < loops.len()
        invariant
            i <= loops@.len(),
            r@ == loops@.take(i as int),
        decreases loops@.len() - i,
    {
        r.push(loops[i]);
        assert(loops@.take(i + 1) =~= loops@.take(i as int).push(loops@[i as int]));
        i += 1;
    }
    assert(loops@.take(loops@.len() as int) =~= loops@);
    r.push(frame);
    r
}

fn get_region<'b>(ctx: &EmitCtx<'b>, b: u32) -> (r: Option<&'b Region>)
    ensures
        match r {
            Some(x) => lookup(ctx.scene().regions, b) == Some(x@),
            None => lookup(ctx.scene().regions, b) is None,
        },
{
    ctx.regions.get(&b)
}

fn is_deferring(ctx: &EmitCtx<'_>, b: u32) -> (r: bool)
    ensures
        r == defers(ctx.scene(), b),
{
    match get_region(ctx, b) {
        Some(Region::DoWhile { body_entry, .. }) => *body_entry == b,
        Some(Region::While { body_entry, .. }) => *body_entry == b,
        _ => false,
    }
}

fn find_joint(ctx: &EmitCtx<'_>, b: u32) -> (r: Option<(Vec<char>, u32, u32)>)
    requires
        b < ctx.ssa.blocks@.len(),
    ensures
        match r {
            Some((c, second, truth)) => joint_condition(ctx.scene(), b) == Some((c@, second, truth)),
            None => joint_condition(ctx.scene(), b) is None,
        },
{
    match detect_short_circuit(&ctx.ssa.blocks[b as usize], ctx.ssa) {
        Some((op, second, _, truth)) => {
            match cond_of_block(ctx, b) {
                Some(c1) => {
                    let c2 = match cond_of_block(ctx, second) {
                        Some(c) => c,
                        None => chars_of("/*c2*/"),
                    };
                    let mut t = c1;
                    push_lit(&mut t, " ");
                    push_lit(&mut t, op);
                    push_lit(&mut t, " ");
                    push_text(&mut t, &c2);
                    Some((t, second, truth))
                },
                None => None,
            }
        },
        None => None,
    }
}

fn find_merge(ctx: &EmitCtx<'_>, b: u32, other: u32) -> (r: u32)
    ensures
        r == merge_or(ctx.scene(), b, other),
{
    match get_region(ctx, b) {
        Some(Region::IfElse { merge, .. }) => *merge,
        Some(Region::If { merge, .. }) => *merge,
        Some(Region::IfThenFallthrough { merge, .. }) => *merge,
        _ => other,
    }
}

fn say_return(sheet: &mut Sheet, ctx: &EmitCtx<'_>, b: u32, indent: usize)
    requires
        b < ctx.ssa.blocks@.len(),
    ensures
        final(sheet).page() == say(old(sheet).page(), return_of(ctx.scene(), b, indent as int)),
        final(sheet).emitted == old(sheet).emitted,
{
    let p = ind(indent);
    emit_return(
        &mut sheet.out,
        ctx.ssa,
        &ctx.ssa.blocks[b as usize],
        ctx.inline,
        ctx.sink,
        ctx.names,
        &p,
    );
}

fn say_block(sheet: &mut Sheet, ctx: &EmitCtx<'_>, b: u32, indent: usize)
    requires
        ctx.wf(),
        b < ctx.ssa.blocks@.len(),
    ensures
        final(sheet).page() == say(
            old(sheet).page(),
            block_lines(ctx.scene(), ctx.ssa.blocks@[b as int], indent as int),
        ),
        final(sheet).emitted == old(sheet).emitted,
{
    emit_block_statements(&mut sheet.out, ctx, b as usize, indent);
}

#[verifier::rlimit(60)]
pub fn emit_region(sheet: &mut Sheet, ctx: &EmitCtx<'_>, entry: u32, stop: u32, indent: usize, loops: &Vec<LoopFrame>)
    requires
        ready(*ctx, old(sheet).page(), indent as int),
    ensures
        final(sheet).page() == region(
            ctx.scene(),
            old(sheet).page(),
            entry,
            stop,
            indent as int,
            loops@,
        ),
        went_on(*ctx, old(sheet).page(), final(sheet).page()),
    decreases
        remaining(ctx.scene(), old(sheet).page()),
        (if old(sheet).page().emitted.contains(entry) {
            3int
        } else {
            1int
        }),
        0int,
{
    let ghost sc = ctx.scene();
    let ghost start = sheet.page();
    let ghost want = region(sc, start, entry, stop, indent as int, loops@);
    let mut current: Option<u32> = Some(entry);
    while current.is_some()
        invariant
            sc == ctx.scene(),
            start == old(sheet).page(),
            ready(*ctx, start, indent as int),
            went_on(*ctx, start, sheet.page()),
            match current {
                Some(b) => region(sc, sheet.page(), b, stop, indent as int, loops@) == want,
                None => sheet.page() == want,
            },
            // Only the first block can be one that has been written before.
            match current {
                Some(b) => sheet.page() == start && b == entry || remaining(sc, sheet.page())
                    < remaining(sc, start),
                None => true,
            },
        decreases remaining(sc, sheet.page()) + (if current is Some {
                1int
            } else {
                0int
            }),
    {
        let b: u32 = current.unwrap();
        let ghost p = sheet.page();
        if b == stop || b == ctx.ve || b as usize >= ctx.ssa.blocks.len() {
            current = None;
        } else if loops.len() > 0 && loops[loops.len() - 1].exit == b {
            sheet.say_fixed("break;\n", indent);
            current = None;
        } else if sheet.emitted.contains(&b) {
            let t = resolve_jump_target(ctx.ssa, b, 16);
            let first = loop_edge_kw(ctx, loops, t);
            let kw = if first.is_some() {
                first
            } else {
                loop_edge_kw(ctx, loops, b)
            };
            match kw {
                Some(k) => {
                    sheet.say_closing(k, indent);
                },
                None => {
                    if !try_emit_goto_alternative(sheet, ctx, t, stop, indent, loops) {
                        sheet.say_goto(ctx.ssa, t, "join_already_emitted", indent, Ghost(sc));
                    }
                },
            }
            current = None;
        } else {
            let block = &ctx.ssa.blocks[b as usize];
            if loops.len() == 0 && block.predecessor_ids.len() > 1 {
                let mut line = ind(indent);
                push_lit(&mut line, "L_");
                push_text(&mut line, &prefixed_hex_text(block.entry_va));
                push_lit(&mut line, ":\n");
                sheet.say_line(&line);
            } else {
                assert(p.out =~= p.out + Seq::<char>::empty());
            }
            sheet.mark_block(b);
            let ghost p1 = sheet.page();
            proof {
                assert(p1 == mark(say(p, label_line(sc, b, indent as int, loops@)), b));
                lemma_mark(sc, p, b);
                assert(p1.emitted == mark(p, b).emitted);
                lemma_went_on(*ctx, p, p1);
            }
            current = emit_block_and_on(sheet, ctx, b, stop, indent, loops);
            proof {
                lemma_went_on(*ctx, p1, sheet.page());
            }
        }
    }
}

#[verifier::rlimit(60)]
fn emit_block_and_on(sheet: &mut Sheet, ctx: &EmitCtx<'_>, b: u32, stop: u32, indent: usize, loops: &Vec<LoopFrame>) -> (next: Option<u32>)
    requires
        ready(*ctx, old(sheet).page(), indent + 1),
        b < ctx.ssa.blocks@.len(),
    ensures
        (final(sheet).page(), next) == block_and_on(
            ctx.scene(),
            old(sheet).page(),
            b,
            stop,
            indent as int,
            loops@,
        ),
        went_on(*ctx, old(sheet).page(), final(sheet).page()),
    decreases remaining(ctx.scene(), old(sheet).page()), 8int, 0int,
{
    let ghost sc = ctx.scene();
    let ghost p = sheet.page();
    if !is_deferring(ctx, b) {
        say_block(sheet, ctx, b, indent);
    }
    match find_joint(ctx, b) {
        Some((cond, second, truth)) => {
            sheet.say_head("if (", &cond, indent);
            sheet.mark_block(second);
            proof {
                lemma_went_on(*ctx, p, sheet.page());
            }
            let merge = find_merge(ctx, b, truth);
            if !sheet.emitted.contains(&truth) && truth != merge {
                emit_region(sheet, ctx, truth, merge, indent + 1, loops);
            }
            sheet.say_fixed("}\n", indent);
            find_next(ctx, merge)
        },
        None => {
            match get_region(ctx, b) {
                Some(r) => emit_structured(sheet, ctx, b, r, indent, loops),
                None => emit_unstructured_term(sheet, ctx, b, stop, indent, loops),
            }
        },
    }
}

#[verifier::rlimit(60)]
fn emit_structured(sheet: &mut Sheet, ctx: &EmitCtx<'_>, b: u32, r: &Region, indent: usize, loops: &Vec<LoopFrame>) -> (next: Option<u32>)
    requires
        ready(*ctx, old(sheet).page(), indent + 1),
        b < ctx.ssa.blocks@.len(),
    ensures
        (final(sheet).page(), next) == structured(
            ctx.scene(),
            old(sheet).page(),
            b,
            r@,
            indent as int,
            loops@,
        ),
        went_on(*ctx, old(sheet).page(), final(sheet).page()),
    decreases remaining(ctx.scene(), old(sheet).page()), 7int, 0int,
{
    let ghost sc = ctx.scene();
    let ghost p = sheet.page();
    match r {
        Region::Return => {
            say_return(sheet, ctx, b, indent);
            None
        },
        Region::IfElse { then_entry, else_entry, merge, invert } => {
            let cond = orient(cond_or_marker(ctx, b), *invert);
            sheet.say_head("if (", &cond, indent);
            if *then_entry != *merge {
                emit_region(sheet, ctx, *then_entry, *merge, indent + 1, loops);
            }
            proof {
                lemma_went_on(*ctx, p, sheet.page());
            }
            sheet.say_fixed("} else {\n", indent);
            if *else_entry != *merge {
                emit_region(sheet, ctx, *else_entry, *merge, indent + 1, loops);
            }
            sheet.say_fixed("}\n", indent);
            find_next(ctx, *merge)
        },
        Region::IfThenFallthrough { then_entry, cont_entry, merge, invert } => {
            let cond = orient(cond_or_marker(ctx, b), *invert);
            sheet.say_head("if (", &cond, indent);
            if *then_entry != *merge {
                emit_region(sheet, ctx, *then_entry, *merge, indent + 1, loops);
            }
            proof {
                lemma_went_on(*ctx, p, sheet.page());
            }
            sheet.say_fixed("}\n", indent);
            if *cont_entry != *merge && !sheet.emitted.contains(cont_entry) {
                emit_region(sheet, ctx, *cont_entry, *merge, indent, loops);
            }
            find_next(ctx, *merge)
        },
        Region::If { body_entry, merge, invert } => {
            let cond = orient(cond_or_marker(ctx, b), *invert);
            sheet.say_head("if (", &cond, indent);
            if *body_entry != *merge {
                emit_region(sheet, ctx, *body_entry, *merge, indent + 1, loops);
            }
            sheet.say_fixed("}\n", indent);
            find_next(ctx, *merge)
        },
        Region::While { body_entry, exit } => {
            let cond = while_cond(ctx, b, *body_entry);
            sheet.say_head("while (", &cond, indent);
            if *body_entry == b {
                say_block(sheet, ctx, b, indent + 1);
            } else {
                let inner = push_frame(loops, LoopFrame { header: b, exit: *exit });
                emit_region(sheet, ctx, *body_entry, b, indent + 1, &inner);
            }
            sheet.say_fixed("}\n", indent);
            find_next(ctx, *exit)
        },
        Region::DoWhile { body_entry, cond_block, exit } => {
            let cond = do_while_cond(ctx, *cond_block, *body_entry);
            let on_top = *body_entry == b || *body_entry == *cond_block;
            if on_top {
                sheet.say_head("while (", &cond, indent);
                if (*body_entry as usize) < ctx.ssa.blocks.len() {
                    say_block(sheet, ctx, *body_entry, indent + 1);
                }
                sheet.mark_block(*body_entry);
                sheet.mark_block(*cond_block);
                proof {
                    lemma_went_on(*ctx, p, sheet.page());
                }
                sheet.say_fixed("}\n", indent);
            } else {
                sheet.say_fixed("do {\n", indent);
                let inner = push_frame(loops, LoopFrame { header: *body_entry, exit: *exit });
                emit_region(sheet, ctx, *body_entry, *cond_block, indent + 1, &inner);
                sheet.mark_block(*cond_block);
                proof {
                    lemma_went_on(*ctx, p, sheet.page());
                }
                let mut line = ind(indent);
                push_lit(&mut line, "} while (");
                push_text(&mut line, &cond);
                push_lit(&mut line, ");\n");
                sheet.say_line(&line);
            }
            find_next(ctx, *exit)
        },
        Region::Switch { cases, merge } => {
            let val = switch_val(ctx, b as usize);
            sheet.say_head("switch (", &val, indent);
            emit_cases(sheet, ctx, cases, *merge, indent, loops);
            sheet.say_fixed("}\n", indent);
            find_next(ctx, *merge)
        },
    }
}

#[verifier::rlimit(60)]
fn emit_cases(sheet: &mut Sheet, ctx: &EmitCtx<'_>, cases: &Vec<(i64, u32)>, merge: u32, indent: usize, loops: &Vec<LoopFrame>)
    requires
        ready(*ctx, old(sheet).page(), indent + 1),
    ensures
        final(sheet).page() == cases_from(
            ctx.scene(),
            old(sheet).page(),
            cases@,
            0,
            merge,
            indent as int,
            loops@,
        ),
        went_on(*ctx, old(sheet).page(), final(sheet).page()),
    decreases remaining(ctx.scene(), old(sheet).page()), 4int, 0int,
{
    let ghost sc = ctx.scene();
    let ghost start = sheet.page();
    let mut i: usize = 0;
    while i < cases.len()
        invariant
            i <= cases@.len(),
            sc == ctx.scene(),
            start == old(sheet).page(),
            ready(*ctx, start, indent + 1),
            went_on(*ctx, start, sheet.page()),
            cases_from(sc, sheet.page(), cases@, i as int, merge, indent as int, loops@)
                == cases_from(sc, start, cases@, 0, merge, indent as int, loops@),
        decreases cases@.len() - i,
    {
        let ghost p = sheet.page();
        let mut line = ind(indent);
        push_lit(&mut line, "case ");
        push_text(&mut line, &signed_dec_text(cases[i].0));
        push_lit(&mut line, ":\n");
        sheet.say_line(&line);
        let t = resolve_jump_target(ctx.ssa, cases[i].1, 16);
        if t != merge && !sheet.emitted.contains(&t) {
            emit_region(sheet, ctx, t, merge, indent + 1, loops);
        } else if sheet.emitted.contains(&t) {
            match loop_edge_kw(ctx, loops, t) {
                Some(k) => {
                    sheet.say_closing(k, indent + 1);
                },
                None => {
                    if !try_emit_goto_alternative(sheet, ctx, t, merge, indent + 1, loops) {
                        sheet.say_goto(ctx.ssa, t, "shared_case_body", indent + 1, Ghost(sc));
                    }
                },
            }
        }
        proof {
            lemma_went_on(*ctx, p, sheet.page());
        }
        sheet.say_fixed("break;\n", indent + 1);
        i += 1;
    }
}

#[verifier::rlimit(60)]
fn try_emit_goto_alternative(sheet: &mut Sheet, ctx: &EmitCtx<'_>, target: u32, stop: u32, indent: usize, loops: &Vec<LoopFrame>) -> (done: bool)
    requires
        ready(*ctx, old(sheet).page(), indent as int),
    ensures
        (final(sheet).page(), done) == alternative(
            ctx.scene(),
            old(sheet).page(),
            target,
            stop,
            indent as int,
            loops@,
        ),
        went_on(*ctx, old(sheet).page(), final(sheet).page()),
    decreases remaining(ctx.scene(), old(sheet).page()), 2int, 0int,
{
    let ghost p = sheet.page();
    if target as usize >= ctx.ssa.blocks.len() || target == stop || target == ctx.ve {
        return true;
    }
    if block_has_return(&ctx.ssa.blocks[target as usize]) {
        say_return(sheet, ctx, target, indent);
        sheet.mark_block(target);
        proof {
            lemma_went_on(*ctx, p, sheet.page());
        }
        return true;
    }
    if !sheet.emitted.contains(&target) && get_region(ctx, target).is_some() {
        emit_region(sheet, ctx, target, stop, indent, loops);
        return true;
    }
    false
}

fn find_succs(ctx: &EmitCtx<'_>, b: u32) -> (r: Vec<u32>)
    requires
        b < ctx.ssa.blocks@.len(),
    ensures
        r@ == resolved_succs(ctx.scene(), b),
{
    let s = &ctx.ssa.blocks[b as usize].successor_ids;
    let mut r: Vec<u32> = Vec::new();
    let mut i: usize = 0;
    while i < s.len()
        invariant
            i <= s@.len(),
            r@.len() == i,
            forall|k: int| 0 <= k < i ==> r@[k] == resolve(*ctx.ssa, s@[k], 16),
        decreases s@.len() - i,
    {
        r.push(resolve_jump_target(ctx.ssa, s[i], 16));
        i += 1;
    }
    assert(r@ =~= resolved_succs(ctx.scene(), b));
    r
}

#[verifier::rlimit(60)]
fn emit_unstructured_term(sheet: &mut Sheet, ctx: &EmitCtx<'_>, b: u32, stop: u32, indent: usize, loops: &Vec<LoopFrame>) -> (next: Option<u32>)
    requires
        ready(*ctx, old(sheet).page(), indent + 1),
        b < ctx.ssa.blocks@.len(),
    ensures
        (final(sheet).page(), next) == unstructured(
            ctx.scene(),
            old(sheet).page(),
            b,
            stop,
            indent as int,
            loops@,
        ),
        went_on(*ctx, old(sheet).page(), final(sheet).page()),
    decreases remaining(ctx.scene(), old(sheet).page()), 6int, 0int,
{
    let ghost sc = ctx.scene();
    let ghost p = sheet.page();
    let succs = find_succs(ctx, b);
    if block_has_return(&ctx.ssa.blocks[b as usize]) {
        say_return(sheet, ctx, b, indent);
        return None;
    }
    if succs.len() == 0 {
        return None;
    }
    if succs.len() == 1 {
        let s = succs[0];
        if s == stop || s == ctx.ve {
            return None;
        }
        if let Some(k) = loop_edge_kw(ctx, loops, s) {
            sheet.say_closing(k, indent);
            return None;
        }
        if sheet.emitted.contains(&s) {
            if !try_emit_goto_alternative(sheet, ctx, s, stop, indent, loops) {
                sheet.say_goto(ctx.ssa, s, "single_succ_rejoin", indent, Ghost(sc));
            }
            return None;
        }
        return Some(s);
    }
    if succs.len() == 2 {
        let fall = succs[0];
        let taken = succs[1];
        let cond = simplify_text(&cond_or_marker(ctx, b));
        sheet.say_head("if (", &cond, indent);
        ctx_indent_emit_edge(sheet, ctx, taken, stop, indent, loops);
        proof {
            lemma_went_on(*ctx, p, sheet.page());
        }
        sheet.say_fixed("} else {\n", indent);
        ctx_indent_emit_edge(sheet, ctx, fall, stop, indent, loops);
        sheet.say_fixed("}\n", indent);
        if fall == taken {
            return if fall != stop && fall != ctx.ve && !sheet.emitted.contains(&fall) {
                Some(fall)
            } else {
                None
            };
        }
        let fall_loop = loop_edge_kw(ctx, loops, fall).is_some();
        let taken_loop = loop_edge_kw(ctx, loops, taken).is_some();
        if fall_loop && !taken_loop && !sheet.emitted.contains(&taken) {
            return Some(taken);
        }
        if taken_loop && !fall_loop && !sheet.emitted.contains(&fall) {
            return Some(fall);
        }
        return None;
    }
    emit_ways(sheet, ctx, &succs, stop, indent, loops);
    None
}

#[verifier::rlimit(60)]
fn emit_ways(sheet: &mut Sheet, ctx: &EmitCtx<'_>, succs: &Vec<u32>, stop: u32, indent: usize, loops: &Vec<LoopFrame>)
    requires
        ready(*ctx, old(sheet).page(), indent as int),
    ensures
        final(sheet).page() == ways_from(
            ctx.scene(),
            old(sheet).page(),
            succs@,
            0,
            stop,
            indent as int,
            loops@,
        ),
        went_on(*ctx, old(sheet).page(), final(sheet).page()),
    decreases remaining(ctx.scene(), old(sheet).page()), 4int, 0int,
{
    let ghost sc = ctx.scene();
    let ghost start = sheet.page();
    let mut i: usize = 0;
    while i < succs.len()
        invariant
            i <= succs@.len(),
            sc == ctx.scene(),
            start == old(sheet).page(),
            ready(*ctx, start, indent as int),
            went_on(*ctx, start, sheet.page()),
            ways_from(sc, sheet.page(), succs@, i as int, stop, indent as int, loops@) == ways_from(
                sc,
                start,
                succs@,
                0,
                stop,
                indent as int,
                loops@,
            ),
        decreases succs@.len() - i,
    {
        let ghost p = sheet.page();
        let s = succs[i];
        if s != stop && (s as usize) < ctx.ssa.blocks.len() {
            match loop_edge_kw(ctx, loops, s) {
                Some(k) => {
                    sheet.say_keyword(k, indent);
                },
                None => {
                    if !try_emit_goto_alternative(sheet, ctx, s, stop, indent, loops) {
                        sheet.say_goto(ctx.ssa, s, "multiway_residual", indent, Ghost(sc));
                    }
                },
            }
        }
        proof {
            lemma_went_on(*ctx, p, sheet.page());
        }
        i += 1;
    }
}

#[verifier::rlimit(60)]
fn ctx_indent_emit_edge(sheet: &mut Sheet, ctx: &EmitCtx<'_>, to: u32, stop: u32, indent: usize, loops: &Vec<LoopFrame>)
    requires
        ready(*ctx, old(sheet).page(), indent + 1),
    ensures
        final(sheet).page() == edge(
            ctx.scene(),
            old(sheet).page(),
            to,
            stop,
            indent as int,
            loops@,
        ),
        went_on(*ctx, old(sheet).page(), final(sheet).page()),
    decreases remaining(ctx.scene(), old(sheet).page()), 5int, 0int,
{
    let ghost sc = ctx.scene();
    let ghost p = sheet.page();
    let t = resolve_jump_target(ctx.ssa, to, 16);
    if t == stop || t == ctx.ve {
        return;
    }
    if let Some(k) = loop_edge_kw(ctx, loops, t) {
        sheet.say_closing(k, indent + 1);
        return;
    }
    if sheet.emitted.contains(&t) {
        sheet.say_goto(ctx.ssa, t, "arm_rejoin", indent + 1, Ghost(sc));
        return;
    }
    if try_emit_goto_alternative(sheet, ctx, t, stop, indent + 1, loops) {
        return;
    }
    let block = &ctx.ssa.blocks[t as usize];
    if block.successor_ids.len() <= 1 && !block_has_cbranch(block) {
        say_block(sheet, ctx, t, indent + 1);
        sheet.mark_block(t);
        proof {
            lemma_went_on(*ctx, p, sheet.page());
        }
        if block.successor_ids.len() > 0 {
            let ns = resolve_jump_target(ctx.ssa, block.successor_ids[0], 16);
            if let Some(k) = loop_edge_kw(ctx, loops, ns) {
                sheet.say_closing(k, indent + 1);
            }
        }
    }
}

} // verus!
