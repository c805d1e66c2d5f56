//! Reachability and the classification of blocks into structured regions.

use vstd::prelude::*;
use std::collections::{HashMap, HashSet};
use crate::graph::{closed, converse, is_idom, leads, lemma_dominates_antisymmetric, lemma_dominates_reflexive, lemma_dominates_transitive, lemma_small_set, reach_avoiding, reaches, rows, strictly_dominates};
use crate::normalize::{block_has_branch_ind, block_has_cbranch, block_has_return, has_branch_ind, has_cbranch, has_return};
use crate::sets::{ascending, has_id, insert_ascending};
use crate::ssa::cfg::{build_idom, idom_of, idom_tree, lemma_dominator_reached};
use crate::ssa::{SsaBlock, SsaFunction};
use crate::structure::cfg_norm::{resolve, resolve_jump_target, JUMP_LIMIT};
use crate::structure::pdom::{adj_from_ssa, build_ipdom, ipdom_of};

verus! {

broadcast use vstd::std_specs::hash::group_hash_axioms;

/// Structured region rooted at a control-flow block.
#[derive(Clone, Debug, PartialEq, Eq)]
pub enum Region {
    /// Two-way branch with non-empty arms that meet at `merge`. `invert` means
    /// that the condition is printed negated.
    IfElse { then_entry: u32, else_entry: u32, merge: u32, invert: bool },
    /// One-way branch; `invert` means that the body runs when the condition is false.
    If { body_entry: u32, merge: u32, invert: bool },
    /// Early-return form: the then arm leaves, the other arm follows without `else`.
    IfThenFallthrough { then_entry: u32, cont_entry: u32, merge: u32, invert: bool },
    /// Top-tested loop; the condition lives in the header block.
    While { body_entry: u32, exit: u32 },
    /// Bottom-tested loop; the condition lives in `cond_block`.
    DoWhile { body_entry: u32, cond_block: u32, exit: u32 },
    /// Multi-way branch with its case values.
    Switch { cases: Vec<(i64, u32)>, merge: u32 },
    /// The block ends in a return.
    Return,
}

/// A region as a value.
pub ghost enum RegionView {
    IfElse { then_entry: u32, else_entry: u32, merge: u32, invert: bool },
    If { body_entry: u32, merge: u32, invert: bool },
    IfThenFallthrough { then_entry: u32, cont_entry: u32, merge: u32, invert: bool },
    While { body_entry: u32, exit: u32 },
    DoWhile { body_entry: u32, cond_block: u32, exit: u32 },
    Switch { cases: Seq<(i64, u32)>, merge: u32 },
    Return,
}

impl View for Region {
    type V = RegionView;

    open spec fn view(&self) -> RegionView {
        match *self {
            Region::IfElse { then_entry, else_entry, merge, invert } => RegionView::IfElse {
                then_entry,
                else_entry,
                merge,
                invert,
            },
            Region::If { body_entry, merge, invert } => RegionView::If { body_entry, merge, invert },
            Region::IfThenFallthrough { then_entry, cont_entry, merge, invert } => {
                RegionView::IfThenFallthrough { then_entry, cont_entry, merge, invert }
            },
            Region::While { body_entry, exit } => RegionView::While { body_entry, exit },
            Region::DoWhile { body_entry, cond_block, exit } => RegionView::DoWhile {
                body_entry,
                cond_block,
                exit,
            },
            Region::Switch { cases, merge } => RegionView::Switch { cases: cases@, merge },
            Region::Return => RegionView::Return,
        }
    }
}

impl Region {
    /// The same region, as a new value.
    pub fn copied(&self) -> (r: Region)
        ensures
            r@ == self@,
    {
        match self {
            Region::IfElse { then_entry, else_entry, merge, invert } => Region::IfElse {
                then_entry: *then_entry,
                else_entry: *else_entry,
                merge: *merge,
                invert: *invert,
            },
            Region::If { body_entry, merge, invert } => Region::If {
                body_entry: *body_entry,
                merge: *merge,
                invert: *invert,
            },
            Region::IfThenFallthrough { then_entry, cont_entry, merge, invert } => {
                Region::IfThenFallthrough {
                    then_entry: *then_entry,
                    cont_entry: *cont_entry,
                    merge: *merge,
                    invert: *invert,
                }
            },
            Region::While { body_entry, exit } => Region::While {
                body_entry: *body_entry,
                exit: *exit,
            },
            Region::DoWhile { body_entry, cond_block, exit } => Region::DoWhile {
                body_entry: *body_entry,
                cond_block: *cond_block,
                exit: *exit,
            },
            Region::Switch { cases, merge } => Region::Switch {
                cases: copy_cases(cases),
                merge: *merge,
            },
            Region::Return => Region::Return,
        }
    }
}

fn copy_cases(v: &Vec<(i64, u32)>) -> (r: Vec<(i64, u32)>)
    ensures
        r@ == v@,
{
    let mut r: Vec<(i64, u32)> = Vec::new();
    let mut i: usize = 0;
    while i < v.len()
        invariant
            i <= v@.len(),
            r@ == v@.take(i as int),
        decreases v@.len() - i,
    {
        r.push((v[i].0, v[i].1));
        assert(v@.take(i + 1) =~= v@.take(i as int).push(v@[i as int]));
        i += 1;
    }
    assert(v@.take(v@.len() as int) =~= v@);
    r
}

/// Resolved jump table of one indirect branch.
#[derive(Clone, Debug)]
pub struct SwitchInfo {
    /// Entry address of the block that ends in the indirect branch.
    pub branch_va: u64,
    /// Case value and target block, in table order.
    pub cases: Vec<(i64, u32)>,
}

impl Default for SwitchInfo {
    fn default() -> (r: SwitchInfo)
        ensures
            r.branch_va == 0,
            r.cases@.len() == 0,
    {
        SwitchInfo { branch_va: 0, cases: Vec::new() }
    }
}

// ─── Reachability and dominance ─────────────────────────────────────────────

/// Blocks reachable from `start` without entering `stop` (stop itself excluded).
pub fn reach(start: u32, stop: u32, succ: &[Vec<u32>]) -> (seen: HashSet<u32>)
    requires
        succ@.len() <= u32::MAX,
    ensures
        forall|b: u32|
            #[trigger] seen@.contains(b) <==> start < succ@.len() && b < succ@.len() && reaches(
                rows(succ@),
                start,
                b,
                Some(stop),
            ),
{
    let mut seen: HashSet<u32> = HashSet::new();
    if start as usize >= succ.len() {
        return seen;
    }
    let marks = reach_avoiding(succ, start, Some(stop));
    let mut i: usize = 0;
    while i < marks.len()
        invariant
            i <= marks@.len(),
            marks@.len() == succ@.len(),
            succ@.len() <= u32::MAX,
            forall|b: u32|
                b < succ@.len() ==> (#[trigger] marks@[b as int] <==> reaches(
                    rows(succ@),
                    start,
                    b,
                    Some(stop),
                )),
            forall|b: u32| #[trigger] seen@.contains(b) <==> b < i && marks@[b as int],
        decreases marks@.len() - i,
    {
        if marks[i] {
            seen.insert(i as u32);
        }
        i += 1;
    }
    seen
}

/// The walk up from `cur` meets `a` within `fuel` steps and before a root.
pub open spec fn meets(a: u32, cur: u32, idom: Seq<Option<u32>>, fuel: nat) -> bool
    decreases fuel,
{
    if fuel == 0 || cur >= idom.len() {
        false
    } else {
        match idom[cur as int] {
            Some(p) => p != cur && (p == a || meets(a, p, idom, (fuel - 1) as nat)),
            None => false,
        }
    }
}

/// `a` is `b` or one of its ancestors in the tree.
pub open spec fn tree_dominates(a: u32, b: u32, idom: Seq<Option<u32>>) -> bool {
    a == b || meets(a, b, idom, idom.len() + 1)
}

/// Whether `a` dominates `b` in the dominator tree `idom`.
pub fn dominates(a: u32, b: u32, idom: &[Option<u32>]) -> (r: bool)
    ensures
        r == tree_dominates(a, b, idom@),
{
    if a == b {
        return true;
    }
    let mut cur: u32 = b;
    let mut i: usize = 0;
    while i <= idom.len()
        invariant
            i <= idom@.len() + 1,
            meets(a, cur, idom@, (idom@.len() + 1 - i) as nat) == meets(
                a,
                b,
                idom@,
                idom@.len() + 1,
            ),
            a != b,
        decreases idom@.len() + 1 - i,
    {
        if cur as usize >= idom.len() {
            return false;
        }
        match idom[cur as usize] {
            Some(p) => {
                if p == cur {
                    return false;
                }
                if p == a {
                    return true;
                }
                cur = p;
            },
            None => {
                return false;
            },
        }
        if i == idom.len() {
            assert(!meets(a, cur, idom@, 0));
            return false;
        }
        i += 1;
    }
    false
}

/// A node that the walk up from `cur` meets dominates `cur`.
proof fn lemma_met_dominates(succ: Seq<Seq<u32>>, entry: u32, idom: Seq<Option<u32>>, a: u32, cur: u32, fuel: nat)
    requires
        idom_tree(succ, entry, idom),
        succ.len() <= u32::MAX,
        meets(a, cur, idom, fuel),
    ensures
        crate::graph::dominates(succ, entry, a, cur),
    decreases fuel,
{
    let p = idom[cur as int]->0;
    assert(cur < succ.len());
    assert(is_idom(succ, entry, p, cur));
    assert(strictly_dominates(succ, entry, p, cur));
    if p != a {
        lemma_met_dominates(succ, entry, idom, a, p, (fuel - 1) as nat);
        lemma_dominates_transitive(succ, entry, a, p, cur);
    }
}

/// The walk up from a reachable node meets each of its other dominators; `seen` holds
/// the nodes that it has left behind.
proof fn lemma_dominator_met(succ: Seq<Seq<u32>>, entry: u32, idom: Seq<Option<u32>>, a: u32, cur: u32, seen: Set<u32>, fuel: nat)
    requires
        idom_tree(succ, entry, idom),
        succ.len() <= u32::MAX,
        a < succ.len(),
        cur < succ.len(),
        a != cur,
        crate::graph::dominates(succ, entry, a, cur),
        reaches(succ, entry, cur, None),
        forall|s: u32|
            #[trigger] seen.contains(s) ==> s < succ.len() && s != cur && crate::graph::dominates(
                succ,
                entry,
                cur,
                s,
            ),
        fuel >= succ.len() - seen.len() + 1,
    ensures
        meets(a, cur, idom, fuel),
    decreases fuel,
{
    lemma_small_set(seen, succ.len() as int);
    if cur == entry {
        assert(leads(succ, seq![entry], entry, entry, Some(a)));
    } else {
        let p = idom[cur as int]->0;
        assert(idom[cur as int] is Some);
        assert(is_idom(succ, entry, p, cur));
        assert(strictly_dominates(succ, entry, p, cur));
        if p != a {
            assert(strictly_dominates(succ, entry, a, cur));
            assert(crate::graph::dominates(succ, entry, a, p));
            lemma_dominator_reached(succ, entry, p, cur);
            let left = seen.insert(cur);
            assert forall|s: u32| #[trigger] left.contains(s) implies s < succ.len() && s != p
                && crate::graph::dominates(succ, entry, p, s) by {
                if s != cur {
                    assert(seen.contains(s));
                    lemma_dominates_transitive(succ, entry, p, cur, s);
                    if s == p {
                        lemma_dominates_antisymmetric(succ, entry, p, cur);
                    }
                }
            }
            lemma_dominator_met(succ, entry, idom, a, p, left, (fuel - 1) as nat);
        }
    }
}

/// On the dominator tree of a graph, the walk decides dominance between nodes: a node
/// dominates a reachable one exactly if every path from the entry goes through it.
pub proof fn law_tree_dominance(succ: Seq<Seq<u32>>, entry: u32, idom: Seq<Option<u32>>, a: u32, b: u32)
    requires
        idom_tree(succ, entry, idom),
        succ.len() <= u32::MAX,
        a < succ.len(),
        b < succ.len(),
        reaches(succ, entry, b, None),
    ensures
        tree_dominates(a, b, idom) <==> crate::graph::dominates(succ, entry, a, b),
{
    if a == b {
        lemma_dominates_reflexive(succ, entry, b);
    } else {
        if tree_dominates(a, b, idom) {
            lemma_met_dominates(succ, entry, idom, a, b, idom.len() + 1);
        }
        if crate::graph::dominates(succ, entry, a, b) {
            lemma_dominator_met(succ, entry, idom, a, b, Set::empty(), idom.len() + 1);
        }
    }
}

/// The edge `from → to` is a back edge when `to` dominates `from`.
pub fn is_back_edge(from: u32, to: u32, idom: &[Option<u32>]) -> (r: bool)
    ensures
        r == tree_dominates(to, from, idom@),
{
    dominates(to, from, idom)
}

// ─── Branch arms ────────────────────────────────────────────────────────────

/// Where a conditional branch goes: first when the condition is false, then when
/// it is true.
pub open spec fn arms(block: SsaBlock) -> Option<(u32, u32)> {
    let s = block.successor_ids@;
    if !has_cbranch(block) || s.len() == 0 {
        None
    } else if s.len() == 1 {
        Some((s[0], s[0]))
    } else {
        Some((s[0], s[1]))
    }
}

/// Successor convention of a conditional branch: fallthrough first, then taken.
/// A single recorded successor stands for both.
pub fn cbranch_fall_taken(block: &SsaBlock) -> (r: Option<(u32, u32)>)
    ensures
        r == arms(*block),
{
    if !block_has_cbranch(block) {
        return None;
    }
    let s = &block.successor_ids;
    if s.len() >= 2 {
        Some((s[0], s[1]))
    } else if s.len() == 1 {
        Some((s[0], s[0]))
    } else {
        None
    }
}

/// The arms of block `b`, looked through jump-only blocks if `collapse` is set.
pub open spec fn arms_of(ssa: SsaFunction, b: int, collapse: bool) -> Option<(u32, u32)> {
    match arms(ssa.blocks@[b]) {
        Some((f, t)) => if collapse {
            Some((resolve(ssa, f, JUMP_LIMIT as nat), resolve(ssa, t, JUMP_LIMIT as nat)))
        } else {
            Some((f, t))
        },
        None => None,
    }
}

fn block_arms(ssa: &SsaFunction, b: usize, collapse: bool) -> (r: Option<(u32, u32)>)
    requires
        b < ssa.blocks@.len(),
    ensures
        r == arms_of(*ssa, b as int, collapse),
{
    match cbranch_fall_taken(&ssa.blocks[b]) {
        Some((f, t)) => if collapse {
            Some((resolve_jump_target(ssa, f, JUMP_LIMIT), resolve_jump_target(ssa, t, JUMP_LIMIT)))
        } else {
            Some((f, t))
        },
        None => None,
    }
}

// ─── Classification ─────────────────────────────────────────────────────────

/// The graph that regions are selected on, with its dominator trees.
pub ghost struct Flow {
    pub succ: Seq<Seq<u32>>,
    pub idom: Seq<Option<u32>>,
    pub ipdom: Seq<Option<u32>>,
}

/// The flow graph with the given edge lists.
pub open spec fn flow_of(succ: Seq<Seq<u32>>, pred: Seq<Seq<u32>>) -> Flow {
    Flow { succ, idom: idom_of(succ, 0), ipdom: ipdom_of(succ, pred) }
}

/// The immediate post-dominator of `b`, or the virtual exit.
pub open spec fn merge_of(f: Flow, b: int) -> u32 {
    match f.ipdom[b] {
        Some(m) => m,
        None => f.succ.len() as u32,
    }
}

/// The last table given for the branch at `va` among the first `n`.
pub open spec fn table_for(switches: Seq<SwitchInfo>, va: u64, n: int) -> Option<Seq<(i64, u32)>>
    decreases n,
{
    if n <= 0 {
        None
    } else if switches[n - 1].branch_va == va {
        Some(switches[n - 1].cases@)
    } else {
        table_for(switches, va, n - 1)
    }
}

/// The cases of the indirect branch in `block`: its table, or its successors
/// numbered in order.
pub open spec fn cases_of(switches: Seq<SwitchInfo>, block: SsaBlock) -> Seq<(i64, u32)> {
    match table_for(switches, block.entry_va, switches.len() as int) {
        Some(cases) => cases,
        None => Seq::new(
            block.successor_ids@.len(),
            |k: int| (k as i64, block.successor_ids@[k]),
        ),
    }
}

/// What a block without loop or two-way structure is: a switch or a return.
pub open spec fn plain_region(switches: Seq<SwitchInfo>, f: Flow, block: SsaBlock, b: int) -> Option<RegionView> {
    if has_branch_ind(block) && block.successor_ids@.len() >= 2 {
        Some(RegionView::Switch { cases: cases_of(switches, block), merge: merge_of(f, b) })
    } else if has_return(block) {
        Some(RegionView::Return)
    } else {
        None
    }
}

/// `b` closes a loop at `h`: it has an edge to `h`, and `h` dominates it.
pub open spec fn latches(f: Flow, b: int, h: u32) -> bool {
    f.succ[b].contains(h) && tree_dominates(h, b as u32, f.idom)
}

/// `h` heads a loop.
pub open spec fn heads_loop(f: Flow, h: u32) -> bool {
    exists|b: int| 0 <= b < f.succ.len() && #[trigger] latches(f, b, h)
}

/// The exit of the bottom-tested loop at `h` whose condition is in latch `b`.
pub open spec fn latch_exit(ssa: SsaFunction, f: Flow, h: u32, b: int, collapse: bool) -> Option<u32> {
    if b as u32 == h || !latches(f, b, h) {
        None
    } else {
        match arms_of(ssa, b, collapse) {
            Some((fall, taken)) => if fall == h {
                Some(taken)
            } else if taken == h {
                Some(fall)
            } else {
                None
            },
            None => None,
        }
    }
}

/// The bottom-tested loop at `h` with the first fitting latch from `b` on.
pub open spec fn bottom_tested(ssa: SsaFunction, f: Flow, h: u32, b: int, collapse: bool) -> Option<RegionView>
    decreases f.succ.len() - b,
{
    if b < 0 || b >= f.succ.len() {
        None
    } else {
        match latch_exit(ssa, f, h, b, collapse) {
            Some(exit) => Some(
                RegionView::DoWhile { body_entry: h, cond_block: b as u32, exit },
            ),
            None => bottom_tested(ssa, f, h, b + 1, collapse),
        }
    }
}

/// The loop headed by `h`: a self-loop, a top-tested loop, or a bottom-tested one.
pub open spec fn loop_region(ssa: SsaFunction, f: Flow, h: u32, collapse: bool) -> Option<RegionView> {
    match arms_of(ssa, h as int, collapse) {
        Some((fall, taken)) => {
            let fall_in = tree_dominates(h, fall, f.idom);
            let taken_in = tree_dominates(h, taken, f.idom);
            if fall == h {
                Some(RegionView::DoWhile { body_entry: h, cond_block: h, exit: taken })
            } else if taken == h {
                Some(RegionView::DoWhile { body_entry: h, cond_block: h, exit: fall })
            } else if taken_in && !fall_in {
                Some(RegionView::While { body_entry: taken, exit: fall })
            } else if fall_in && !taken_in {
                Some(RegionView::While { body_entry: fall, exit: taken })
            } else {
                bottom_tested(ssa, f, h, 0, collapse)
            }
        },
        None => bottom_tested(ssa, f, h, 0, collapse),
    }
}

/// An arm with entry `a` has a body before the merge `m`.
pub open spec fn has_body(f: Flow, a: u32, m: u32) -> bool {
    a != m && a < f.succ.len()
}

/// The two-way region at `b`, if one of its arms has a body.
pub open spec fn if_region(ssa: SsaFunction, f: Flow, b: int, collapse: bool) -> Option<RegionView> {
    let m = merge_of(f, b);
    match arms_of(ssa, b, collapse) {
        Some((fall, taken)) => if has_body(f, taken, m) && has_body(f, fall, m) {
            Some(
                RegionView::IfElse { then_entry: taken, else_entry: fall, merge: m, invert: false },
            )
        } else if has_body(f, taken, m) {
            Some(RegionView::If { body_entry: taken, merge: m, invert: false })
        } else if has_body(f, fall, m) {
            Some(RegionView::If { body_entry: fall, merge: m, invert: true })
        } else {
            None
        },
        None => None,
    }
}

/// The region rooted at block `b`: a loop where `b` heads one, else a switch or
/// a return, else a two-way branch.
pub open spec fn region_at(ssa: SsaFunction, switches: Seq<SwitchInfo>, f: Flow, b: int, collapse: bool) -> Option<RegionView> {
    let plain = plain_region(switches, f, ssa.blocks@[b], b);
    if heads_loop(f, b as u32) && loop_region(ssa, f, b as u32, collapse) is Some {
        loop_region(ssa, f, b as u32, collapse)
    } else if plain is Some {
        plain
    } else {
        if_region(ssa, f, b, collapse)
    }
}

/// `regions` holds exactly the regions of the function.
pub open spec fn classified(ssa: SsaFunction, switches: Seq<SwitchInfo>, f: Flow, collapse: bool, regions: Map<u32, Region>) -> bool {
    forall|b: u32|
        #![trigger regions.dom().contains(b)]
        if b < ssa.blocks@.len() {
            match region_at(ssa, switches, f, b as int, collapse) {
                Some(r) => regions.dom().contains(b) && regions[b]@ == r,
                None => !regions.dom().contains(b),
            }
        } else {
            !regions.dom().contains(b)
        }
}

fn switch_cases(switches: &[SwitchInfo], block: &SsaBlock) -> (r: Vec<(i64, u32)>)
    requires
        block.successor_ids@.len() <= i64::MAX,
    ensures
        r@ == cases_of(switches@, *block),
{
    let mut n: usize = switches.len();
    while n > 0
        invariant
            n <= switches@.len(),
            table_for(switches@, block.entry_va, n as int) == table_for(
                switches@,
                block.entry_va,
                switches@.len() as int,
            ),
        decreases n,
    {
        if switches[n - 1].branch_va == block.entry_va {
            return copy_cases(&switches[n - 1].cases);
        }
        n -= 1;
    }
    let mut r: Vec<(i64, u32)> = Vec::new();
    let mut k: usize = 0;
    while k < block.successor_ids.len()
        invariant
            k <= block.successor_ids@.len(),
            block.successor_ids@.len() <= i64::MAX,
            r@.len() == k,
            forall|j: int| 0 <= j < k ==> r@[j] == (j as i64, block.successor_ids@[j]),
        decreases block.successor_ids@.len() - k,
    {
        r.push((k as i64, block.successor_ids[k]));
        k += 1;
    }
    assert(r@ =~= cases_of(switches@, *block));
    r
}

/// The region rooted at one block.
fn region_for(ssa: &SsaFunction, switches: &[SwitchInfo], succ: &[Vec<u32>], idom: &Vec<Option<u32>>, ipdom: &Vec<Option<u32>>, b: usize, collapse: bool, Ghost(f): Ghost<Flow>) -> (r: Option<Region>)
    requires
        b < ssa.blocks@.len(),
        succ@.len() == ssa.blocks@.len(),
        ipdom@.len() == ssa.blocks@.len() + 1,
        ssa.blocks@.len() < u32::MAX,
        ssa.blocks@[b as int].successor_ids@.len() <= i64::MAX,
        f.succ == rows(succ@),
        f.idom == idom@,
        f.ipdom == ipdom@,
    ensures
        match r {
            Some(x) => region_at(*ssa, switches@, f, b as int, collapse) == Some(x@),
            None => region_at(*ssa, switches@, f, b as int, collapse) is None,
        },
{
    let n: usize = succ.len();
    let h: u32 = b as u32;
    // Loops win over every other shape.
    let mut head = false;
    let mut k: usize = 0;
    while k < n
        invariant
            k <= n,
            n == succ@.len(),
            n < u32::MAX,
            h < n,
            f.succ == rows(succ@),
            f.idom == idom@,
            head == (exists|j: int| 0 <= j < k && #[trigger] latches(f, j, h)),
        decreases n - k,
    {
        let l = has_id(&succ[k], h) && is_back_edge(k as u32, h, idom);
        assert(l == latches(f, k as int, h));
        if l {
            head = true;
        }
        k += 1;
    }
    if head {
        let two = block_arms(ssa, b, collapse);
        if let Some((fall, taken)) = two {
            if fall == h {
                return Some(Region::DoWhile { body_entry: h, cond_block: h, exit: taken });
            }
            if taken == h {
                return Some(Region::DoWhile { body_entry: h, cond_block: h, exit: fall });
            }
            let fall_in = dominates(h, fall, idom);
            let taken_in = dominates(h, taken, idom);
            if taken_in && !fall_in {
                return Some(Region::While { body_entry: taken, exit: fall });
            }
            if fall_in && !taken_in {
                return Some(Region::While { body_entry: fall, exit: taken });
            }
        }
        let mut l: usize = 0;
        while l < n
            invariant
                l <= n,
                n == succ@.len(),
                n == ssa.blocks@.len(),
                n < u32::MAX,
                h < n,
                h == b,
                f.succ == rows(succ@),
                f.idom == idom@,
                bottom_tested(*ssa, f, h, l as int, collapse) == bottom_tested(
                    *ssa,
                    f,
                    h,
                    0,
                    collapse,
                ),
                bottom_tested(*ssa, f, h, 0, collapse) is Some ==> region_at(
                    *ssa,
                    switches@,
                    f,
                    h as int,
                    collapse,
                ) == bottom_tested(*ssa, f, h, 0, collapse),
            decreases n - l,
        {
            assert(rows(succ@)[l as int] == succ@[l as int]@);
            if l as u32 != h && has_id(&succ[l], h) && is_back_edge(l as u32, h, idom) {
                if let Some((fall, taken)) = block_arms(ssa, l, collapse) {
                    if fall == h {
                        return Some(
                            Region::DoWhile { body_entry: h, cond_block: l as u32, exit: taken },
                        );
                    }
                    if taken == h {
                        return Some(
                            Region::DoWhile { body_entry: h, cond_block: l as u32, exit: fall },
                        );
                    }
                }
            }
            l += 1;
        }
        assert(loop_region(*ssa, f, h, collapse) is None);
    }
    let block = &ssa.blocks[b];
    let merge: u32 = match ipdom[b] {
        Some(m) => m,
        None => n as u32,
    };
    if block_has_branch_ind(block) && block.successor_ids.len() >= 2 {
        return Some(Region::Switch { cases: switch_cases(switches, block), merge });
    }
    if block_has_return(block) {
        return Some(Region::Return);
    }
    if let Some((fall, taken)) = block_arms(ssa, b, collapse) {
        let then_body = taken != merge && (taken as usize) < n;
        let else_body = fall != merge && (fall as usize) < n;
        if then_body && else_body {
            return Some(
                Region::IfElse { then_entry: taken, else_entry: fall, merge, invert: false },
            );
        }
        if then_body {
            return Some(Region::If { body_entry: taken, merge, invert: false });
        }
        if else_body {
            return Some(Region::If { body_entry: fall, merge, invert: true });
        }
    }
    None
}

/// `m` holds the regions of the first `n` blocks.
spec fn classified_below(ssa: SsaFunction, switches: Seq<SwitchInfo>, f: Flow, collapse: bool, m: Map<u32, Region>, n: int) -> bool {
    forall|x: u32|
        #![trigger m.dom().contains(x)]
        if x < n {
            match region_at(ssa, switches, f, x as int, collapse) {
                Some(r) => m.dom().contains(x) && m[x]@ == r,
                None => !m.dom().contains(x),
            }
        } else {
            !m.dom().contains(x)
        }
}

/// Classify structured regions on the given adjacency. With `collapse`, branch
/// arms are looked through jump-only blocks, as the adjacency is.
pub fn classify_with_adj(ssa: &SsaFunction, switches: &[SwitchInfo], succ: &[Vec<u32>], pred: &[Vec<u32>], collapse: bool) -> (regions: HashMap<u32, Region>)
    requires
        ssa.blocks@.len() < u32::MAX,
        forall|b: int| 0 <= b < ssa.blocks@.len() ==> (#[trigger] ssa.blocks@[b]).successor_ids@.len() <= i64::MAX,
        succ@.len() == ssa.blocks@.len(),
        closed(rows(succ@)),
        closed(rows(pred@)),
        converse(rows(succ@), rows(pred@)),
    ensures
        classified(*ssa, switches@, flow_of(rows(succ@), rows(pred@)), collapse, regions@),
{
    let n: usize = ssa.blocks.len();
    let mut regions: HashMap<u32, Region> = HashMap::new();
    if n == 0 {
        return regions;
    }
    let ipdom = build_ipdom(succ, pred);
    let idom = build_idom(succ, pred, 0);
    let ghost f = flow_of(rows(succ@), rows(pred@));
    let mut b: usize = 0;
    while b < n
        invariant
            b <= n,
            n == ssa.blocks@.len(),
            n == succ@.len(),
            n < u32::MAX,
            forall|x: int| 0 <= x < n ==> (#[trigger] ssa.blocks@[x]).successor_ids@.len() <= i64::MAX,
            ipdom@.len() == n + 1,
            f.succ == rows(succ@),
            f.idom == idom@,
            f.ipdom == ipdom@,
            classified_below(*ssa, switches@, f, collapse, regions@, b as int),
        decreases n - b,
    {
        let r = region_for(ssa, switches, succ, &idom, &ipdom, b, collapse, Ghost(f));
        let ghost before = regions@;
        let ghost bb = b as u32;
        if let Some(region) = r {
            regions.insert(b as u32, region);
            assert(regions@ == before.insert(bb, region));
        }
        assert forall|x: u32|
            #![trigger regions@.dom().contains(x)]
            if x < b + 1 {
                match region_at(*ssa, switches@, f, x as int, collapse) {
                    Some(r) => regions@.dom().contains(x) && regions@[x]@ == r,
                    None => !regions@.dom().contains(x),
                }
            } else {
                !regions@.dom().contains(x)
            } by {
            assert(before.dom().contains(x) || !before.dom().contains(x));
        }
        assert(classified_below(*ssa, switches@, f, collapse, regions@, b + 1));
        b += 1;
    }
    regions
}

/// Classify structured regions for `ssa`. `switches` supplies case values for
/// indirect branches; a branch without a table has its successors numbered.
pub fn classify(ssa: &SsaFunction, switches: &[SwitchInfo]) -> (regions: HashMap<u32, Region>)
    requires
        ssa.wf(),
        forall|b: int| 0 <= b < ssa.blocks@.len() ==> (#[trigger] ssa.blocks@[b]).successor_ids@.len() <= i64::MAX,
    ensures
        classified(*ssa, switches@, flow_of(ssa.succs(), ssa.preds()), false, regions@),
{
    let (succ, pred) = adj_from_ssa(ssa);
    classify_with_adj(ssa, switches, &succ, &pred, false)
}

// ─── Short circuits ─────────────────────────────────────────────────────────

/// The arms of block `b`, unless it is block `own` or does not exist.
pub open spec fn other_arms(ssa: SsaFunction, b: u32, own: u32) -> Option<(u32, u32)> {
    if b != own && b < ssa.blocks@.len() {
        arms(ssa.blocks@[b as int])
    } else {
        None
    }
}

/// Both branches jump to the same block when their condition holds.
pub open spec fn and_pair(b1: SsaBlock, ssa: SsaFunction, f1: u32, t1: u32) -> Option<(Seq<char>, u32, u32, u32)> {
    match other_arms(ssa, f1, b1.id) {
        Some((f2, t2)) => if t1 == t2 && f1 != t1 && f2 != b1.id {
            Some(("&&"@, f1, t1, f2))
        } else {
            None
        },
        None => None,
    }
}

/// Both branches fall through to the same block.
pub open spec fn or_pair(b1: SsaBlock, ssa: SsaFunction, f1: u32, t1: u32) -> Option<(Seq<char>, u32, u32, u32)> {
    match other_arms(ssa, t1, b1.id) {
        Some((f2, t2)) => if f1 == f2 && t1 != f1 && t2 != b1.id {
            Some(("||"@, t1, f1, t2))
        } else {
            None
        },
        None => None,
    }
}

/// Two conditional branches that share a target: the operator, the second block,
/// the shared target and the other target of the second block.
pub open spec fn short_circuit(b1: SsaBlock, ssa: SsaFunction) -> Option<(Seq<char>, u32, u32, u32)> {
    match arms(b1) {
        Some((f1, t1)) => match and_pair(b1, ssa, f1, t1) {
            Some(r) => Some(r),
            None => or_pair(b1, ssa, f1, t1),
        },
        None => None,
    }
}

/// Detect `cond1 && cond2` or `cond1 || cond2` spanning two conditional branches.
///
/// Returns the operator, the second block, the shared target and the true target.
/// Self-loops and same-block pairs are rejected.
pub fn detect_short_circuit(b1: &SsaBlock, ssa: &SsaFunction) -> (r: Option<(&'static str, u32, u32, u32)>)
    ensures
        match r {
            Some((op, second, shared, truth)) => short_circuit(*b1, *ssa) == Some(
                (op@, second, shared, truth),
            ),
            None => short_circuit(*b1, *ssa) is None,
        },
{
    let two = cbranch_fall_taken(b1);
    if two.is_none() {
        return None;
    }
    let (f1, t1) = two.unwrap();
    if f1 != b1.id && (f1 as usize) < ssa.blocks.len() {
        if let Some((f2, t2)) = cbranch_fall_taken(&ssa.blocks[f1 as usize]) {
            if t1 == t2 && f1 != t1 && f2 != b1.id {
                return Some(("&&", f1, t1, f2));
            }
        }
    }
    if t1 != b1.id && (t1 as usize) < ssa.blocks.len() {
        if let Some((f2, t2)) = cbranch_fall_taken(&ssa.blocks[t1 as usize]) {
            if f1 == f2 && t1 != f1 && t2 != b1.id {
                return Some(("||", t1, f1, t2));
            }
        }
    }
    None
}

// ─── The blocks that have a region ──────────────────────────────────────────

/// One more than any block number.
pub open spec fn every_block() -> int {
    0x1_0000_0000
}

/// The blocks that have a region, ascending.
pub fn region_keys(regions: &HashMap<u32, Region>) -> (r: Vec<u32>)
    ensures
        ascending(r@),
        forall|b: u32| #[trigger] r@.contains(b) <==> regions@.dom().contains(b),
{
    let mut r: Vec<u32> = Vec::new();
    let keys = regions.keys();
    let ghost listed = vstd::std_specs::iter::IteratorSpec::remaining(&keys);
    proof {
        assert forall|b: u32| regions@.dom().contains(b) implies exists|i: int|
            0 <= i < listed.len() && *#[trigger] listed[i] == b by {
            assert(listed.unref().to_set().contains(b));
            let i = choose|i: int| 0 <= i < listed.unref().len() && listed.unref()[i] == b;
            assert(*listed[i] == b);
        }
        assert forall|i: int| 0 <= i < listed.len() implies regions@.dom().contains(*#[trigger] listed[i]) by {
            assert(listed.unref()[i] == *listed[i]);
            assert(listed.unref().to_set().contains(*listed[i]));
        }
    }
    for b in it: keys
        invariant
            forall|b: u32|
                #[trigger] regions@.dom().contains(b) ==> exists|i: int|
                    0 <= i < it.seq().len() && *#[trigger] it.seq()[i] == b,
            forall|i: int| 0 <= i < it.seq().len() ==> regions@.dom().contains(*#[trigger] it.seq()[i]),
            ascending(r@),
            forall|b: u32| #[trigger] r@.contains(b) ==> regions@.dom().contains(b),
            forall|i: int| 0 <= i < it.index() ==> r@.contains(*#[trigger] it.seq()[i]),
    {
        insert_ascending(&mut r, *b);
    }
    r
}

} // verus!
