//! Contracts recovered from the presentation of a function, and their check
//! against what the function does.

use vstd::prelude::*;
use std::collections::HashMap;
use pcode_ir::{PcodeOp, Varnode};
use crate::lines::{join, join_items, lines, lines_of};
use crate::normalize::{block_has_branch_ind, block_has_cbranch, block_has_less, block_has_return, block_has_ring, block_has_xor, has_branch_ind, has_cbranch, has_less, has_return, has_ring, has_xor};
use crate::numbers::{dec, dec_text, opt_int, read_i64, read_signed, signed_dec, signed_dec_text};
use crate::pcode::{in_const, is_const};
use crate::sets::{ascending, has_id, sort_values, sorted};
use crate::ssa::{SsaBlock, SsaFunction, SsaOp, SsaOpKind};
use crate::structure::rd_model::{kinds_of, EffectKind, SemanticGraph};
use crate::structure::region::{every_block, region_keys, Region, RegionView};
use crate::text::{chars_of, cut_prefix, cut_prefix_lit, deep, has, has_lit, is_lit, new_items, push_item, push_lit, push_text, string_of, strip_end, strip_end_lit, trim, trim_start, trim_start_text, trim_text};

verus! {

broadcast use vstd::std_specs::hash::group_hash_axioms;

#[derive(Clone, Copy, Debug, PartialEq, Eq, Structural)]
pub enum LoopKind {
    While,
    DoWhile,
}

/// A loop of the presentation.
#[derive(Clone, Copy, Debug, PartialEq, Eq, Structural)]
pub struct LoopContract {
    pub header: u32,
    pub body_entry: u32,
    pub exit: u32,
    pub kind: LoopKind,
}

/// What a function returns, coarsely.
#[derive(Clone, Debug, PartialEq, Eq)]
pub struct ReturnClass {
    /// `xor`, `arg_select`, `arith`, `return` or `none`.
    pub class_tag: String,
    /// True when at least one return was seen.
    pub has_return: bool,
}

/// The case values of a multi-way branch.
#[derive(Clone, Debug, PartialEq, Eq)]
pub struct CasePartition {
    pub switch_block: u32,
    pub case_values: Vec<i64>,
    pub merge: u32,
}

/// All contracts of a function.
#[derive(Clone, Debug, PartialEq, Eq)]
pub struct ContractSet {
    pub loops: Vec<LoopContract>,
    pub returns: Option<ReturnClass>,
    pub cases: Vec<CasePartition>,
}

impl Default for ContractSet {
    fn default() -> (r: ContractSet)
        ensures
            r.loops@.len() == 0,
            r.returns is None,
            r.cases@.len() == 0,
    {
        ContractSet { loops: Vec::new(), returns: None, cases: Vec::new() }
    }
}

/// A case partition as a value.
#[verifier::ext_equal]
pub ghost struct CaseView {
    pub switch_block: u32,
    pub values: Seq<i64>,
    pub merge: u32,
}

impl View for CasePartition {
    type V = CaseView;

    open spec fn view(&self) -> CaseView {
        CaseView {
            switch_block: self.switch_block,
            values: self.case_values@,
            merge: self.merge,
        }
    }
}

/// The case partitions of a list as values.
pub open spec fn case_views(cases: Seq<CasePartition>) -> Seq<CaseView> {
    Seq::new(cases.len(), |i: int| cases[i]@)
}

fn push_case(cases: &mut Vec<CasePartition>, c: CasePartition)
    ensures
        case_views(final(cases)@) == case_views(old(cases)@).push(c@),
{
    cases.push(c);
    assert(case_views(cases@) =~= case_views(old(cases)@).push(c@));
}

// ─── Contracts of regions ───────────────────────────────────────────────────

/// The loops among the regions of the blocks below `n`, by header.
pub open spec fn loops_of(regions: Map<u32, Region>, n: int) -> Seq<LoopContract>
    decreases n,
{
    if n <= 0 {
        Seq::empty()
    } else {
        let b = (n - 1) as u32;
        let rest = loops_of(regions, n - 1);
        if !regions.dom().contains(b) {
            rest
        } else {
            match regions[b]@ {
                RegionView::While { body_entry, exit } => rest.push(
                    LoopContract { header: b, body_entry, exit, kind: LoopKind::While },
                ),
                RegionView::DoWhile { body_entry, exit, .. } => rest.push(
                    LoopContract { header: b, body_entry, exit, kind: LoopKind::DoWhile },
                ),
                _ => rest,
            }
        }
    }
}

/// The case values of a table.
pub open spec fn values_of(cases: Seq<(i64, u32)>) -> Seq<i64> {
    Seq::new(cases.len(), |i: int| cases[i].0)
}

/// The switches among the regions of the blocks below `n`, by block.
pub open spec fn switches_of(regions: Map<u32, Region>, n: int) -> Seq<CaseView>
    decreases n,
{
    if n <= 0 {
        Seq::empty()
    } else {
        let b = (n - 1) as u32;
        let rest = switches_of(regions, n - 1);
        if !regions.dom().contains(b) {
            rest
        } else {
            match regions[b]@ {
                RegionView::Switch { cases, merge } => rest.push(
                    CaseView { switch_block: b, values: sorted(values_of(cases)), merge },
                ),
                _ => rest,
            }
        }
    }
}

/// Some block below `n` is a return region.
pub open spec fn any_return_region(regions: Map<u32, Region>, n: int) -> bool {
    exists|b: u32| b < n && #[trigger] regions.dom().contains(b) && regions[b]@ is Return
}

/// Some block returns.
pub open spec fn returns_somewhere(ssa: SsaFunction) -> bool {
    exists|b: int|
        0 <= b < ssa.blocks@.len() && has_return(#[trigger] ssa.blocks@[b])
}

fn function_returns(ssa: &SsaFunction) -> (r: bool)
    ensures
        r == returns_somewhere(*ssa),
{
    let mut b: usize = 0;
    while b < ssa.blocks.len()
        invariant
            b <= ssa.blocks@.len(),
            forall|j: int|
                0 <= j < b ==> !(has_return(#[trigger] ssa.blocks@[j])),
        decreases ssa.blocks@.len() - b,
    {
        if block_has_return(&ssa.blocks[b]) {
            return true;
        }
        b += 1;
    }
    false
}

/// A returning block computes an exclusive or.
pub open spec fn returns_xor(ssa: SsaFunction) -> bool {
    exists|b: int|
        0 <= b < ssa.blocks@.len() && has_return(#[trigger] ssa.blocks@[b]) && has_xor(ssa.blocks@[b])
}

fn returns_after_xor(ssa: &SsaFunction) -> (r: bool)
    ensures
        r == returns_xor(*ssa),
{
    let mut b: usize = 0;
    while b < ssa.blocks.len()
        invariant
            b <= ssa.blocks@.len(),
            forall|j: int|
                0 <= j < b ==> !(has_return(#[trigger] ssa.blocks@[j]) && has_xor(ssa.blocks@[j])),
        decreases ssa.blocks@.len() - b,
    {
        if block_has_return(&ssa.blocks[b]) && block_has_xor(&ssa.blocks[b]) {
            return true;
        }
        b += 1;
    }
    false
}

/// A returning block compares.
pub open spec fn returns_less(ssa: SsaFunction) -> bool {
    exists|b: int|
        0 <= b < ssa.blocks@.len() && has_return(#[trigger] ssa.blocks@[b]) && has_less(ssa.blocks@[b])
}

fn returns_after_less(ssa: &SsaFunction) -> (r: bool)
    ensures
        r == returns_less(*ssa),
{
    let mut b: usize = 0;
    while b < ssa.blocks.len()
        invariant
            b <= ssa.blocks@.len(),
            forall|j: int|
                0 <= j < b ==> !(has_return(#[trigger] ssa.blocks@[j]) && has_less(ssa.blocks@[j])),
        decreases ssa.blocks@.len() - b,
    {
        if block_has_return(&ssa.blocks[b]) && block_has_less(&ssa.blocks[b]) {
            return true;
        }
        b += 1;
    }
    false
}

/// A returning block adds, subtracts or multiplies.
pub open spec fn returns_ring(ssa: SsaFunction) -> bool {
    exists|b: int|
        0 <= b < ssa.blocks@.len() && has_return(#[trigger] ssa.blocks@[b]) && has_ring(ssa.blocks@[b])
}

fn returns_after_ring(ssa: &SsaFunction) -> (r: bool)
    ensures
        r == returns_ring(*ssa),
{
    let mut b: usize = 0;
    while b < ssa.blocks.len()
        invariant
            b <= ssa.blocks@.len(),
            forall|j: int|
                0 <= j < b ==> !(has_return(#[trigger] ssa.blocks@[j]) && has_ring(ssa.blocks@[j])),
        decreases ssa.blocks@.len() - b,
    {
        if block_has_return(&ssa.blocks[b]) && block_has_ring(&ssa.blocks[b]) {
            return true;
        }
        b += 1;
    }
    false
}

/// Some block computes an exclusive or.
pub open spec fn xors_somewhere(ssa: SsaFunction) -> bool {
    exists|b: int|
        0 <= b < ssa.blocks@.len() && has_xor(#[trigger] ssa.blocks@[b])
}

fn function_has_xor(ssa: &SsaFunction) -> (r: bool)
    ensures
        r == xors_somewhere(*ssa),
{
    let mut b: usize = 0;
    while b < ssa.blocks.len()
        invariant
            b <= ssa.blocks@.len(),
            forall|j: int|
                0 <= j < b ==> !(has_xor(#[trigger] ssa.blocks@[j])),
        decreases ssa.blocks@.len() - b,
    {
        if block_has_xor(&ssa.blocks[b]) {
            return true;
        }
        b += 1;
    }
    false
}

/// The coarse class of what the function returns.
pub open spec fn return_tag(ssa: SsaFunction, returning: bool) -> Seq<char> {
    if returns_xor(ssa) {
        "xor"@
    } else if returns_less(ssa) {
        "arg_select"@
    } else if returns_ring(ssa) {
        "arith"@
    } else if returning {
        "return"@
    } else {
        "none"@
    }
}

/// The constant that `v` stands for.
pub open spec fn const_of(v: Varnode) -> Option<i64> {
    if is_const(v) {
        Some(v.offset as i64)
    } else {
        None
    }
}

fn varnode_const(v: &Varnode) -> (r: Option<i64>)
    ensures
        r == const_of(*v),
{
    if in_const(v) {
        Some(v.offset as i64)
    } else {
        None
    }
}

/// The constant that an operation tests its operand against.
pub open spec fn tested_const(op: SsaOp) -> Option<i64> {
    match op.kind {
        SsaOpKind::Pcode(PcodeOp::IntEq { left, right, .. }) => if const_of(left) is Some {
            const_of(left)
        } else {
            const_of(right)
        },
        SsaOpKind::Pcode(PcodeOp::IntNotEq { left, right, .. }) => if const_of(left) is Some {
            const_of(left)
        } else {
            const_of(right)
        },
        SsaOpKind::Pcode(PcodeOp::IntSub { right, .. }) => const_of(right),
        _ => None,
    }
}

fn op_tested_const(op: &SsaOp) -> (r: Option<i64>)
    ensures
        r == tested_const(*op),
{
    match &op.kind {
        SsaOpKind::Pcode(PcodeOp::IntEq { left, right, .. }) => {
            let l = varnode_const(left);
            if l.is_some() {
                l
            } else {
                varnode_const(right)
            }
        },
        SsaOpKind::Pcode(PcodeOp::IntNotEq { left, right, .. }) => {
            let l = varnode_const(left);
            if l.is_some() {
                l
            } else {
                varnode_const(right)
            }
        },
        SsaOpKind::Pcode(PcodeOp::IntSub { right, .. }) => varnode_const(right),
        _ => None,
    }
}

/// The last constant tested by the first `n` operations, or `found`.
pub open spec fn last_tested(ops: Seq<SsaOp>, n: int, found: Option<i64>) -> Option<i64>
    decreases n,
{
    if n <= 0 {
        found
    } else if tested_const(ops[n - 1]) is Some {
        tested_const(ops[n - 1])
    } else {
        last_tested(ops, n - 1, found)
    }
}

fn scan_block(block: &SsaBlock, found: Option<i64>) -> (r: Option<i64>)
    ensures
        r == last_tested(block.ops@, block.ops@.len() as int, found),
{
    let mut r: Option<i64> = found;
    let mut i: usize = 0;
    while i < block.ops.len()
        invariant
            i <= block.ops@.len(),
            r == last_tested(block.ops@, i as int, found),
        decreases block.ops@.len() - i,
    {
        let c = op_tested_const(&block.ops[i]);
        if c.is_some() {
            r = c;
        }
        i += 1;
    }
    r
}

/// The last constant tested by the first `n` predecessors, or `found`.
pub open spec fn last_tested_before(ssa: SsaFunction, preds: Seq<u32>, n: int, found: Option<i64>) -> Option<i64>
    decreases n,
{
    if n <= 0 {
        found
    } else {
        let rest = last_tested_before(ssa, preds, n - 1, found);
        let p = preds[n - 1];
        if p < ssa.blocks@.len() {
            let ops = ssa.blocks@[p as int].ops@;
            last_tested(ops, ops.len() as int, rest)
        } else {
            rest
        }
    }
}

/// The constant that block `b` branches on: tested in the block or before it.
pub open spec fn branch_const(ssa: SsaFunction, b: int) -> Option<i64> {
    let block = ssa.blocks@[b];
    if has_cbranch(block) {
        let own = last_tested(block.ops@, block.ops@.len() as int, None);
        last_tested_before(
            ssa,
            block.predecessor_ids@,
            block.predecessor_ids@.len() as int,
            own,
        )
    } else {
        None
    }
}

/// A constant that can be a case label.
pub open spec fn label(k: Option<i64>) -> bool {
    match k {
        Some(v) => 0 <= v < 256,
        None => false,
    }
}

/// The blocks below `n` that branch on a case label, with the label.
pub open spec fn ladder(ssa: SsaFunction, n: int) -> Seq<(u32, i64)>
    decreases n,
{
    if n <= 0 {
        Seq::empty()
    } else if label(branch_const(ssa, n - 1)) {
        ladder(ssa, n - 1).push(((n - 1) as u32, branch_const(ssa, n - 1)->0))
    } else {
        ladder(ssa, n - 1)
    }
}

/// The labels of a ladder.
pub open spec fn labels_of(l: Seq<(u32, i64)>) -> Seq<i64> {
    Seq::new(l.len(), |i: int| l[i].1)
}

/// `s` without an entry that repeats the one before it.
pub open spec fn dedup(s: Seq<i64>) -> Seq<i64>
    decreases s.len(),
{
    if s.len() < 2 {
        s
    } else if s.last() == s[s.len() - 2] {
        dedup(s.drop_last())
    } else {
        dedup(s.drop_last()).push(s.last())
    }
}

pub fn dedup_values(s: &Vec<i64>) -> (r: Vec<i64>)
    ensures
        r@ == dedup(s@),
{
    let mut r: Vec<i64> = Vec::new();
    let mut i: usize = 0;
    while i < s.len()
        invariant
            i <= s@.len(),
            r@ == dedup(s@.take(i as int)),
        decreases s@.len() - i,
    {
        assert(s@.take(i + 1).drop_last() =~= s@.take(i as int));
        if i == 0 {
            r.push(s[0]);
            assert(r@ =~= s@.take(1));
        } else if s[i] != s[i - 1] {
            r.push(s[i]);
        }
        i += 1;
    }
    assert(s@.take(s@.len() as int) =~= s@);
    r
}

/// The first block from `b` on that returns, or `other`.
pub open spec fn first_return(ssa: SsaFunction, b: int, other: u32) -> u32
    decreases ssa.blocks@.len() - b,
{
    if b < 0 || b >= ssa.blocks@.len() {
        other
    } else if has_return(ssa.blocks@[b]) {
        b as u32
    } else {
        first_return(ssa, b + 1, other)
    }
}

/// The multi-way branches among the blocks below `n`, their cases numbered.
pub open spec fn multiways(ssa: SsaFunction, n: int) -> Seq<CaseView>
    decreases n,
{
    if n <= 0 {
        Seq::empty()
    } else {
        let block = ssa.blocks@[n - 1];
        let ids = block.successor_ids@;
        if has_branch_ind(block) && ids.len() >= 2 {
            multiways(ssa, n - 1).push(
                CaseView {
                    switch_block: (n - 1) as u32,
                    values: Seq::new(ids.len(), |i: int| i as i64),
                    merge: ids.last(),
                },
            )
        } else {
            multiways(ssa, n - 1)
        }
    }
}

/// The case partition of a ladder of equality tests: at least three arms with at
/// least two labels between them.
pub open spec fn ladder_cases(ssa: SsaFunction) -> Seq<CaseView> {
    let l = ladder(ssa, ssa.blocks@.len() as int);
    let values = dedup(sorted(labels_of(l)));
    if l.len() < 3 || values.len() < 2 {
        Seq::empty()
    } else {
        seq![
            CaseView {
                switch_block: l[0].0,
                values,
                merge: first_return(ssa, 0, l[0].0),
            },
        ]
    }
}

/// The case partitions that no switch region records.
pub open spec fn recovered_cases(ssa: SsaFunction) -> Seq<CaseView> {
    let m = multiways(ssa, ssa.blocks@.len() as int);
    if m.len() > 0 {
        m
    } else {
        ladder_cases(ssa)
    }
}

fn numbered(n: usize) -> (r: Vec<i64>)
    requires
        n <= i64::MAX,
    ensures
        r@ == Seq::new(n as nat, |i: int| i as i64),
{
    let mut r: Vec<i64> = Vec::new();
    let mut i: usize = 0;
    while i < n
        invariant
            i <= n,
            n <= i64::MAX,
            r@.len() == i,
            forall|j: int| 0 <= j < i ==> r@[j] == j as i64,
        decreases n - i,
    {
        r.push(i as i64);
        i += 1;
    }
    assert(r@ =~= Seq::new(n as nat, |i: int| i as i64));
    r
}

/// Successor lists are short enough to number.
pub open spec fn lists_fit(ssa: SsaFunction) -> bool {
    forall|b: int|
        0 <= b < ssa.blocks@.len() ==> (#[trigger] ssa.blocks@[b]).successor_ids@.len() <= i64::MAX
}

/// Recover case partitions from multi-way branches, or else from ladders of
/// equality tests.
fn recover_eq_ladder_cases(ssa: &SsaFunction) -> (out: Vec<CasePartition>)
    requires
        ssa.blocks@.len() < u32::MAX,
        lists_fit(*ssa),
    ensures
        case_views(out@) == recovered_cases(*ssa),
{
    let n: usize = ssa.blocks.len();
    let mut out: Vec<CasePartition> = Vec::new();
    assert(case_views(out@) =~= Seq::empty());
    let mut i: usize = 0;
    while i < n
        invariant
            i <= n,
            n == ssa.blocks@.len(),
            n < u32::MAX,
            lists_fit(*ssa),
            case_views(out@) == multiways(*ssa, i as int),
        decreases n - i,
    {
        let block = &ssa.blocks[i];
        if block_has_branch_ind(block) && block.successor_ids.len() >= 2 {
            let k: usize = block.successor_ids.len();
            push_case(
                &mut out,
                CasePartition {
                    switch_block: i as u32,
                    case_values: numbered(k),
                    merge: block.successor_ids[k - 1],
                },
            );
        }
        i += 1;
    }
    assert(case_views(out@).len() == out@.len());
    if out.len() > 0 {
        return out;
    }
    let mut firsts: Vec<u32> = Vec::new();
    let mut vals: Vec<i64> = Vec::new();
    let mut b: usize = 0;
    while b < n
        invariant
            b <= n,
            n == ssa.blocks@.len(),
            n < u32::MAX,
            firsts@.len() == vals@.len(),
            firsts@.len() == ladder(*ssa, b as int).len(),
            forall|j: int|
                0 <= j < firsts@.len() ==> (#[trigger] ladder(*ssa, b as int)[j]) == (
                    firsts@[j],
                    vals@[j],
                ),
        decreases n - b,
    {
        let block = &ssa.blocks[b];
        let mut found: Option<i64> = None;
        if block_has_cbranch(block) {
            found = scan_block(block, None);
            let ghost own = found;
            let mut k: usize = 0;
            while k < block.predecessor_ids.len()
                invariant
                    k <= block.predecessor_ids@.len(),
                    found == last_tested_before(*ssa, block.predecessor_ids@, k as int, own),
                decreases block.predecessor_ids@.len() - k,
            {
                let p = block.predecessor_ids[k];
                if (p as usize) < ssa.blocks.len() {
                    found = scan_block(&ssa.blocks[p as usize], found);
                }
                k += 1;
            }
        }
        assert(found == branch_const(*ssa, b as int));
        if let Some(k) = found {
            if 0 <= k && k < 256 {
                firsts.push(b as u32);
                vals.push(k);
            }
        }
        b += 1;
    }
    let ghost l = ladder(*ssa, n as int);
    assert(vals@ =~= labels_of(l));
    if firsts.len() < 3 {
        assert(case_views(out@) =~= recovered_cases(*ssa));
        return out;
    }
    let s = sort_values(&vals);
    let values = dedup_values(&s);
    if values.len() < 2 {
        assert(case_views(out@) =~= recovered_cases(*ssa));
        return out;
    }
    let switch_block = firsts[0];
    assert(l[0] == (firsts@[0], vals@[0]));
    let mut merge: u32 = switch_block;
    let mut m: usize = 0;
    while m < n
        invariant_except_break
            m <= n,
            n == ssa.blocks@.len(),
            n < u32::MAX,
            merge == switch_block,
            first_return(*ssa, m as int, switch_block) == first_return(*ssa, 0, switch_block),
        ensures
            merge == first_return(*ssa, 0, switch_block),
        decreases n - m,
    {
        if block_has_return(&ssa.blocks[m]) {
            merge = m as u32;
            break;
        }
        m += 1;
    }
    push_case(&mut out, CasePartition { switch_block, case_values: values, merge });
    assert(case_views(out@) =~= recovered_cases(*ssa));
    out
}

/// The case partitions of a function: its switch regions, or what its branches show.
pub open spec fn cases_for(ssa: SsaFunction, regions: Map<u32, Region>) -> Seq<CaseView> {
    let s = switches_of(regions, every_block());
    if s.len() > 0 {
        s
    } else {
        recovered_cases(ssa)
    }
}

/// Where no block from `a` up to `b` has a region, nothing is found there.
proof fn lemma_gap(regions: Map<u32, Region>, a: int, b: int)
    requires
        0 <= a <= b <= every_block(),
        forall|x: u32| a <= x < b ==> !#[trigger] regions.dom().contains(x),
    ensures
        loops_of(regions, a) == loops_of(regions, b),
        switches_of(regions, a) == switches_of(regions, b),
        any_return_region(regions, a) == any_return_region(regions, b),
    decreases b - a,
{
    if a < b {
        lemma_gap(regions, a, b - 1);
        assert(!regions.dom().contains((b - 1) as u32));
        if any_return_region(regions, b) {
            let x = choose|x: u32| x < b && #[trigger] regions.dom().contains(x) && regions[x]@ is Return;
            assert(x < b - 1);
        }
        if any_return_region(regions, b - 1) {
            let x = choose|x: u32| x < b - 1 && #[trigger] regions.dom().contains(x) && regions[x]@ is Return;
            assert(x < b);
        }
    }
}

/// The first `n` of the keys lie below this.
spec fn past(keys: Seq<u32>, n: int) -> int {
    if n <= 0 {
        0
    } else {
        keys[n - 1] + 1
    }
}

impl ContractSet {
    /// Holds the contracts of the given regions.
    pub open spec fn recovers(&self, ssa: SsaFunction, regions: Map<u32, Region>) -> bool {
        let returning = any_return_region(regions, every_block()) || returns_somewhere(ssa);
        &&& self.loops@ == loops_of(regions, every_block())
        &&& case_views(self.cases@) == cases_for(ssa, regions)
        &&& self.returns is Some
        &&& self.returns->0.has_return == returning
        &&& self.returns->0.class_tag@ == return_tag(ssa, returning)
    }

    /// Derive contracts from classified regions and what the blocks compute.
    pub fn from_regions(ssa: &SsaFunction, regions: &HashMap<u32, Region>) -> (r: ContractSet)
        requires
            ssa.blocks@.len() < u32::MAX,
            lists_fit(*ssa),
        ensures
            r.recovers(*ssa, regions@),
    {
        let keys = region_keys(regions);
        let mut loops: Vec<LoopContract> = Vec::new();
        let mut cases: Vec<CasePartition> = Vec::new();
        let mut region_returns = false;
        assert(case_views(cases@) =~= Seq::empty());
        let mut i: usize = 0;
        while i < keys.len()
            invariant
                i <= keys@.len(),
                ascending(keys@),
                forall|b: u32| #[trigger] keys@.contains(b) <==> regions@.dom().contains(b),
                loops@ == loops_of(regions@, past(keys@, i as int)),
                case_views(cases@) == switches_of(regions@, past(keys@, i as int)),
                region_returns == any_return_region(regions@, past(keys@, i as int)),
            decreases keys@.len() - i,
        {
            let b: u32 = keys[i];
            let ghost before = region_returns;
            proof {
                let low = past(keys@, i as int);
                if i > 0 {
                    assert(keys@[i - 1] < keys@[i as int]);
                }
                assert forall|x: u32| low <= x < b implies !#[trigger] regions@.dom().contains(x) by {
                    if keys@.contains(x) {
                        let j = choose|j: int| 0 <= j < keys@.len() && keys@[j] == x;
                        if j < i - 1 {
                            assert(keys@[j] < keys@[i - 1]);
                        } else if j > i {
                            assert(keys@[i as int] < keys@[j]);
                        }
                    }
                }
                lemma_gap(regions@, low, b as int);
                assert(keys@.contains(b));
                assert(past(keys@, i + 1) == b + 1);
            }
            match regions.get(&b) {
                Some(Region::While { body_entry, exit }) => {
                    loops.push(
                        LoopContract {
                            header: b,
                            body_entry: *body_entry,
                            exit: *exit,
                            kind: LoopKind::While,
                        },
                    );
                },
                Some(Region::DoWhile { body_entry, exit, .. }) => {
                    loops.push(
                        LoopContract {
                            header: b,
                            body_entry: *body_entry,
                            exit: *exit,
                            kind: LoopKind::DoWhile,
                        },
                    );
                },
                Some(Region::Switch { cases: table, merge }) => {
                    let mut vals: Vec<i64> = Vec::new();
                    let mut k: usize = 0;
                    while k < table.len()
                        invariant
                            k <= table@.len(),
                            vals@.len() == k,
                            forall|j: int| 0 <= j < k ==> vals@[j] == table@[j].0,
                        decreases table@.len() - k,
                    {
                        vals.push(table[k].0);
                        k += 1;
                    }
                    assert(vals@ =~= values_of(table@));
                    push_case(
                        &mut cases,
                        CasePartition {
                            switch_block: b,
                            case_values: sort_values(&vals),
                            merge: *merge,
                        },
                    );
                },
                Some(Region::Return) => {
                    region_returns = true;
                    assert(regions@.dom().contains(b) && regions@[b]@ is Return);
                },
                _ => {},
            }
            proof {
                if any_return_region(regions@, b + 1) {
                    let x = choose|x: u32|
                        x < b + 1 && #[trigger] regions@.dom().contains(x)
                            && regions@[x]@ is Return;
                    if x < b {
                        assert(any_return_region(regions@, b as int));
                    } else {
                        assert(x == b);
                    }
                }
                if before {
                    let x = choose|x: u32|
                        x < b && #[trigger] regions@.dom().contains(x) && regions@[x]@ is Return;
                    assert(x < b + 1);
                }
            }
            i += 1;
        }
        proof {
            let low = past(keys@, keys@.len() as int);
            assert forall|x: u32| low <= x < every_block() implies !#[trigger] regions@.dom().contains(x) by {
                if keys@.contains(x) {
                    let j = choose|j: int| 0 <= j < keys@.len() && keys@[j] == x;
                    if j < keys@.len() - 1 {
                        assert(keys@[j] < keys@[keys@.len() - 1]);
                    }
                }
            }
            lemma_gap(regions@, low, every_block());
        }
        assert(case_views(cases@).len() == cases@.len());
        let cases = if cases.len() == 0 {
            recover_eq_ladder_cases(ssa)
        } else {
            cases
        };
        let has_return = region_returns || function_returns(ssa);
        let tag = if returns_after_xor(ssa) {
            "xor"
        } else if returns_after_less(ssa) {
            "arg_select"
        } else if returns_after_ring(ssa) {
            "arith"
        } else if has_return {
            "return"
        } else {
            "none"
        };
        ContractSet {
            loops,
            returns: Some(ReturnClass { class_tag: tag.to_owned(), has_return }),
            cases,
        }
    }
}

// ─── Validation ─────────────────────────────────────────────────────────────

/// The texts of a list of issue tags.
pub open spec fn tags(v: Seq<&'static str>) -> Seq<Seq<char>> {
    Seq::new(v.len(), |i: int| v[i]@)
}

fn push_tag(v: &mut Vec<&'static str>, t: &'static str)
    ensures
        tags(final(v)@) == tags(old(v)@).push(t@),
{
    v.push(t);
    assert(tags(v@) =~= tags(old(v)@).push(t@));
}

/// `t` is one of the tags.
pub fn has_tag(v: &Vec<&'static str>, t: &str) -> (r: bool)
    ensures
        r == tags(v@).contains(t@),
{
    let want = chars_of(t);
    let mut i: usize = 0;
    while i < v.len()
        invariant
            i <= v@.len(),
            want@ == t@,
            forall|j: int| 0 <= j < i ==> tags(v@)[j] != t@,
        decreases v@.len() - i,
    {
        let own = chars_of(v[i]);
        if crate::text::same(&own, &want) {
            assert(tags(v@)[i as int] == t@);
            return true;
        }
        i += 1;
    }
    false
}

/// Block `i` closes the loop `l`: it leads to the header, and is the header or the
/// body entry or leads there too.
pub open spec fn closes_loop(sem: SemanticGraph, l: LoopContract, i: int) -> bool {
    &&& sem.succ@[i]@.contains(l.header)
    &&& i as u32 == l.header || i as u32 == l.body_entry || sem.succ@[i]@.contains(l.body_entry)
}

/// The loop is closed by some block, or at least its header is entered.
pub open spec fn recurs(sem: SemanticGraph, l: LoopContract) -> bool {
    ||| exists|i: int| 0 <= i < sem.succ@.len() && #[trigger] closes_loop(sem, l, i)
    ||| l.header < sem.pred@.len() && sem.pred@[l.header as int]@.len() > 0
}

fn loop_recurs(sem: &SemanticGraph, l: &LoopContract) -> (r: bool)
    requires
        sem.wf(),
    ensures
        r == recurs(*sem, *l),
{
    let mut i: usize = 0;
    while i < sem.succ.len()
        invariant
            i <= sem.succ@.len(),
            sem.wf(),
            forall|j: int| 0 <= j < i ==> !#[trigger] closes_loop(*sem, *l, j),
        decreases sem.succ@.len() - i,
    {
        let closes = has_id(&sem.succ[i], l.header) && (i as u32 == l.header || i as u32
            == l.body_entry || has_id(&sem.succ[i], l.body_entry));
        assert(closes == closes_loop(*sem, *l, i as int));
        if closes {
            return true;
        }
        i += 1;
    }
    (l.header as usize) < sem.pred.len() && sem.pred[l.header as usize].len() > 0
}

/// What is wrong with the first `n` loops.
pub open spec fn loop_issues(sem: SemanticGraph, loops: Seq<LoopContract>, n: int) -> Seq<Seq<char>>
    decreases n,
{
    if n <= 0 {
        Seq::empty()
    } else {
        let l = loops[n - 1];
        let rest = loop_issues(sem, loops, n - 1);
        if l.header >= sem.n_blocks || l.body_entry >= sem.n_blocks {
            rest.push("loop_header_oob"@)
        } else if !recurs(sem, l) {
            rest.push("missing_loop_recurrence"@)
        } else {
            rest
        }
    }
}

/// Some block has a return among its effects.
pub open spec fn effects_return(sem: SemanticGraph) -> bool {
    exists|b: u32|
        b < sem.n_blocks && #[trigger] kinds_of(sem.effects@, b).contains(EffectKind::Return)
}

fn any_return_effect(sem: &SemanticGraph) -> (r: bool)
    requires
        sem.wf(),
    ensures
        r == effects_return(*sem),
{
    let mut b: usize = 0;
    while b < sem.n_blocks
        invariant
            b <= sem.n_blocks,
            sem.wf(),
            forall|x: u32|
                x < b ==> !#[trigger] kinds_of(sem.effects@, x).contains(EffectKind::Return),
        decreases sem.n_blocks - b,
    {
        let kinds = sem.block_effect_kinds(b as u32);
        let mut i: usize = 0;
        while i < kinds.len()
            invariant
                i <= kinds@.len(),
                forall|j: int| 0 <= j < i ==> kinds@[j] != EffectKind::Return,
                kinds@ == kinds_of(sem.effects@, b as u32),
                b < sem.n_blocks,
            decreases kinds@.len() - i,
        {
            if matches!(kinds[i], EffectKind::Return) {
                assert(kinds@[i as int] == EffectKind::Return);
                assert(kinds_of(sem.effects@, b as u32).contains(EffectKind::Return));
                return true;
            }
            i += 1;
        }
        b += 1;
    }
    false
}

/// What is wrong with the return contract.
pub open spec fn return_issues(sem: SemanticGraph, ssa: SsaFunction, returns: Option<ReturnClass>) -> Seq<Seq<char>> {
    match returns {
        Some(r) => {
            let first = if r.has_return && !effects_return(sem) && !returns_somewhere(ssa) {
                seq!["return_contract_without_return_effect"@]
            } else {
                Seq::empty()
            };
            if r.class_tag@ == "xor"@ && !xors_somewhere(ssa) {
                first.push("wrong_return_class_xor"@)
            } else {
                first
            }
        },
        None => Seq::empty(),
    }
}

/// What is wrong with the first `n` case partitions.
pub open spec fn case_issues(sem: SemanticGraph, cases: Seq<CasePartition>, n: int) -> Seq<Seq<char>>
    decreases n,
{
    if n <= 0 {
        Seq::empty()
    } else {
        let c = cases[n - 1];
        let rest = case_issues(sem, cases, n - 1);
        let rest = if c.case_values@.len() == 0 {
            rest.push("incomplete_case_partition"@)
        } else {
            rest
        };
        if c.switch_block >= sem.n_blocks {
            rest.push("case_switch_oob"@)
        } else {
            rest
        }
    }
}

impl ContractSet {
    /// What the contracts claim that the function does not bear out.
    pub open spec fn issues(&self, sem: SemanticGraph, ssa: SsaFunction) -> Seq<Seq<char>> {
        loop_issues(sem, self.loops@, self.loops@.len() as int) + return_issues(
            sem,
            ssa,
            self.returns,
        ) + case_issues(sem, self.cases@, self.cases@.len() as int)
    }

    /// Check the contracts against what the function does. Returns one tag per
    /// issue; an empty list means that all checks passed.
    pub fn validate_against_semantic(&self, sem: &SemanticGraph, ssa: &SsaFunction) -> (issues: Vec<&'static str>)
        requires
            sem.wf(),
        ensures
            tags(issues@) == self.issues(*sem, *ssa),
    {
        let mut issues: Vec<&'static str> = Vec::new();
        assert(tags(issues@) =~= Seq::empty());
        let mut i: usize = 0;
        while i < self.loops.len()
            invariant
                i <= self.loops@.len(),
                sem.wf(),
                tags(issues@) == loop_issues(*sem, self.loops@, i as int),
            decreases self.loops@.len() - i,
        {
            let l = &self.loops[i];
            if (l.header as usize) >= sem.n_blocks || (l.body_entry as usize) >= sem.n_blocks {
                push_tag(&mut issues, "loop_header_oob");
            } else if !loop_recurs(sem, l) {
                push_tag(&mut issues, "missing_loop_recurrence");
            }
            i += 1;
        }
        let ghost first = tags(issues@);
        let ghost second = return_issues(*sem, *ssa, self.returns);
        if let Some(r) = &self.returns {
            if r.has_return && !any_return_effect(sem) && !function_returns(ssa) {
                push_tag(&mut issues, "return_contract_without_return_effect");
            }
            let tag = chars_of(r.class_tag.as_str());
            if is_lit(&tag, "xor") && !function_has_xor(ssa) {
                push_tag(&mut issues, "wrong_return_class_xor");
            }
        }
        assert(tags(issues@) =~= first + second);
        let ghost both = tags(issues@);
        let mut k: usize = 0;
        assert(both =~= both + case_issues(*sem, self.cases@, 0));
        while k < self.cases.len()
            invariant
                k <= self.cases@.len(),
                tags(issues@) == both + case_issues(*sem, self.cases@, k as int),
            decreases self.cases@.len() - k,
        {
            let c = &self.cases[k];
            let ghost before = case_issues(*sem, self.cases@, k as int);
            if c.case_values.len() == 0 {
                push_tag(&mut issues, "incomplete_case_partition");
            }
            if (c.switch_block as usize) >= sem.n_blocks {
                push_tag(&mut issues, "case_switch_oob");
            }
            assert(tags(issues@) =~= both + case_issues(*sem, self.cases@, k + 1));
            k += 1;
        }
        issues
    }
}

// ─── Fingerprints ───────────────────────────────────────────────────────────

/// The text of one loop contract.
pub open spec fn loop_text(l: LoopContract) -> Seq<char> {
    (if l.kind is While {
        "L:While:"@
    } else {
        "L:DoWhile:"@
    }) + dec(l.header as nat) + ":"@ + dec(l.body_entry as nat) + ":"@ + dec(l.exit as nat)
}

/// The text of a list of numbers.
pub open spec fn list_text(v: Seq<i64>) -> Seq<char> {
    "["@ + join(Seq::new(v.len(), |i: int| signed_dec(v[i] as int)), ", "@) + "]"@
}

/// The text of one case partition.
pub open spec fn case_text(c: CasePartition) -> Seq<char> {
    "C:"@ + dec(c.switch_block as nat) + ":"@ + list_text(c.case_values@)
}

/// `acc` with the texts of the first `n` loops behind it.
pub open spec fn with_loops(loops: Seq<LoopContract>, n: int, acc: Seq<Seq<char>>) -> Seq<Seq<char>>
    decreases n,
{
    if n <= 0 {
        acc
    } else {
        with_loops(loops, n - 1, acc).push(loop_text(loops[n - 1]))
    }
}

/// `acc` with the texts of the first `n` case partitions behind it.
pub open spec fn with_cases(cases: Seq<CasePartition>, n: int, acc: Seq<Seq<char>>) -> Seq<Seq<char>>
    decreases n,
{
    if n <= 0 {
        acc
    } else {
        with_cases(cases, n - 1, acc).push(case_text(cases[n - 1]))
    }
}

fn loop_chars(l: &LoopContract) -> (r: Vec<char>)
    ensures
        r@ == loop_text(*l),
{
    let mut r = chars_of(match l.kind {
        LoopKind::While => "L:While:",
        LoopKind::DoWhile => "L:DoWhile:",
    });
    push_text(&mut r, &dec_text(l.header as u64));
    push_lit(&mut r, ":");
    push_text(&mut r, &dec_text(l.body_entry as u64));
    push_lit(&mut r, ":");
    push_text(&mut r, &dec_text(l.exit as u64));
    r
}

fn list_chars(v: &Vec<i64>) -> (r: Vec<char>)
    ensures
        r@ == list_text(v@),
{
    let mut items = new_items();
    let mut i: usize = 0;
    while i < v.len()
        invariant
            i <= v@.len(),
            deep(items@).len() == i,
            forall|j: int| 0 <= j < i ==> deep(items@)[j] == signed_dec(v@[j] as int),
        decreases v@.len() - i,
    {
        push_item(&mut items, signed_dec_text(v[i]));
        i += 1;
    }
    assert(deep(items@) =~= Seq::new(v@.len(), |i: int| signed_dec(v@[i] as int)));
    let mut r = chars_of("[");
    push_text(&mut r, &join_items(&items, ", "));
    push_lit(&mut r, "]");
    r
}

fn case_chars(c: &CasePartition) -> (r: Vec<char>)
    ensures
        r@ == case_text(*c),
{
    let mut r = chars_of("C:");
    push_text(&mut r, &dec_text(c.switch_block as u64));
    push_lit(&mut r, ":");
    push_text(&mut r, &list_chars(&c.case_values));
    r
}

impl ContractSet {
    /// The pieces of the fingerprint.
    pub open spec fn pieces(&self) -> Seq<Seq<char>> {
        let a = with_loops(
            self.loops@,
            self.loops@.len() as int,
            seq!["loops="@ + dec(self.loops@.len())],
        );
        let b = match self.returns {
            Some(r) => a.push("ret:"@ + r.class_tag@),
            None => a,
        };
        with_cases(
            self.cases@,
            self.cases@.len() as int,
            b.push("cases="@ + dec(self.cases@.len())),
        )
    }

    /// Compact text for comparing the contracts of two presentations.
    pub fn fingerprint(&self) -> (r: String)
        ensures
            r@ == join(self.pieces(), "|"@),
    {
        let mut parts = new_items();
        let mut head = chars_of("loops=");
        push_text(&mut head, &dec_text(self.loops.len() as u64));
        push_item(&mut parts, head);
        assert(deep(parts@) =~= seq!["loops="@ + dec(self.loops@.len())]);
        let ghost start = deep(parts@);
        let mut i: usize = 0;
        while i < self.loops.len()
            invariant
                i <= self.loops@.len(),
                deep(parts@) == with_loops(self.loops@, i as int, start),
            decreases self.loops@.len() - i,
        {
            push_item(&mut parts, loop_chars(&self.loops[i]));
            i += 1;
        }
        if let Some(r) = &self.returns {
            let mut t = chars_of("ret:");
            push_text(&mut t, &chars_of(r.class_tag.as_str()));
            push_item(&mut parts, t);
        }
        let mut mid = chars_of("cases=");
        push_text(&mut mid, &dec_text(self.cases.len() as u64));
        push_item(&mut parts, mid);
        let ghost start2 = deep(parts@);
        let mut k: usize = 0;
        while k < self.cases.len()
            invariant
                k <= self.cases@.len(),
                deep(parts@) == with_cases(self.cases@, k as int, start2),
            decreases self.cases@.len() - k,
        {
            push_item(&mut parts, case_chars(&self.cases[k]));
            k += 1;
        }
        let t = join_items(&parts, "|");
        string_of(&t)
    }
}

// ─── Case labels in printed text ────────────────────────────────────────────

/// The number behind `case` on a line.
pub open spec fn case_label(line: Seq<char>) -> Option<int> {
    let t = trim(line);
    let rest = match cut_prefix(t, "case "@) {
        Some(r) => Some(r),
        None => match cut_prefix(t, "case"@) {
            Some(r) => Some(trim_start(r)),
            None => None,
        },
    };
    match rest {
        Some(r) => {
            let num = trim(strip_end(r, ":"@));
            match cut_prefix(num, "0x"@) {
                Some(h) => read_signed(h, 16),
                None => match cut_prefix(num, "0X"@) {
                    Some(h) => read_signed(h, 16),
                    None => read_signed(num, 10),
                },
            }
        },
        None => None,
    }
}

fn line_label(line: &Vec<char>) -> (r: Option<i64>)
    ensures
        opt_int(r) == case_label(line@),
{
    let t = trim_text(line);
    let rest = match cut_prefix_lit(&t, "case ") {
        Some(r) => r,
        None => match cut_prefix_lit(&t, "case") {
            Some(r) => trim_start_text(&r),
            None => {
                return None;
            },
        },
    };
    let stripped = strip_end_lit(&rest, ":");
    let num = trim_text(&stripped);
    match cut_prefix_lit(&num, "0x") {
        Some(h) => read_i64(&h, 16),
        None => match cut_prefix_lit(&num, "0X") {
            Some(h) => read_i64(&h, 16),
            None => read_i64(&num, 10),
        },
    }
}

/// The case labels on the first `n` lines.
pub open spec fn case_labels(l: Seq<Seq<char>>, n: int) -> Seq<i64>
    decreases n,
{
    if n <= 0 {
        Seq::empty()
    } else {
        match case_label(l[n - 1]) {
            Some(k) => case_labels(l, n - 1).push(k as i64),
            None => case_labels(l, n - 1),
        }
    }
}

/// The distinct case labels of a text, in order.
pub open spec fn text_labels(text: Seq<char>) -> Seq<i64> {
    dedup(sorted(case_labels(lines(text), lines(text).len() as int)))
}

/// Recover a case partition from printed text: a text with `switch` and at least
/// two distinct case labels.
pub fn case_partition_from_decomp_text(text: &str) -> (r: Option<CasePartition>)
    ensures
        r is Some <==> has(text@, "switch"@) && text_labels(text@).len() >= 2,
        r is Some ==> r->0@ == (CaseView {
            switch_block: 0,
            values: text_labels(text@),
            merge: 0,
        }),
{
    let t = chars_of(text);
    if !has_lit(&t, "switch") {
        return None;
    }
    let l = lines_of(&t);
    let mut vals: Vec<i64> = Vec::new();
    let mut i: usize = 0;
    while i < l.len()
        invariant
            i <= l@.len(),
            vals@ == case_labels(deep(l@), i as int),
        decreases l@.len() - i,
    {
        assert(deep(l@)[i as int] == l@[i as int]@);
        if let Some(k) = line_label(&l[i]) {
            vals.push(k);
        }
        i += 1;
    }
    let s = sort_values(&vals);
    let values = dedup_values(&s);
    if values.len() < 2 {
        return None;
    }
    Some(CasePartition { switch_block: 0, case_values: values, merge: 0 })
}

} // verus!
