//! The text of a function is determined by what it is made from.

use vstd::prelude::*;
use crate::graph::{edge, rows};
use crate::sets::ascending;
use crate::ssa::SsaFunction;
use crate::structure::emit::{full_text, pure_text};
use crate::structure::emit_core::{core_text, written_with};
use crate::structure::names::Names;
use crate::structure::presentation::{cfg_only, legacy_semantic};
use crate::structure::rd_model::{block_effects, keeps, keeps_any, kinds_of, presented, target, DualDecompModel, SemanticGraph};
use crate::structure::region::{every_block, flow_of, region_at, RegionView, SwitchInfo};
use crate::structure::rewrite::{after_move, after_moves, moves_below, outcome_of, region_views, rejection, rewritten, RewriteMove, RewriteOutcome};
use crate::types::{FunctionSignature, TypeRecoveryReport};

verus! {

/// Two ascending lists with the same members are the same.
proof fn lemma_ascending_same(a: Seq<u32>, b: Seq<u32>)
    requires
        ascending(a),
        ascending(b),
        forall|x: u32| #[trigger] a.contains(x) <==> b.contains(x),
    ensures
        a == b,
    decreases a.len(),
{
    if a.len() == 0 {
        if b.len() > 0 {
            assert(b.contains(b[0]));
            assert(a.contains(b[0]));
        }
        assert(a =~= b);
    } else {
        assert(a.contains(a[a.len() - 1]));
        assert(b.contains(a[a.len() - 1]));
        let x = a[a.len() - 1];
        let y = b[b.len() - 1];
        assert(b.contains(y));
        assert(a.contains(y));
        let i = choose|i: int| 0 <= i < a.len() && a[i] == y;
        let j = choose|j: int| 0 <= j < b.len() && b[j] == x;
        assert(x == y) by {
            if i < a.len() - 1 {
                assert(a[i] < a[a.len() - 1]);
            }
            if j < b.len() - 1 {
                assert(b[j] < b[b.len() - 1]);
            }
        }
        let a0 = a.drop_last();
        let b0 = b.drop_last();
        assert forall|z: u32| #[trigger] a0.contains(z) <==> b0.contains(z) by {
            if a0.contains(z) {
                let k = choose|k: int| 0 <= k < a0.len() && a0[k] == z;
                assert(a[k] == z);
                assert(a[k] < a[a.len() - 1]);
                assert(a.contains(z));
                let m = choose|m: int| 0 <= m < b.len() && b[m] == z;
                assert(b0[m] == z);
            }
            if b0.contains(z) {
                let k = choose|k: int| 0 <= k < b0.len() && b0[k] == z;
                assert(b[k] == z);
                assert(b[k] < b[b.len() - 1]);
                assert(b.contains(z));
                assert(a.contains(z));
                let m = choose|m: int| 0 <= m < a.len() && a[m] == z;
                assert(a0[m] == z);
            }
        }
        lemma_ascending_same(a0, b0);
        assert(a =~= a0.push(x));
        assert(b =~= b0.push(x));
    }
}

/// Two graphs of the same function present the same successors.
proof fn lemma_presented(s: SemanticGraph, t: SemanticGraph, ssa: SsaFunction, i: int, x: u32)
    requires
        s.describes(ssa),
        t.describes(ssa),
        0 <= i < ssa.blocks@.len(),
        presented(s, ssa, i, x),
    ensures
        presented(t, ssa, i, x),
{
    assert(rows(s.succ@).len() == s.succ@.len());
    assert(rows(t.succ@).len() == t.succ@.len());
    assert(ssa.succs().len() == ssa.blocks@.len());
    assert(rows(s.succ@)[i] == s.succ@[i]@);
    assert(rows(t.succ@)[i] == t.succ@[i]@);
    assert(s.succ@[i]@ == t.succ@[i]@);
    assert forall|k: int| 0 <= k < s.succ@[i]@.len() implies #[trigger] keeps(s, ssa, i, k) == keeps(t, ssa, i, k)
        && target(s, ssa, i, k) == target(t, ssa, i, k) by {
        let y = target(s, ssa, i, k);
        assert(s.cookie_overlay@.contains(y) <==> t.cookie_overlay@.contains(y));
    }
    let k = choose|k: int|
        0 <= k < s.succ@[i]@.len() && #[trigger] target(s, ssa, i, k) == x && (keeps(s, ssa, i, k) || !keeps_any(
            s,
            ssa,
            i,
        ));
    assert(keeps(s, ssa, i, k) == keeps(t, ssa, i, k));
    if keeps_any(t, ssa, i) && !keeps_any(s, ssa, i) {
        let m = choose|m: int| 0 <= m < t.succ@[i]@.len() && #[trigger] keeps(t, ssa, i, m);
        assert(keeps(s, ssa, i, m));
    }
    assert(target(t, ssa, i, k) == x);
}

/// Two models of the same function have the same presentation graph.
proof fn lemma_same_graph(a: DualDecompModel, b: DualDecompModel, ssa: SsaFunction, switches: Seq<SwitchInfo>)
    requires
        a.models(ssa, switches),
        b.models(ssa, switches),
        ssa.blocks@.len() < u32::MAX,
    ensures
        rows(a.presentation.succ@) == rows(b.presentation.succ@),
        rows(a.presentation.pred@) == rows(b.presentation.pred@),
{
    let n = ssa.blocks@.len() as int;
    let p = rows(a.presentation.succ@);
    let q = rows(b.presentation.succ@);
    assert forall|i: int| 0 <= i < n implies p[i] == q[i] by {
        assert(p[i] == a.presentation.succ@[i]@);
        assert(q[i] == b.presentation.succ@[i]@);
        assert(ascending(a.presentation.succ@[i]@));
        assert(ascending(b.presentation.succ@[i]@));
        assert forall|x: u32| #[trigger] p[i].contains(x) <==> q[i].contains(x) by {
            assert(a.presentation.succ@[i]@.contains(x) <==> presented(a.semantic, ssa, i, x));
            assert(b.presentation.succ@[i]@.contains(x) <==> presented(b.semantic, ssa, i, x));
            if presented(a.semantic, ssa, i, x) {
                lemma_presented(a.semantic, b.semantic, ssa, i, x);
            }
            if presented(b.semantic, ssa, i, x) {
                lemma_presented(b.semantic, a.semantic, ssa, i, x);
            }
        }
        lemma_ascending_same(p[i], q[i]);
    }
    assert(p =~= q);
    let r = rows(a.presentation.pred@);
    let s = rows(b.presentation.pred@);
    assert forall|i: int| 0 <= i < n implies r[i] == s[i] by {
        assert(r[i] == a.presentation.pred@[i]@);
        assert(s[i] == b.presentation.pred@[i]@);
        assert(ascending(a.presentation.pred@[i]@));
        assert(ascending(b.presentation.pred@[i]@));
        assert forall|x: u32| #[trigger] r[i].contains(x) <==> s[i].contains(x) by {
            if r[i].contains(x) {
                let k = choose|k: int| 0 <= k < r[i].len() && r[i][k] == x;
                assert(r[i][k] < r.len());
                assert(edge(p, x, i as u32) <==> edge(r, i as u32, x));
                assert(edge(q, x, i as u32) <==> edge(s, i as u32, x));
            }
            if s[i].contains(x) {
                let k = choose|k: int| 0 <= k < s[i].len() && s[i][k] == x;
                assert(s[i][k] < s.len());
                assert(edge(p, x, i as u32) <==> edge(r, i as u32, x));
                assert(edge(q, x, i as u32) <==> edge(s, i as u32, x));
            }
        }
        lemma_ascending_same(r[i], s[i]);
    }
    assert(r =~= s);
}

/// Two models of the same function have the same regions.
proof fn lemma_same_regions(a: DualDecompModel, b: DualDecompModel, ssa: SsaFunction, switches: Seq<SwitchInfo>)
    requires
        a.models(ssa, switches),
        b.models(ssa, switches),
        ssa.blocks@.len() < u32::MAX,
    ensures
        region_views(a.regions@) == region_views(b.regions@),
{
    lemma_same_graph(a, b, ssa, switches);
    let f = flow_of(rows(a.presentation.succ@), rows(a.presentation.pred@));
    assert forall|h: u32|
        (#[trigger] a.regions@.dom().contains(h) <==> b.regions@.dom().contains(h)) && (a.regions@.dom().contains(h)
            ==> a.regions@[h]@ == b.regions@[h]@) by {
        let r = region_at(ssa, switches, f, h as int, true);
        assert(b.regions@.dom().contains(h) || !b.regions@.dom().contains(h));
    }
    assert(region_views(a.regions@).dom() =~= region_views(b.regions@).dom());
    assert(region_views(a.regions@) =~= region_views(b.regions@));
}

/// Two models of the same function see the same effects.
proof fn lemma_same_effects(a: SemanticGraph, b: SemanticGraph, ssa: SsaFunction, h: u32)
    requires
        a.describes(ssa),
        b.describes(ssa),
    ensures
        kinds_of(a.effects@, h) == kinds_of(b.effects@, h),
{
    assert(a.effects@.dom().contains(h) <==> b.effects@.dom().contains(h));
    if a.effects@.dom().contains(h) {
        assert(a.effects@[h]@ == block_effects(ssa, h));
        assert(b.effects@[h]@ == block_effects(ssa, h));
    }
    assert(kinds_of(a.effects@, h) =~= kinds_of(b.effects@, h));
}

/// The region at a block, by the views.
proof fn lemma_same_region(a: DualDecompModel, b: DualDecompModel, h: u32)
    requires
        region_views(a.regions@) == region_views(b.regions@),
    ensures
        a.regions@.dom().contains(h) == b.regions@.dom().contains(h),
        a.regions@.dom().contains(h) ==> a.regions@[h]@ == b.regions@[h]@,
{
    assert(region_views(a.regions@).dom().contains(h) == a.regions@.dom().contains(h));
    assert(region_views(b.regions@).dom().contains(h) == b.regions@.dom().contains(h));
    if a.regions@.dom().contains(h) {
        assert(region_views(a.regions@)[h] == a.regions@[h]@);
        assert(region_views(b.regions@)[h] == b.regions@[h]@);
    }
}

proof fn lemma_same_moves(a: DualDecompModel, b: DualDecompModel, n: int)
    requires
        region_views(a.regions@) == region_views(b.regions@),
        n <= every_block(),
    ensures
        moves_below(a.regions@, n) == moves_below(b.regions@, n),
    decreases n,
{
    if n > 0 {
        lemma_same_moves(a, b, n - 1);
        lemma_same_region(a, b, (n - 1) as u32);
    }
}

/// Two models of the same function decide a move alike.
proof fn lemma_same_rejection(a: DualDecompModel, b: DualDecompModel, ssa: SsaFunction, mv: RewriteMove)
    requires
        a.semantic.describes(ssa),
        b.semantic.describes(ssa),
        region_views(a.regions@) == region_views(b.regions@),
    ensures
        rejection(a, mv) == rejection(b, mv),
{
    match mv {
        RewriteMove::InvertBranch { header } => {
            lemma_same_region(a, b, header);
            if a.regions@.dom().contains(header) {
                if let RegionView::IfElse { then_entry, else_entry, .. } = a.regions@[header]@ {
                    lemma_same_effects(a.semantic, b.semantic, ssa, then_entry);
                    lemma_same_effects(a.semantic, b.semantic, ssa, else_entry);
                }
            }
        },
        RewriteMove::EarlyReturnExtract { header } => {
            lemma_same_region(a, b, header);
            if a.regions@.dom().contains(header) {
                if let RegionView::IfElse { then_entry, else_entry, .. } = a.regions@[header]@ {
                    lemma_same_effects(a.semantic, b.semantic, ssa, then_entry);
                    lemma_same_effects(a.semantic, b.semantic, ssa, else_entry);
                }
            }
        },
        RewriteMove::FactorPureSharedTail { .. } => {},
        RewriteMove::DuplicatePureBlock { block } => {
            lemma_same_effects(a.semantic, b.semantic, ssa, block);
        },
    }
}

/// The same moves give the same regions.
proof fn lemma_same_outcome(a: DualDecompModel, b: DualDecompModel, ssa: SsaFunction, s: Seq<(RewriteMove, RewriteOutcome)>, t: Seq<(RewriteMove, RewriteOutcome)>, n: int, regions: Map<u32, RegionView>)
    requires
        a.semantic.describes(ssa),
        b.semantic.describes(ssa),
        0 <= n <= s.len(),
        s.len() == t.len(),
        forall|i: int| 0 <= i < s.len() ==> (#[trigger] s[i]).0 == t[i].0 && (s[i].1 is Applied <==> t[i].1 is Applied),
    ensures
        after_moves(a.semantic.effects@, s, n, regions) == after_moves(b.semantic.effects@, t, n, regions),
    decreases n,
{
    if n > 0 {
        lemma_same_outcome(a, b, ssa, s, t, n - 1, regions);
        let rest = after_moves(a.semantic.effects@, s, n - 1, regions);
        let mv = s[n - 1].0;
        assert(t[n - 1].0 == mv);
        assert forall|r: RegionView| #[trigger] rewritten(a.semantic.effects@, mv, r) == rewritten(
            b.semantic.effects@,
            mv,
            r,
        ) by {
            if let RegionView::IfElse { then_entry, else_entry, .. } = r {
                lemma_same_effects(a.semantic, b.semantic, ssa, then_entry);
                lemma_same_effects(a.semantic, b.semantic, ssa, else_entry);
            }
        }
        assert(after_move(a.semantic.effects@, mv, rest) == after_move(b.semantic.effects@, mv, rest));
    }
}

/// A function has one structured text: printing it again gives the same.
pub proof fn law_core_text_is_one(ssa: SsaFunction, types: Option<&TypeRecoveryReport>, sig: Option<FunctionSignature>, bitness: u32, switches: Seq<SwitchInfo>, names: Names, x: Seq<char>, y: Seq<char>)
    requires
        ssa.blocks@.len() < u32::MAX,
        core_text(ssa, types, sig, bitness, switches, names, x),
        core_text(ssa, types, sig, bitness, switches, names, y),
    ensures
        x == y,
{
    let (a, s) = choose|a: DualDecompModel, s: Seq<(RewriteMove, RewriteOutcome)>| #[trigger]
        written_with(a, s, ssa, types, sig, bitness, switches, names, x);
    let (b, t) = choose|b: DualDecompModel, t: Seq<(RewriteMove, RewriteOutcome)>| #[trigger]
        written_with(b, t, ssa, types, sig, bitness, switches, names, y);
    lemma_same_regions(a, b, ssa, switches);
    lemma_same_moves(a, b, every_block());
    let moves = moves_below(a.regions@, every_block());
    assert forall|i: int| 0 <= i < s.len() implies (#[trigger] s[i]).0 == t[i].0 && (s[i].1 is Applied <==> t[i].1 is Applied) by {
        assert(t[i].0 == moves[i] && t[i].1@ == outcome_of(b, moves[i]));
        lemma_same_rejection(a, b, ssa, moves[i]);
        assert(s[i].1 is Applied <==> s[i].1@ is Applied);
        assert(t[i].1 is Applied <==> t[i].1@ is Applied);
    }
    lemma_same_outcome(a, b, ssa, s, t, s.len() as int, region_views(a.regions@));
}

/// Decompiling a function again gives the same text.
pub proof fn law_decompile_is_stable(ssa: SsaFunction, types: Option<&TypeRecoveryReport>, sig: Option<FunctionSignature>, bitness: u32, switches: Seq<SwitchInfo>, names: Names, x: Seq<char>, y: Seq<char>)
    requires
        ssa.blocks@.len() < u32::MAX,
    ensures
        pure_text(ssa, types, sig, bitness, switches, names, x) && pure_text(
            ssa,
            types,
            sig,
            bitness,
            switches,
            names,
            y,
        ) ==> x == y,
        full_text(ssa, types, sig, bitness, switches, names, x) && full_text(
            ssa,
            types,
            sig,
            bitness,
            switches,
            names,
            y,
        ) ==> x == y,
{
    if pure_text(ssa, types, sig, bitness, switches, names, x) && pure_text(ssa, types, sig, bitness, switches, names, y) {
        lemma_pure_is_one(ssa, types, sig, bitness, switches, names, x, y);
    }
    if full_text(ssa, types, sig, bitness, switches, names, x) && full_text(ssa, types, sig, bitness, switches, names, y) {
        let p = choose|p: Seq<char>| #[trigger]
            pure_text(ssa, types, sig, bitness, switches, names, p) && x == legacy_semantic(p);
        let q = choose|q: Seq<char>| #[trigger]
            pure_text(ssa, types, sig, bitness, switches, names, q) && y == legacy_semantic(q);
        lemma_pure_is_one(ssa, types, sig, bitness, switches, names, p, q);
    }
}

proof fn lemma_pure_is_one(ssa: SsaFunction, types: Option<&TypeRecoveryReport>, sig: Option<FunctionSignature>, bitness: u32, switches: Seq<SwitchInfo>, names: Names, x: Seq<char>, y: Seq<char>)
    requires
        ssa.blocks@.len() < u32::MAX,
        pure_text(ssa, types, sig, bitness, switches, names, x),
        pure_text(ssa, types, sig, bitness, switches, names, y),
    ensures
        x == y,
{
    let p = choose|p: Seq<char>| #[trigger]
        core_text(ssa, types, sig, bitness, switches, names, p) && x == cfg_only(p);
    let q = choose|q: Seq<char>| #[trigger]
        core_text(ssa, types, sig, bitness, switches, names, q) && y == cfg_only(q);
    law_core_text_is_one(ssa, types, sig, bitness, switches, names, p, q);
}

} // verus!
