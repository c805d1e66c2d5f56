//! Presentation tiers over structured text.

use vstd::prelude::*;
use crate::lines::lines;
use crate::structure::gotos::{cookies_stripped, fold_goto_return_and_trivial_rejoins, inline_leaf_goto_targets, leaves_inlined, loops_recovered, minimize_gotos, minimized, returns_folded, rewrite_label_backedge_to_while, strip_security_cookie_gotos};
use crate::structure::ladder::{fold_eq_ladder_to_switch, ladder_folded};
use crate::structure::noise::{quieted, strip_flag_helper_noise};
use crate::structure::polish::flags::{less_paired, polish_dual_flag_zero_tests, polish_flag_lt_compares, zero_tests_paired};
use crate::structure::polish::guards::{guards_flat, polish_guard_returns, polish_hoist_null_guard_returns, polish_hoist_rich_xor_return, rich_hoisted, status_hoisted};
use crate::structure::polish::hresult::{codes_restored, polish_e_pointer_returns};
use crate::structure::polish::keywords::{if_rounds, loop_guarded, polish_loop_with_guard_if, polish_nested_if_keyword, polish_nested_while_keyword, polish_switch_with_guard_if, switch_guarded, while_rounds};
use crate::structure::polish::resources::{pairs_named, polish_paired_cleanup_destroys, polish_resource_pair_names, teardown_marked};
use crate::structure::polish::values::{checksums_restored, comparisons_branched, operations_branched, polish_compare_return_to_if, polish_crc_xor_return, polish_pure_op_return_to_if, polish_sentinel_literals, polish_zero_returns, sentinels_plain, zeros_plain};
use crate::text::{chars_of, string_of};

verus! {

/// Which presentation passes run on structured text.
#[derive(Debug, Clone, Copy, PartialEq, Eq, Structural)]
pub enum PresentationTier {
    /// Control flow only.
    CfgOnly,
    /// Control flow, then rewrites of what the text says.
    LegacySemantic,
}

/// The text with fewer jumps, switches for ladders, loops for jumps back and without
/// flag noise. No value, constant or call changes hands here.
pub open spec fn cfg_only(t: Seq<char>) -> Seq<char> {
    quieted(
        ladder_folded(
            loops_recovered(cookies_stripped(leaves_inlined(returns_folded(minimized(t))))),
        ),
    )
}

/// The text with values as a reader expects them: the first half of the rewrites.
pub open spec fn values_polished(t: Seq<char>) -> Seq<char> {
    let a = sentinels_plain(t);
    let b = zeros_plain(lines(a), lines(a).len() as int);
    let c = less_paired(lines(b), lines(b).len() as int);
    operations_branched(comparisons_branched(guards_flat(zero_tests_paired(c))))
}

/// The text after all rewrites of what it says.
pub open spec fn legacy_semantic(t: Seq<char>) -> Seq<char> {
    let d = pairs_named(teardown_marked(loop_guarded(switch_guarded(values_polished(t)))));
    let e = codes_restored(checksums_restored(rich_hoisted(status_hoisted(d))));
    if_rounds(while_rounds(e, 4), 6)
}

/// The text of a tier.
pub open spec fn presented(t: Seq<char>, tier: PresentationTier) -> Seq<char> {
    match tier {
        PresentationTier::CfgOnly => cfg_only(t),
        PresentationTier::LegacySemantic => legacy_semantic(cfg_only(t)),
    }
}

/// Runs the control-flow passes.
pub fn present_cfg(t: &Vec<char>) -> (r: Vec<char>)
    ensures
        r@ == cfg_only(t@),
{
    let a = minimize_gotos(t);
    let b = fold_goto_return_and_trivial_rejoins(&a);
    let c = inline_leaf_goto_targets(&b);
    let d = strip_security_cookie_gotos(&c);
    let e = rewrite_label_backedge_to_while(&d);
    let f = fold_eq_ladder_to_switch(&e);
    strip_flag_helper_noise(&f)
}

/// Runs the rewrites of what the text says.
pub fn present_semantic(t: &Vec<char>) -> (r: Vec<char>)
    ensures
        r@ == legacy_semantic(t@),
{
    let a = polish_sentinel_literals(t);
    let b = polish_zero_returns(&a);
    let c = polish_flag_lt_compares(&b);
    let d = polish_dual_flag_zero_tests(&c);
    let e = polish_guard_returns(&d);
    let f = polish_compare_return_to_if(&e);
    let g = polish_pure_op_return_to_if(&f);
    let h = polish_switch_with_guard_if(&g);
    let i = polish_loop_with_guard_if(&h);
    let j = polish_paired_cleanup_destroys(&i);
    let k = polish_resource_pair_names(&j);
    let l = polish_hoist_null_guard_returns(&k);
    let m = polish_hoist_rich_xor_return(&l);
    let n = polish_crc_xor_return(&m);
    let o = polish_e_pointer_returns(&n);
    let p = polish_nested_while_keyword(&o);
    polish_nested_if_keyword(&p)
}

/// Applies a tier to structured text.
pub fn apply_presentation(core: &str, tier: PresentationTier) -> (r: String)
    ensures
        r@ == presented(core@, tier),
{
    let cfg = present_cfg(&chars_of(core));
    match tier {
        PresentationTier::CfgOnly => string_of(&cfg),
        PresentationTier::LegacySemantic => string_of(&present_semantic(&cfg)),
    }
}

/// Control-flow presentation only.
pub fn apply_cfg_only(src: &str) -> (r: String)
    ensures
        r@ == cfg_only(src@),
{
    string_of(&present_cfg(&chars_of(src)))
}

/// Rewrites of what the text says, and nothing else.
pub fn apply_legacy_semantic(src: &str) -> (r: String)
    ensures
        r@ == legacy_semantic(src@),
{
    string_of(&present_semantic(&chars_of(src)))
}

/// The upper tier is the lower one followed by the rewrites of what the text says.
pub proof fn law_tiers_compose(t: Seq<char>)
    ensures
        presented(t, PresentationTier::LegacySemantic) == legacy_semantic(
            presented(t, PresentationTier::CfgOnly),
        ),
{
}

} // verus!
