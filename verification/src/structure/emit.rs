//! Decompilation of a function to structured text.

use vstd::prelude::*;
use crate::ssa::SsaFunction;
use crate::structure::emit_core::{core_text, emit_core, emittable, signature_of};
use crate::structure::names::Names;
use crate::structure::presentation::{apply_cfg_only, apply_legacy_semantic, apply_presentation, cfg_only, legacy_semantic, present_cfg, present_semantic, presented, PresentationTier};
use crate::structure::region::SwitchInfo;
use crate::text::string_of;
use crate::types::{FunctionSignature, TypeRecoveryReport};

pub use crate::structure::emit_core::structure_emit_core;
pub use crate::structure::names::NameCtx;

verus! {

/// `text` is the function with control-flow presentation.
pub open spec fn pure_text(ssa: SsaFunction, types: Option<&TypeRecoveryReport>, sig: Option<FunctionSignature>, bitness: u32, switches: Seq<SwitchInfo>, names: Names, text: Seq<char>) -> bool {
    exists|core: Seq<char>| #[trigger]
        core_text(ssa, types, sig, bitness, switches, names, core) && text == cfg_only(core)
}

/// `text` is the function with every presentation pass.
pub open spec fn full_text(ssa: SsaFunction, types: Option<&TypeRecoveryReport>, sig: Option<FunctionSignature>, bitness: u32, switches: Seq<SwitchInfo>, names: Names, text: Seq<char>) -> bool {
    exists|pure: Seq<char>| #[trigger]
        pure_text(ssa, types, sig, bitness, switches, names, pure) && text == legacy_semantic(pure)
}

/// Structured text with control-flow presentation only.
pub fn decompile_structured_pure(ssa: &SsaFunction, types: Option<&TypeRecoveryReport>, sig: Option<&FunctionSignature>, bitness: u32, switches: &[SwitchInfo], names: &NameCtx<'_>) -> (r: String)
    requires
        emittable(*ssa, types, switches@),
    ensures
        pure_text(*ssa, types, signature_of(sig), bitness, switches@, names@, r@),
{
    let core = emit_core(ssa, types, sig, bitness, switches, names);
    string_of(&present_cfg(&core))
}

/// Structured text with every presentation pass.
pub fn decompile(ssa: &SsaFunction, types: Option<&TypeRecoveryReport>, sig: Option<&FunctionSignature>, bitness: u32, switches: &[SwitchInfo], names: &NameCtx<'_>) -> (r: String)
    requires
        emittable(*ssa, types, switches@),
    ensures
        full_text(*ssa, types, signature_of(sig), bitness, switches@, names@, r@),
{
    let core = emit_core(ssa, types, sig, bitness, switches, names);
    let pure = present_cfg(&core);
    proof {
        assert(pure_text(*ssa, types, signature_of(sig), bitness, switches@, names@, pure@));
    }
    string_of(&present_semantic(&pure))
}

/// Control-flow presentation of structured text.
pub fn structure_presentation_pipeline(src: &str) -> (r: String)
    ensures
        r@ == cfg_only(src@),
{
    apply_cfg_only(src)
}

/// Rewrites of what presented text says.
pub fn legacy_semantic_polish(src: &str) -> (r: String)
    ensures
        r@ == legacy_semantic(src@),
{
    apply_legacy_semantic(src)
}

/// Every presentation pass on structured text.
pub fn legacy_polish_pipeline(src: &str) -> (r: String)
    ensures
        r@ == presented(src@, PresentationTier::LegacySemantic),
{
    apply_presentation(src, PresentationTier::LegacySemantic)
}

/// What `decompile` gives is every presentation pass on what `structure_emit_core`
/// gives.
pub proof fn law_decompile_presents_core(ssa: SsaFunction, types: Option<&TypeRecoveryReport>, sig: Option<FunctionSignature>, bitness: u32, switches: Seq<SwitchInfo>, names: Names, text: Seq<char>)
    ensures
        full_text(ssa, types, sig, bitness, switches, names, text) <==> exists|core: Seq<char>| #[trigger]
            core_text(ssa, types, sig, bitness, switches, names, core) && text == presented(
                core,
                PresentationTier::LegacySemantic,
            ),
{
    if full_text(ssa, types, sig, bitness, switches, names, text) {
        let pure = choose|pure: Seq<char>| #[trigger]
            pure_text(ssa, types, sig, bitness, switches, names, pure) && text == legacy_semantic(pure);
        let core = choose|core: Seq<char>| #[trigger]
            core_text(ssa, types, sig, bitness, switches, names, core) && pure == cfg_only(core);
        assert(core_text(ssa, types, sig, bitness, switches, names, core));
    }
    if exists|core: Seq<char>| #[trigger]
        core_text(ssa, types, sig, bitness, switches, names, core) && text == presented(
            core,
            PresentationTier::LegacySemantic,
        ) {
        let core = choose|core: Seq<char>| #[trigger]
            core_text(ssa, types, sig, bitness, switches, names, core) && text == presented(
                core,
                PresentationTier::LegacySemantic,
            );
        assert(pure_text(ssa, types, sig, bitness, switches, names, cfg_only(core)));
    }
}

} // verus!
