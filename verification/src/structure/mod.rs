//! Control-flow structuring and pseudo-C presentation.

pub mod cfg_norm;
pub mod contracts;
pub mod coverage;
pub mod effects;
pub mod emit;
pub mod emit_core;
pub mod emit_region;
pub mod expr;
pub mod folding;
pub mod found;
pub mod gotos;
pub mod jumps;
pub mod ladder;
pub mod meaning;
pub mod names;
pub mod noise;
pub mod pdom;
pub mod polarity;
pub mod polish;
pub mod predicate;
pub mod pieces;
pub mod presentation;
pub mod rd_model;
pub mod readings;
pub mod region;
pub mod return_value;
pub mod rewrite;
pub mod statements;
pub mod uniqueness;
pub mod substituted;
pub mod visible;

pub use emit::{decompile, decompile_structured_pure, legacy_polish_pipeline, structure_emit_core, NameCtx};
pub use presentation::{apply_presentation, PresentationTier};
pub use rd_model::DualDecompModel;
pub use region::SwitchInfo;
