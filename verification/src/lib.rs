//! Decompiler core: from p-code to SSA form, to a semantic representation and to
//! structured text.

pub mod analysis;
pub mod cache;
pub mod decoding;
pub mod graph;
pub mod hir;
pub mod lift;
pub mod lines;
pub mod maps;
pub mod normalize;
pub mod numbers;
pub mod pcode;
pub mod program;
pub mod sets;
pub mod ssa;
pub mod structure;
pub mod text;
pub mod types;
pub mod wording;

pub use cache::DecompileCacheKey;
