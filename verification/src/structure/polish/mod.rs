//! Rewrites of printed text towards the forms a reader expects.

pub mod flags;
pub mod guards;
pub mod hresult;
pub mod keywords;
pub mod resources;
pub mod values;
