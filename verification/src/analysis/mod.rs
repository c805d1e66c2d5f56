//! Analyses over functions in SSA form.

pub mod evidence;
pub mod points_to;
