//! Types, frames and signatures that analysis has recovered for a function.

use vstd::prelude::*;
use crate::maps::VarMap;

verus! {

/// A C-like type of a signature or a stack variable.
#[derive(Debug)]
pub enum DataType {
    Void,
    Bool,
    Int(u32),
    Uint(u32),
    Float,
    Double,
    Ptr(Box<DataType>),
    Array(Box<DataType>, u64),
    FuncPtr { params: Vec<DataType>, ret: Box<DataType> },
    Named(String),
    Unknown(u32),
}

/// A variable of a stack frame, by its displacement from the frame register.
#[derive(Debug)]
pub struct StackVariable {
    pub name: Option<String>,
    pub ty: DataType,
    pub offset: i64,
    pub size: u32,
}

/// The layout of a stack frame.
#[derive(Debug)]
pub struct StackFrame {
    pub local_size: u64,
    pub arg_size: u64,
    pub return_addr_offset: u64,
    pub locals: Vec<StackVariable>,
    pub args: Vec<StackVariable>,
}

/// Name, parameters and return type of a function.
#[derive(Debug)]
pub struct FunctionSignature {
    pub name: String,
    pub params: Vec<(String, DataType)>,
    pub ret: DataType,
    pub calling_conv: Option<String>,
}

/// What is known of the type of one SSA value.
#[derive(Debug)]
pub enum TyGuess {
    Unknown,
    Int(u32),
    Uint(u32),
    Bool,
    Float,
    Double,
    Ptr(Box<TyGuess>),
}

/// A field of an inferred aggregate.
#[derive(Clone, Copy, Debug)]
pub struct AggregateField {
    pub offset: u32,
    pub size: u32,
}

/// An aggregate inferred from stack accesses. `base` is the displacement of its
/// first byte, where the frame holds it.
#[derive(Clone, Debug)]
pub struct Aggregate {
    pub name: String,
    pub size: u64,
    pub fields: Vec<AggregateField>,
    pub base: Option<i64>,
}

/// What type recovery found out about one function.
#[derive(Debug)]
pub struct TypeRecoveryReport {
    pub function_va: u64,
    pub def_types: VarMap<TyGuess>,
    pub aggregates: Vec<Aggregate>,
}

impl Default for TypeRecoveryReport {
    fn default() -> (r: TypeRecoveryReport)
        ensures
            r.function_va == 0,
            r.def_types@ == Map::<crate::ssa::SsaVar, TyGuess>::empty(),
            r.aggregates@.len() == 0,
    {
        TypeRecoveryReport { function_va: 0, def_types: VarMap::new(), aggregates: Vec::new() }
    }
}

} // verus!
