//! Names of values: parameters, registers, stack slots, globals and temporaries.

use vstd::prelude::*;
use std::collections::HashMap;
use crate::maps::lookup;
use crate::normalize::{gpr_param_rank, param_rank};
use crate::numbers::{dec, dec_text, hex, hex_text, magnitude};
use crate::ssa::lower::{reg_chars, reg_text};
use crate::ssa::{Location, SsaVar};
use crate::text::{chars_of, first_piece, first_piece_lit, opt_text, push_lit, push_text};
use crate::types::{FunctionSignature, StackFrame, StackVariable};

verus! {

broadcast use vstd::std_specs::hash::group_hash_axioms;

/// What is known of names: the stack frame, the signature and the globals.
pub struct NameCtx<'a> {
    pub frame: Option<&'a StackFrame>,
    pub sig: Option<&'a FunctionSignature>,
    /// Symbol of each address.
    pub global_names: HashMap<u64, String>,
    /// Address of the global that an instruction accesses.
    pub insn_to_global: HashMap<u64, u64>,
}

/// A naming context as a value.
pub ghost struct Names {
    pub frame: Option<StackFrame>,
    pub sig: Option<FunctionSignature>,
    pub globals: Map<u64, Seq<char>>,
    pub accessed: Map<u64, u64>,
}

impl<'a> View for NameCtx<'a> {
    type V = Names;

    open spec fn view(&self) -> Names {
        Names {
            frame: match self.frame {
                Some(f) => Some(*f),
                None => None,
            },
            sig: match self.sig {
                Some(s) => Some(*s),
                None => None,
            },
            globals: self.global_names@.map_values(|s: String| s@),
            accessed: self.insn_to_global@,
        }
    }
}

impl NameCtx<'static> {
    /// A context in which nothing has a name.
    pub fn empty() -> (r: NameCtx<'static>)
        ensures
            r@.frame is None,
            r@.sig is None,
            r@.globals == Map::<u64, Seq<char>>::empty(),
            r@.accessed == Map::<u64, u64>::empty(),
    {
        let r = NameCtx {
            frame: None,
            sig: None,
            global_names: HashMap::new(),
            insn_to_global: HashMap::new(),
        };
        assert(r@.globals =~= Map::empty());
        r
    }
}

impl<'a> NameCtx<'a> {
    /// The symbol at an address.
    pub fn global(&self, va: u64) -> (r: Option<Vec<char>>)
        ensures
            opt_text(r) == lookup(self@.globals, va),
    {
        match self.global_names.get(&va) {
            Some(n) => Some(chars_of(n.as_str())),
            None => None,
        }
    }
}

/// A symbol without its type annotation.
pub open spec fn bare_symbol(n: Seq<char>) -> Seq<char> {
    first_piece(n, ":"@)
}

/// Position of the first variable from `i` on at this displacement.
pub open spec fn variable_at(vars: Seq<StackVariable>, disp: i64, i: int) -> Option<int>
    decreases vars.len() - i,
{
    if i < 0 || i >= vars.len() {
        None
    } else if vars[i].offset == disp {
        Some(i)
    } else {
        variable_at(vars, disp, i + 1)
    }
}

/// The name that a list of variables gives to a displacement.
pub open spec fn variable_name(vars: Seq<StackVariable>, disp: i64) -> Option<Seq<char>> {
    match variable_at(vars, disp, 0) {
        Some(i) => match vars[i].name {
            Some(n) => if n@.len() > 0 {
                Some(n@)
            } else {
                None
            },
            None => None,
        },
        None => None,
    }
}

/// Name of a stack slot: the frame's, or one made from its displacement.
pub open spec fn slot_text(disp: i64, names: Names) -> Seq<char> {
    let named = match names.frame {
        Some(f) => if disp > 0 {
            variable_name(f.args@, disp)
        } else {
            variable_name(f.locals@, disp)
        },
        None => None,
    };
    match named {
        Some(n) => n,
        None => if disp < 0 {
            "local_"@ + hex((-disp) as nat)
        } else {
            "arg_"@ + hex(disp as nat)
        },
    }
}

fn find_variable(vars: &Vec<StackVariable>, disp: i64) -> (r: Option<Vec<char>>)
    ensures
        opt_text(r) == variable_name(vars@, disp),
{
    let mut i: usize = 0;
    while i < vars.len()
        invariant
            i <= vars@.len(),
            variable_at(vars@, disp, i as int) == variable_at(vars@, disp, 0),
        decreases vars@.len() - i,
    {
        if vars[i].offset == disp {
            return match &vars[i].name {
                Some(n) => {
                    let t = chars_of(n.as_str());
                    if t.len() > 0 {
                        Some(t)
                    } else {
                        None
                    }
                },
                None => None,
            };
        }
        i += 1;
    }
    None
}

pub fn stack_slot_name(disp: i64, names: &NameCtx<'_>) -> (r: Vec<char>)
    ensures
        r@ == slot_text(disp, names@),
{
    let named: Option<Vec<char>> = match names.frame {
        Some(f) => if disp > 0 {
            find_variable(&f.args, disp)
        } else {
            find_variable(&f.locals, disp)
        },
        None => None,
    };
    if let Some(n) = named {
        return n;
    }
    if disp < 0 {
        let mut t = chars_of("local_");
        push_text(&mut t, &hex_text(magnitude(disp)));
        t
    } else {
        let mut t = chars_of("arg_");
        push_text(&mut t, &hex_text(disp as u64));
        t
    }
}

/// The formal parameter that a register holds on entry, if it has a name.
pub open spec fn formal(sv: SsaVar, base_offset: u64, names: Names) -> Option<Seq<char>> {
    match (param_rank(base_offset), names.sig) {
        (Some(rank), Some(sig)) => if sv.version == 1 && rank < sig.params@.len()
            && sig.params@[rank as int].0@.len() > 0 {
            Some(sig.params@[rank as int].0@)
        } else {
            None
        },
        _ => None,
    }
}

/// `base` with its version, where that is beyond the first.
pub open spec fn versioned(base: Seq<char>, version: u32) -> Seq<char> {
    if version > 1 {
        base + "_"@ + dec(version as nat)
    } else {
        base
    }
}

/// Name of a value at the instruction at `va`.
pub open spec fn name_text(sv: SsaVar, names: Names, va: u64) -> Seq<char> {
    match sv.location {
        Location::Register { base_offset } => match formal(sv, base_offset, names) {
            Some(n) => n,
            None => versioned(
                if base_offset == 0x20 || base_offset == 0x28 {
                    "fp"@
                } else {
                    reg_text(base_offset)
                },
                sv.version,
            ),
        },
        Location::StackSlot { disp, .. } => slot_text(disp, names),
        Location::RawRam => match lookup(names.accessed, va) {
            Some(g) => match lookup(names.globals, g) {
                Some(n) => bare_symbol(n),
                None => "mem_"@ + dec(sv.version as nat),
            },
            None => "mem_"@ + dec(sv.version as nat),
        },
        Location::Unique { instruction_va, offset, size } => versioned(
            "t_"@ + hex(offset as nat) + "_"@ + dec(size as nat) + "@"@ + hex(instruction_va as nat),
            sv.version,
        ),
    }
}

fn with_version(base: Vec<char>, version: u32) -> (r: Vec<char>)
    ensures
        r@ == versioned(base@, version),
{
    let mut t = base;
    if version > 1 {
        push_lit(&mut t, "_");
        push_text(&mut t, &dec_text(version as u64));
    }
    t
}

pub fn name_of(sv: &SsaVar, names: &NameCtx<'_>, va: u64) -> (r: Vec<char>)
    ensures
        r@ == name_text(*sv, names@, va),
{
    match sv.location {
        Location::Register { base_offset } => {
            if sv.version == 1 {
                if let Some(rank) = gpr_param_rank(base_offset) {
                    if let Some(sig) = names.sig {
                        if rank < sig.params.len() {
                            let n = chars_of(sig.params[rank].0.as_str());
                            if n.len() > 0 {
                                return n;
                            }
                        }
                    }
                }
            }
            let base = if base_offset == 0x20 || base_offset == 0x28 {
                chars_of("fp")
            } else {
                reg_chars(base_offset)
            };
            with_version(base, sv.version)
        },
        Location::StackSlot { disp, .. } => stack_slot_name(disp, names),
        Location::RawRam => {
            if let Some(g) = names.insn_to_global.get(&va) {
                if let Some(n) = names.global(*g) {
                    return first_piece_lit(&n, ":");
                }
            }
            let mut t = chars_of("mem_");
            push_text(&mut t, &dec_text(sv.version as u64));
            t
        },
        Location::Unique { instruction_va, offset, size } => {
            let mut t = chars_of("t_");
            push_text(&mut t, &hex_text(offset));
            push_lit(&mut t, "_");
            push_text(&mut t, &dec_text(size as u64));
            push_lit(&mut t, "@");
            push_text(&mut t, &hex_text(instruction_va));
            with_version(t, sv.version)
        },
    }
}

} // verus!
