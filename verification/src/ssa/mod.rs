//! SSA form over per-instruction P-code: storage locations, versioned
//! variables, phi nodes and the functions built from them.

use vstd::prelude::*;
use pcode_ir::PcodeOp;
use crate::pcode::{op_view, PcodeView};

pub mod builder;
pub mod cfg;
pub mod dominance;
pub mod lower;
pub mod phi;
pub mod preserved;
pub mod reaching;
pub mod reach;
pub mod rename;
pub mod simplify;
pub mod storage;
pub mod versions;

pub use crate::ssa::builder::{build_ssa_with_call_abi_inputs, verify_no_uninitialized_register_uses};
pub use crate::ssa::lower::CallAbiInputs;
pub use crate::ssa::phi::collect_def_blocks;
pub use crate::ssa::reach::{all_locations, reaching_register_at_return};
pub use crate::ssa::simplify::{simplify, SsaAnalysis};

verus! {

/// A storage location tracked by the SSA builder.
///
/// Registers are named by the base of their 8-byte container. Stack accesses
/// at a frame register plus a constant are slots; any other memory is one
/// opaque token. P-code temporaries belong to the instruction that uses them,
/// so equal offsets in two instructions are different locations.
#[derive(Clone, Copy, Debug, PartialEq, Eq, Hash, PartialOrd, Ord, Structural)]
pub enum Location {
    /// A register container.
    Register { base_offset: u64 },
    /// A stack slot, by frame register and displacement.
    StackSlot { base_reg: u64, disp: i64 },
    /// A temporary of one machine instruction.
    Unique { instruction_va: u64, offset: u64, size: u32 },
    /// Memory that was not resolved to a slot.
    RawRam,
}

impl Location {
    /// Whether this location is a temporary of one instruction, and so never
    /// live on entry and never carried over an edge.
    pub fn is_instruction_scoped(&self) -> (r: bool)
        ensures
            r == (*self is Unique),
    {
        matches!(self, Location::Unique { .. })
    }
}

/// A location together with the version that names one of its values.
#[derive(Clone, Copy, Debug, PartialEq, Eq, Hash, Structural)]
pub struct SsaVar {
    pub location: Location,
    pub version: u32,
}

/// A merged definition at the head of a block, with one argument per
/// predecessor; `None` where the location is undefined on that edge.
#[derive(Clone, Debug)]
pub struct PhiNode {
    pub out: SsaVar,
    pub args: Vec<Option<SsaVar>>,
}

/// A carried P-code operation or a phi.
#[derive(Clone, Debug)]
pub enum SsaOpKind {
    Phi(PhiNode),
    Pcode(PcodeOp),
}

/// One operation with its versioned definition and uses. Version `0` means
/// undefined on entry.
#[derive(Clone, Debug)]
pub struct SsaOp {
    pub va: u64,
    pub kind: SsaOpKind,
    pub def: Option<SsaVar>,
    pub uses: Vec<SsaVar>,
}

/// A basic block: its phis, then its P-code operations.
#[derive(Clone, Debug)]
pub struct SsaBlock {
    pub id: u32,
    pub entry_va: u64,
    pub ops: Vec<SsaOp>,
    pub predecessor_ids: Vec<u32>,
    pub successor_ids: Vec<u32>,
}

/// A function in SSA form; a block's `id` is its position.
#[derive(Clone, Debug)]
pub struct SsaFunction {
    pub entry_va: u64,
    pub bitness: u32,
    pub blocks: Vec<SsaBlock>,
    pub image_base: u64,
}

/// A P-code operation with the locations it defines and uses, not yet versioned.
#[derive(Clone, Debug)]
pub struct FlatOp {
    pub va: u64,
    pub op: PcodeOp,
    pub def: Option<Location>,
    pub uses: Vec<Location>,
}

// ─── The values of these types ──────────────────────────────────────────────

/// A phi as a value.
#[verifier::ext_equal]
pub ghost struct PhiView {
    pub out: SsaVar,
    pub args: Seq<Option<SsaVar>>,
}

pub ghost enum KindView {
    Phi(PhiView),
    Pcode(PcodeView),
}

/// An operation as a value.
#[verifier::ext_equal]
pub ghost struct OpView {
    pub va: u64,
    pub kind: KindView,
    pub def: Option<SsaVar>,
    pub uses: Seq<SsaVar>,
}

/// A block as a value.
#[verifier::ext_equal]
pub ghost struct BlockView {
    pub id: u32,
    pub entry_va: u64,
    pub ops: Seq<OpView>,
    pub preds: Seq<u32>,
    pub succs: Seq<u32>,
}

/// A function as a value.
#[verifier::ext_equal]
pub ghost struct FunctionView {
    pub entry_va: u64,
    pub bitness: u32,
    pub blocks: Seq<BlockView>,
    pub image_base: u64,
}

impl View for PhiNode {
    type V = PhiView;

    open spec fn view(&self) -> PhiView {
        PhiView { out: self.out, args: self.args@ }
    }
}

impl View for SsaOpKind {
    type V = KindView;

    open spec fn view(&self) -> KindView {
        match *self {
            SsaOpKind::Phi(p) => KindView::Phi(p@),
            SsaOpKind::Pcode(op) => KindView::Pcode(op_view(op)),
        }
    }
}

impl View for SsaOp {
    type V = OpView;

    open spec fn view(&self) -> OpView {
        OpView { va: self.va, kind: self.kind@, def: self.def, uses: self.uses@ }
    }
}

/// The operations of a list as values.
pub open spec fn ops_view(ops: Seq<SsaOp>) -> Seq<OpView> {
    Seq::new(ops.len(), |i: int| ops[i]@)
}

impl View for SsaBlock {
    type V = BlockView;

    open spec fn view(&self) -> BlockView {
        BlockView {
            id: self.id,
            entry_va: self.entry_va,
            ops: ops_view(self.ops@),
            preds: self.predecessor_ids@,
            succs: self.successor_ids@,
        }
    }
}

impl View for SsaFunction {
    type V = FunctionView;

    open spec fn view(&self) -> FunctionView {
        FunctionView {
            entry_va: self.entry_va,
            bitness: self.bitness,
            blocks: Seq::new(self.blocks@.len(), |i: int| self.blocks@[i]@),
            image_base: self.image_base,
        }
    }
}

impl SsaFunction {
    /// The successor lists.
    pub open spec fn succs(&self) -> Seq<Seq<u32>> {
        Seq::new(self.blocks@.len(), |i: int| self.blocks@[i].successor_ids@)
    }

    /// The predecessor lists.
    pub open spec fn preds(&self) -> Seq<Seq<u32>> {
        Seq::new(self.blocks@.len(), |i: int| self.blocks@[i].predecessor_ids@)
    }

    /// The edge lists name existing blocks and mirror each other.
    pub open spec fn wf(&self) -> bool {
        &&& self.blocks@.len() < u32::MAX
        &&& crate::graph::closed(self.succs())
        &&& crate::graph::closed(self.preds())
        &&& crate::graph::converse(self.succs(), self.preds())
    }
}

// ─── Copies ─────────────────────────────────────────────────────────────────

pub fn copy_vars(v: &Vec<SsaVar>) -> (r: Vec<SsaVar>)
    ensures
        r@ == v@,
{
    let mut r: Vec<SsaVar> = Vec::new();
    let mut i: usize = 0;
    while i < v.len()
        invariant
            i <= v@.len(),
            r@ == v@.take(i as int),
        decreases v@.len() - i,
    {
        r.push(v[i]);
        assert(v@.take(i + 1) =~= v@.take(i as int).push(v@[i as int]));
        i += 1;
    }
    assert(v@.take(v@.len() as int) =~= v@);
    r
}

pub fn copy_ids(v: &Vec<u32>) -> (r: Vec<u32>)
    ensures
        r@ == v@,
{
    let mut r: Vec<u32> = Vec::new();
    let mut i: usize = 0;
    while i < v.len()
        invariant
            i <= v@.len(),
            r@ == v@.take(i as int),
        decreases v@.len() - i,
    {
        r.push(v[i]);
        assert(v@.take(i + 1) =~= v@.take(i as int).push(v@[i as int]));
        i += 1;
    }
    assert(v@.take(v@.len() as int) =~= v@);
    r
}

pub fn copy_args(v: &Vec<Option<SsaVar>>) -> (r: Vec<Option<SsaVar>>)
    ensures
        r@ == v@,
{
    let mut r: Vec<Option<SsaVar>> = Vec::new();
    let mut i: usize = 0;
    while i < v.len()
        invariant
            i <= v@.len(),
            r@ == v@.take(i as int),
        decreases v@.len() - i,
    {
        r.push(v[i]);
        assert(v@.take(i + 1) =~= v@.take(i as int).push(v@[i as int]));
        i += 1;
    }
    assert(v@.take(v@.len() as int) =~= v@);
    r
}

impl SsaOp {
    /// The same operation, as a new value.
    pub fn copied(&self) -> (r: SsaOp)
        ensures
            r@ == self@,
    {
        let kind = match &self.kind {
            SsaOpKind::Phi(p) => SsaOpKind::Phi(PhiNode { out: p.out, args: copy_args(&p.args) }),
            SsaOpKind::Pcode(op) => SsaOpKind::Pcode(op.clone()),
        };
        SsaOp { va: self.va, kind, def: self.def, uses: copy_vars(&self.uses) }
    }
}

} // verus!
