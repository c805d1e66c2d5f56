//! Physical registers and bit-exact slices of them.

use vstd::prelude::*;
use crate::numbers::{dec, dec_text};
use crate::text::{chars_of, push_lit, push_text, string_of};

verus! {

/// Number of vector registers of the architecture.
pub const X86_MAX_VECTOR_REGISTER_COUNT: u8 = 32;

/// The general-purpose register containers of x86-64.
#[derive(Clone, Copy, Debug, PartialEq, Eq, Hash, PartialOrd, Ord, Structural)]
pub enum Gpr {
    Rax,
    Rcx,
    Rdx,
    Rbx,
    Rsp,
    Rbp,
    Rsi,
    Rdi,
    R8,
    R9,
    R10,
    R11,
    R12,
    R13,
    R14,
    R15,
}

/// A physical register. A vector register is one file that its XMM, YMM and ZMM
/// names share.
#[derive(Clone, Copy, Debug, PartialEq, Eq, Hash, PartialOrd, Ord, Structural)]
pub enum Register {
    /// A 64-bit general-purpose register.
    Gpr(Gpr),
    /// The 64-bit instruction pointer.
    Rip,
    /// A 512-bit vector register.
    Vector(u8),
    /// The 64-bit flags.
    Rflags,
}

/// Width of a physical register; a vector register out of range has none.
pub open spec fn capacity(register: Register) -> Option<u16> {
    match register {
        Register::Vector(index) => if index < X86_MAX_VECTOR_REGISTER_COUNT {
            Some(512)
        } else {
            None
        },
        _ => Some(64),
    }
}

impl Register {
    /// Width of the physical register.
    pub fn container_bits(self) -> (r: Option<u16>)
        ensures
            r == capacity(self),
    {
        match self {
            Register::Gpr(_) | Register::Rip | Register::Rflags => Some(64),
            Register::Vector(index) => if index < X86_MAX_VECTOR_REGISTER_COUNT {
                Some(512)
            } else {
                None
            },
        }
    }

    /// A vector register, if there is one with this index.
    pub fn vector(index: u8) -> (r: Option<Register>)
        ensures
            r == if index < 32 {
                Some(Register::Vector(index))
            } else {
                None
            },
    {
        if index < X86_MAX_VECTOR_REGISTER_COUNT {
            Some(Register::Vector(index))
        } else {
            None
        }
    }
}

/// Why a slice cannot be made.
#[derive(Clone, Copy, Debug, PartialEq, Eq, Structural)]
pub enum RegisterSliceError {
    /// There is no vector register with this index.
    InvalidVectorRegister { index: u8 },
    /// A slice holds at least one bit.
    EmptySlice,
    /// The slice goes beyond its register.
    OutOfBounds { register: Register, bit_offset: u16, bit_width: u16, container_bits: u16 },
}

/// Name of a general-purpose register.
pub open spec fn gpr_label(g: Gpr) -> Seq<char> {
    match g {
        Gpr::Rax => "Rax"@,
        Gpr::Rcx => "Rcx"@,
        Gpr::Rdx => "Rdx"@,
        Gpr::Rbx => "Rbx"@,
        Gpr::Rsp => "Rsp"@,
        Gpr::Rbp => "Rbp"@,
        Gpr::Rsi => "Rsi"@,
        Gpr::Rdi => "Rdi"@,
        Gpr::R8 => "R8"@,
        Gpr::R9 => "R9"@,
        Gpr::R10 => "R10"@,
        Gpr::R11 => "R11"@,
        Gpr::R12 => "R12"@,
        Gpr::R13 => "R13"@,
        Gpr::R14 => "R14"@,
        Gpr::R15 => "R15"@,
    }
}

fn gpr_text(g: Gpr) -> (r: &'static str)
    ensures
        r@ == gpr_label(g),
{
    match g {
        Gpr::Rax => "Rax",
        Gpr::Rcx => "Rcx",
        Gpr::Rdx => "Rdx",
        Gpr::Rbx => "Rbx",
        Gpr::Rsp => "Rsp",
        Gpr::Rbp => "Rbp",
        Gpr::Rsi => "Rsi",
        Gpr::Rdi => "Rdi",
        Gpr::R8 => "R8",
        Gpr::R9 => "R9",
        Gpr::R10 => "R10",
        Gpr::R11 => "R11",
        Gpr::R12 => "R12",
        Gpr::R13 => "R13",
        Gpr::R14 => "R14",
        Gpr::R15 => "R15",
    }
}

/// Name of a physical register.
pub open spec fn register_label(register: Register) -> Seq<char> {
    match register {
        Register::Gpr(g) => "Gpr("@ + gpr_label(g) + ")"@,
        Register::Rip => "Rip"@,
        Register::Vector(index) => "Vector("@ + dec(index as nat) + ")"@,
        Register::Rflags => "Rflags"@,
    }
}

fn register_text(register: Register) -> (r: Vec<char>)
    ensures
        r@ == register_label(register),
{
    match register {
        Register::Gpr(g) => {
            let mut t = chars_of("Gpr(");
            push_lit(&mut t, gpr_text(g));
            push_lit(&mut t, ")");
            t
        },
        Register::Rip => chars_of("Rip"),
        Register::Vector(index) => {
            let mut t = chars_of("Vector(");
            push_text(&mut t, &dec_text(index as u64));
            push_lit(&mut t, ")");
            t
        },
        Register::Rflags => chars_of("Rflags"),
    }
}

impl RegisterSliceError {
    /// How the error is reported.
    pub open spec fn message(self) -> Seq<char> {
        match self {
            RegisterSliceError::InvalidVectorRegister { index } => "vector register index "@ + dec(
                index as nat,
            ) + " is outside 0..32"@,
            RegisterSliceError::EmptySlice => "a register slice must contain at least one bit"@,
            RegisterSliceError::OutOfBounds { register, bit_offset, bit_width, container_bits } =>
                "slice "@ + register_label(register) + "["@ + dec(bit_offset as nat) + ".."@ + dec(
                (bit_offset + bit_width) as nat,
            ) + "] exceeds its "@ + dec(container_bits as nat) + "-bit container"@,
        }
    }

    /// The report as text.
    pub fn to_text(self) -> (r: String)
        ensures
            r@ == self.message(),
    {
        match self {
            RegisterSliceError::InvalidVectorRegister { index } => {
                let mut t = chars_of("vector register index ");
                push_text(&mut t, &dec_text(index as u64));
                push_lit(&mut t, " is outside 0..32");
                string_of(&t)
            },
            RegisterSliceError::EmptySlice => string_of(
                &chars_of("a register slice must contain at least one bit"),
            ),
            RegisterSliceError::OutOfBounds { register, bit_offset, bit_width, container_bits } => {
                let mut t = chars_of("slice ");
                push_text(&mut t, &register_text(register));
                push_lit(&mut t, "[");
                push_text(&mut t, &dec_text(bit_offset as u64));
                push_lit(&mut t, "..");
                push_text(&mut t, &dec_text(bit_offset as u64 + bit_width as u64));
                push_lit(&mut t, "] exceeds its ");
                push_text(&mut t, &dec_text(container_bits as u64));
                push_lit(&mut t, "-bit container");
                string_of(&t)
            },
        }
    }
}

/// How a write to a slice affects the bits outside it.
#[derive(Clone, Copy, Debug, PartialEq, Eq, Hash, Structural)]
pub enum RegisterWriteSemantics {
    /// The other bits keep their value.
    PreserveOutsideSlice,
    /// The high half of the container is cleared.
    ZeroExtendToContainer,
}

/// A bit-exact view into a physical register: `AL`, `AH`, `AX`, `EAX` and `RAX` are
/// slices of one register.
#[derive(Clone, Copy, Debug, PartialEq, Eq, Hash, PartialOrd, Ord, Structural)]
pub struct RegisterSlice {
    register: Register,
    bit_offset: u16,
    bit_width: u16,
}

/// A slice as a value.
pub ghost struct SliceView {
    pub register: Register,
    pub bit_offset: u16,
    pub bit_width: u16,
}

impl View for RegisterSlice {
    type V = SliceView;

    closed spec fn view(&self) -> SliceView {
        SliceView {
            register: self.register,
            bit_offset: self.bit_offset,
            bit_width: self.bit_width,
        }
    }
}

impl SliceView {
    /// The slice holds bits, and all of them belong to its register.
    pub open spec fn wf(self) -> bool {
        &&& self.bit_width > 0
        &&& match capacity(self.register) {
            Some(bits) => self.bit_offset + self.bit_width <= bits,
            None => false,
        }
    }

    /// Bit `i` of the register belongs to the slice.
    pub open spec fn holds(self, i: int) -> bool {
        self.bit_offset <= i < self.bit_offset + self.bit_width
    }

    /// The slices share a bit of one register.
    pub open spec fn shares(self, other: SliceView) -> bool {
        self.register == other.register && exists|i: int| #[trigger] self.holds(i) && other.holds(i)
    }
}

/// The whole of a general-purpose register.
pub open spec fn whole_gpr(register: Gpr) -> SliceView {
    SliceView { register: Register::Gpr(register), bit_offset: 0, bit_width: 64 }
}

/// The low bits of a vector register.
pub open spec fn low_vector(index: u8, bit_width: u16) -> SliceView {
    SliceView { register: Register::Vector(index), bit_offset: 0, bit_width }
}

/// Why there is no such slice, if there is none.
pub open spec fn slice_error(register: Register, bit_offset: u16, bit_width: u16) -> Option<RegisterSliceError> {
    match capacity(register) {
        None => Some(
            RegisterSliceError::InvalidVectorRegister {
                index: match register {
                    Register::Vector(index) => index,
                    _ => 0,
                },
            },
        ),
        Some(bits) => if bit_width == 0 {
            Some(RegisterSliceError::EmptySlice)
        } else if bit_offset + bit_width > bits {
            Some(
                RegisterSliceError::OutOfBounds {
                    register,
                    bit_offset,
                    bit_width,
                    container_bits: bits,
                },
            )
        } else {
            None
        },
    }
}

/// What making a slice gives.
pub open spec fn slice_result(register: Register, bit_offset: u16, bit_width: u16, r: Result<RegisterSlice, RegisterSliceError>) -> bool {
    match r {
        Ok(s) => slice_error(register, bit_offset, bit_width) is None && s@ == (SliceView {
            register,
            bit_offset,
            bit_width,
        }) && s@.wf(),
        Err(e) => slice_error(register, bit_offset, bit_width) == Some(e),
    }
}

impl RegisterSlice {
    /// Every slice is well-formed.
    #[verifier::type_invariant]
    spec fn checked(self) -> bool {
        self@.wf()
    }

    /// Construct a checked slice of a physical register.
    pub fn new(register: Register, bit_offset: u16, bit_width: u16) -> (r: Result<RegisterSlice, RegisterSliceError>)
        ensures
            slice_result(register, bit_offset, bit_width, r),
    {
        match register.container_bits() {
            None => {
                let index: u8 = match register {
                    Register::Vector(index) => index,
                    _ => 0,
                };
                Err(RegisterSliceError::InvalidVectorRegister { index })
            },
            Some(container_bits) => {
                if bit_width == 0 {
                    return Err(RegisterSliceError::EmptySlice);
                }
                let end: u32 = bit_offset as u32 + bit_width as u32;
                if end > container_bits as u32 {
                    return Err(
                        RegisterSliceError::OutOfBounds {
                            register,
                            bit_offset,
                            bit_width,
                            container_bits,
                        },
                    );
                }
                Ok(RegisterSlice { register, bit_offset, bit_width })
            },
        }
    }

    /// The whole of a general-purpose register.
    pub fn gpr(register: Gpr) -> (r: RegisterSlice)
        ensures
            r@ == whole_gpr(register),
            r@.wf(),
    {
        RegisterSlice { register: Register::Gpr(register), bit_offset: 0, bit_width: 64 }
    }

    /// The low 128 bits of a vector register.
    pub fn xmm(index: u8) -> (r: Result<RegisterSlice, RegisterSliceError>)
        ensures
            slice_result(Register::Vector(index), 0, 128, r),
    {
        RegisterSlice::new(Register::Vector(index), 0, 128)
    }

    /// The low 256 bits of a vector register.
    pub fn ymm(index: u8) -> (r: Result<RegisterSlice, RegisterSliceError>)
        ensures
            slice_result(Register::Vector(index), 0, 256, r),
    {
        RegisterSlice::new(Register::Vector(index), 0, 256)
    }

    /// All 512 bits of a vector register.
    pub fn zmm(index: u8) -> (r: Result<RegisterSlice, RegisterSliceError>)
        ensures
            slice_result(Register::Vector(index), 0, 512, r),
    {
        RegisterSlice::new(Register::Vector(index), 0, 512)
    }

    /// The whole of a physical register.
    pub fn full(register: Register) -> (r: Result<RegisterSlice, RegisterSliceError>)
        ensures
            match capacity(register) {
                Some(bits) => slice_result(register, 0, bits, r),
                None => r == Err::<RegisterSlice, RegisterSliceError>(
                    RegisterSliceError::InvalidVectorRegister {
                        index: match register {
                            Register::Vector(index) => index,
                            _ => 0,
                        },
                    },
                ),
            },
            r is Ok <==> capacity(register) is Some,
    {
        match register.container_bits() {
            None => {
                let index: u8 = match register {
                    Register::Vector(index) => index,
                    _ => 0,
                };
                Err(RegisterSliceError::InvalidVectorRegister { index })
            },
            Some(bits) => RegisterSlice::new(register, 0, bits),
        }
    }

    /// The physical register that holds this slice.
    pub fn register(self) -> (r: Register)
        ensures
            r == self@.register,
    {
        self.register
    }

    /// First bit of the slice in its register.
    pub fn bit_offset(self) -> (r: u16)
        ensures
            r == self@.bit_offset,
    {
        self.bit_offset
    }

    /// Number of bits.
    pub fn bit_width(self) -> (r: u16)
        ensures
            r == self@.bit_width,
    {
        self.bit_width
    }

    /// Whether two slices share a bit of one register.
    pub fn overlaps(self, other: RegisterSlice) -> (r: bool)
        ensures
            r == self@.shares(other@),
    {
        proof {
            use_type_invariant(self);
            use_type_invariant(other);
        }
        if self.register != other.register {
            return false;
        }
        let self_end: u32 = self.bit_offset as u32 + self.bit_width as u32;
        let other_end: u32 = other.bit_offset as u32 + other.bit_width as u32;
        let r = (self.bit_offset as u32) < other_end && (other.bit_offset as u32) < self_end;
        proof {
            if r {
                let i: int = if self.bit_offset < other.bit_offset {
                    other.bit_offset as int
                } else {
                    self.bit_offset as int
                };
                assert(self@.holds(i) && other@.holds(i));
            }
        }
        r
    }

    /// What assigning this slice does to the rest of its register: in long mode a
    /// write of the low 32 bits of a general-purpose register clears the high half.
    pub fn write_semantics(self) -> (r: RegisterWriteSemantics)
        ensures
            r == if self@.register is Gpr && self@.bit_offset == 0 && self@.bit_width == 32 {
                RegisterWriteSemantics::ZeroExtendToContainer
            } else {
                RegisterWriteSemantics::PreserveOutsideSlice
            },
    {
        match self.register {
            Register::Gpr(_) => if self.bit_offset == 0 && self.bit_width == 32 {
                RegisterWriteSemantics::ZeroExtendToContainer
            } else {
                RegisterWriteSemantics::PreserveOutsideSlice
            },
            _ => RegisterWriteSemantics::PreserveOutsideSlice,
        }
    }
}

/// Sharing bits goes both ways, and a slice shares bits with itself.
pub proof fn law_shares(a: SliceView, b: SliceView)
    requires
        a.wf(),
    ensures
        a.shares(b) <==> b.shares(a),
        a.shares(a),
{
    if a.shares(b) {
        let i = choose|i: int| #[trigger] a.holds(i) && b.holds(i);
        assert(b.holds(i));
    }
    if b.shares(a) {
        let i = choose|i: int| #[trigger] b.holds(i) && a.holds(i);
        assert(a.holds(i));
    }
    assert(a.holds(a.bit_offset as int));
}

/// Every slice lies within the whole of its register, so it shares bits with it.
pub proof fn law_whole_shares(a: SliceView, whole: SliceView)
    requires
        a.wf(),
        whole.register == a.register,
        whole.bit_offset == 0,
        capacity(a.register) == Some(whole.bit_width),
    ensures
        whole.shares(a),
{
    assert(whole.holds(a.bit_offset as int));
    assert(a.holds(a.bit_offset as int));
}

} // verus!
