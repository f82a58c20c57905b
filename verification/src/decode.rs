//! Decoded x86-64 instructions, as the `iced-x86` decoder reads them.
use vstd::prelude::*;
use crate::text::str_eq;
use iced_x86::{Decoder, DecoderOptions};

verus! {

/// What the analyses read of one decoded instruction. Mnemonics, operand
/// kinds and registers are held by their `iced-x86` names (such as `Lea`,
/// `Memory`, `RAX`; `None` for no register).
#[derive(Debug, Clone, PartialEq, Eq)]
pub struct Insn {
    pub mnemonic: String,
    pub op0_kind: String,
    pub op1_kind: String,
    pub op0_register: String,
    pub op0_full_register: String,
    pub op1_register: String,
    pub op1_full_register: String,
    pub memory_base: String,
    pub memory_base_full: String,
    pub memory_displacement: u64,
    pub immediate32: u32,
    pub near_branch: u64,
    pub ip: u64,
}

/// The abstract value of an [`Insn`].
pub struct InsnShape {
    pub mnemonic: Seq<char>,
    pub op0_kind: Seq<char>,
    pub op1_kind: Seq<char>,
    pub op0_register: Seq<char>,
    pub op0_full_register: Seq<char>,
    pub op1_register: Seq<char>,
    pub op1_full_register: Seq<char>,
    pub memory_base: Seq<char>,
    pub memory_base_full: Seq<char>,
    pub memory_displacement: u64,
    pub immediate32: u32,
    pub near_branch: u64,
    pub ip: u64,
}

impl View for Insn {
    type V = InsnShape;

    open spec fn view(&self) -> InsnShape {
        InsnShape {
            mnemonic: self.mnemonic@,
            op0_kind: self.op0_kind@,
            op1_kind: self.op1_kind@,
            op0_register: self.op0_register@,
            op0_full_register: self.op0_full_register@,
            op1_register: self.op1_register@,
            op1_full_register: self.op1_full_register@,
            memory_base: self.memory_base@,
            memory_base_full: self.memory_base_full@,
            memory_displacement: self.memory_displacement,
            immediate32: self.immediate32,
            near_branch: self.near_branch,
            ip: self.ip,
        }
    }
}

/// The views of a list of instructions.
pub open spec fn insns_view(s: Seq<Insn>) -> Seq<InsnShape> {
    s.map_values(|i: Insn| i@)
}

/// The instructions `iced-x86` decodes from `code` in 64-bit mode, the first
/// one at address `ip`, until the code runs out.
pub uninterp spec fn decoded(code: Seq<u8>, ip: u64) -> Seq<InsnShape>;

/// `iced_x86::Decoder::with_ip(64, code, ip, DecoderOptions::NONE)` run to
/// the end of `code`, each instruction read through its getters. The
/// contract names the sequence and states nothing of how bytes decode.
#[verifier::external_body]
pub(crate) fn decode_all(code: &[u8], ip: u64) -> (r: Vec<Insn>)
    ensures
        insns_view(r@) == decoded(code@, ip),
{
    Decoder::with_ip(64, code, ip, DecoderOptions::NONE).into_iter().map(|i| Insn {
        mnemonic: format!("{:?}", i.mnemonic()), op0_kind: format!("{:?}", i.op0_kind()),
        op1_kind: format!("{:?}", i.op1_kind()), op0_register: format!("{:?}", i.op0_register()),
        op0_full_register: format!("{:?}", i.op0_register().full_register()),
        op1_register: format!("{:?}", i.op1_register()),
        op1_full_register: format!("{:?}", i.op1_register().full_register()),
        memory_base: format!("{:?}", i.memory_base()),
        memory_base_full: format!("{:?}", i.memory_base().full_register()),
        memory_displacement: i.memory_displacement64(), immediate32: i.immediate32(),
        near_branch: i.near_branch64(), ip: i.ip(),
    }).collect()
}

/// The instruction loads the address of a RIP-relative memory operand
/// (`lea reg, [rip+disp]`).
pub open spec fn is_rip_lea(i: InsnShape) -> bool {
    i.mnemonic == "Lea"@ && i.op1_kind == "Memory"@ && i.memory_base == "RIP"@
}

/// Whether the instruction is a RIP-relative `lea` (see [`is_rip_lea`]).
pub fn rip_lea(i: &Insn) -> (r: bool)
    ensures
        r == is_rip_lea(i@),
{
    str_eq(i.mnemonic.as_str(), "Lea") && str_eq(i.op1_kind.as_str(), "Memory") && str_eq(
        i.memory_base.as_str(),
        "RIP",
    )
}

/// The RVA an address of the image refers to, when it is not below the image
/// base (truncated to 32 bits).
pub open spec fn rva_of(va: u64, image_base: u64) -> Option<u32> {
    if va >= image_base {
        Some(((va - image_base) as int % 4294967296) as u32)
    } else {
        None
    }
}

/// The RVA of an address of the image (see [`rva_of`]).
pub fn target_rva(va: u64, image_base: u64) -> (r: Option<u32>)
    ensures
        r == rva_of(va, image_base),
{
    if va >= image_base {
        let d: u64 = va - image_base;
        Some((d % 4294967296) as u32)
    } else {
        None
    }
}


/// `name` is one of the sixteen 64-bit general-purpose registers (what
/// `iced_x86::Register::is_gpr64` tells of a register).
pub open spec fn gpr64_name(name: Seq<char>) -> bool {
    ||| name == "RAX"@ || name == "RCX"@ || name == "RDX"@ || name == "RBX"@
    ||| name == "RSP"@ || name == "RBP"@ || name == "RSI"@ || name == "RDI"@
    ||| name == "R8"@ || name == "R9"@ || name == "R10"@ || name == "R11"@
    ||| name == "R12"@ || name == "R13"@ || name == "R14"@ || name == "R15"@
}

/// Whether the register called `name` is a 64-bit general-purpose register.
pub fn is_gpr64_register(name: &str) -> (r: bool)
    ensures
        r == gpr64_name(name@),
{
    str_eq(name, "RAX") || str_eq(name, "RCX") || str_eq(name, "RDX") || str_eq(name, "RBX")
        || str_eq(name, "RSP") || str_eq(name, "RBP") || str_eq(name, "RSI") || str_eq(name, "RDI")
        || str_eq(name, "R8") || str_eq(name, "R9") || str_eq(name, "R10") || str_eq(name, "R11")
        || str_eq(name, "R12") || str_eq(name, "R13") || str_eq(name, "R14") || str_eq(name, "R15")
}

} // verus!
