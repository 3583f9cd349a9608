//! The machine-code decoder: every call into capstone goes through here.
//!
//! A [`Decoder`] pairs a capstone handle with the instruction set it was opened
//! for. What capstone answers is handed on as plain values; what those values
//! are on given bytes is named, not restated.

use capstone::arch::x86::X86OperandType;
use capstone::arch::{BuildsCapstone, DetailsArchInsn};
use vstd::prelude::*;

use crate::text::opt_string;

verus! {

/// The capstone handle, carried through opaquely.
#[verifier::external_type_specification]
#[verifier::external_body]
pub struct ExCapstone(capstone::Capstone);

/// The error type of capstone.
#[verifier::external_type_specification]
#[verifier::external_body]
pub struct ExCapstoneError(capstone::Error);

/// Instruction sets a [`Decoder`] can be opened for.
#[derive(Clone, Copy, Debug, PartialEq, Eq, Structural)]
pub enum Isa {
    /// 64-bit x86.
    X86_64,
    /// 64-bit ARM.
    Aarch64,
    /// 32-bit ARM (A32).
    Arm,
}

/// A capstone handle together with the instruction set it was opened for. The
/// fields are private: a handle only comes from one of the `open_*` functions,
/// each of which switches instruction detail on.
pub struct Decoder {
    cs: capstone::Capstone,
    isa: Isa,
}

impl Decoder {
    /// The instruction set this decoder reads.
    pub closed spec fn spec_isa(&self) -> Isa {
        self.isa
    }
}

/// What capstone reports of one instruction.
pub struct DecodedInsn {
    /// Address of the first byte.
    pub address: u64,
    /// Number of bytes.
    pub len: usize,
    /// Mnemonic, where capstone has one.
    pub mnemonic: Option<String>,
    /// Operand text, where capstone has one.
    pub op_str: Option<String>,
}

/// Capstone's detail record of one x86 instruction.
pub struct DecodedDetail {
    /// Group numbers the instruction belongs to.
    pub groups: Vec<u8>,
    /// Registers read.
    pub regs_read: Vec<u16>,
    /// Registers written.
    pub regs_write: Vec<u16>,
    /// x86 operands in order: the value of an immediate, `None` for any other
    /// operand; `None` as a whole where there is no x86 record.
    pub operands: Option<Vec<Option<i64>>>,
}

/// The contents of a [`DecodedInsn`].
pub struct DecodedInsnView {
    pub address: u64,
    pub len: nat,
    pub mnemonic: Option<Seq<char>>,
    pub op_str: Option<Seq<char>>,
}

/// The contents of a [`DecodedDetail`].
pub struct DecodedDetailView {
    pub groups: Seq<u8>,
    pub regs_read: Seq<u16>,
    pub regs_write: Seq<u16>,
    pub operands: Option<Seq<Option<i64>>>,
}

impl View for DecodedDetail {
    type V = DecodedDetailView;

    open spec fn view(&self) -> DecodedDetailView {
        DecodedDetailView {
            groups: self.groups@,
            regs_read: self.regs_read@,
            regs_write: self.regs_write@,
            operands: match self.operands {
                Some(v) => Some(v@),
                None => None,
            },
        }
    }
}

impl View for DecodedInsn {
    type V = DecodedInsnView;

    open spec fn view(&self) -> DecodedInsnView {
        DecodedInsnView {
            address: self.address,
            len: self.len as nat,
            mnemonic: opt_string(self.mnemonic),
            op_str: opt_string(self.op_str),
        }
    }
}

/// The contents of an optional decoded instruction.
pub open spec fn opt_insn(d: Option<DecodedInsn>) -> Option<DecodedInsnView> {
    match d {
        Some(i) => Some(i@),
        None => None,
    }
}

/// The contents of an optional detail record.
pub open spec fn opt_detail(d: Option<DecodedDetail>) -> Option<DecodedDetailView> {
    match d {
        Some(i) => Some(i@),
        None => None,
    }
}

/// The first instruction that capstone's `disasm_count` finds at the start of
/// `bytes`, read for `isa` with detail on and placed at `addr`; `None` where
/// the bytes do not start with an instruction.
pub uninterp spec fn first_insn(isa: Isa, bytes: Seq<u8>, addr: u64) -> Option<DecodedInsnView>;

/// The detail record that capstone's `insn_detail` gives of that instruction;
/// `None` where there is no instruction or no record.
pub uninterp spec fn first_detail(isa: Isa, bytes: Seq<u8>, addr: u64) -> Option<
    DecodedDetailView,
>;

/// Opens a handle with `Capstone::new().x86().mode(Mode64).detail(true).build()`.
/// Nothing is promised of whether that succeeds; a handle that comes back reads
/// 64-bit x86 with detail on.
#[verifier::external_body]
pub(crate) fn open_x86_64() -> (r: Result<Decoder, capstone::Error>)
    ensures
        r matches Ok(d) ==> d.spec_isa() == Isa::X86_64,
{
    let cs = capstone::Capstone::new().x86().mode(capstone::arch::x86::ArchMode::Mode64).detail(true).build()?;
    Ok(Decoder { cs, isa: Isa::X86_64 })
}

/// Calls `Capstone::disasm_count` for one instruction and reads it out with
/// `Insn::{address, bytes, mnemonic, op_str}`. The result is the named one; an
/// instruction found sits at the address handed in, and its bytes fit capstone's
/// record of 24 bytes. The one error that the call can report is that memory ran
/// out, which counts as nothing found; the name does not speak of that.
#[verifier::external_body]
pub(crate) fn decode_first(d: &Decoder, bytes: &[u8], addr: u64) -> (r: Option<DecodedInsn>)
    ensures
        opt_insn(r) == first_insn(d.spec_isa(), bytes@, addr),
        r matches Some(i) ==> i.address == addr && i.len <= 24,
{
    let insns = d.cs.disasm_count(bytes, addr, 1).ok()?;
    insns.iter().next().map(|i| DecodedInsn {
        address: i.address(),
        len: i.bytes().len(),
        mnemonic: i.mnemonic().map(|s| s.to_string()),
        op_str: i.op_str().map(|s| s.to_string()),
    })
}

/// Calls `Capstone::insn_detail` on the instruction that `disasm_count` finds
/// first and reads the record out with `InsnDetail::{groups, regs_read,
/// regs_write, arch_detail}` and `X86InsnDetail::operands`. The result is the named
/// one. The one error that `disasm_count` can report is that memory ran out, which
/// counts as no record; the name does not speak of that.
#[verifier::external_body]
pub(crate) fn decode_detail(d: &Decoder, bytes: &[u8], addr: u64) -> (r: Option<DecodedDetail>)
    ensures
        opt_detail(r) == first_detail(d.spec_isa(), bytes@, addr),
{
    let insns = d.cs.disasm_count(bytes, addr, 1).ok()?;
    insns.iter().next().and_then(|i| d.cs.insn_detail(i).ok()).map(|t| DecodedDetail {
        groups: t.groups().iter().map(|g| g.0).collect(),
        regs_read: t.regs_read().iter().map(|g| g.0).collect(),
        regs_write: t.regs_write().iter().map(|g| g.0).collect(),
        operands: t.arch_detail().x86().map(|x| x.operands().map(|o| match o.op_type {
            X86OperandType::Imm(v) => Some(v),
            _ => None,
        }).collect()),
    })
}

/// Opens a handle with `Capstone::new().arm64().mode(Arm).detail(true).build()`.
/// Nothing is promised of whether that succeeds; a handle that comes back reads
/// 64-bit ARM with detail on.
#[verifier::external_body]
pub(crate) fn open_aarch64() -> (r: Result<Decoder, capstone::Error>)
    ensures
        r matches Ok(d) ==> d.spec_isa() == Isa::Aarch64,
{
    let cs = capstone::Capstone::new().arm64().mode(capstone::arch::arm64::ArchMode::Arm).detail(true).build()?;
    Ok(Decoder { cs, isa: Isa::Aarch64 })
}

/// Opens a handle with `Capstone::new().arm().mode(Arm).detail(true).build()`.
/// Nothing is promised of whether that succeeds; a handle that comes back reads
/// 32-bit ARM with detail on.
#[verifier::external_body]
pub(crate) fn open_arm() -> (r: Result<Decoder, capstone::Error>)
    ensures
        r matches Ok(d) ==> d.spec_isa() == Isa::Arm,
{
    let cs = capstone::Capstone::new().arm().mode(capstone::arch::arm::ArchMode::Arm).detail(true).build()?;
    Ok(Decoder { cs, isa: Isa::Arm })
}

/// One instruction of a run.
pub struct RunInsn {
    /// Address of the first byte.
    pub address: u64,
    /// Number of bytes.
    pub len: usize,
    /// Mnemonic, where capstone has one.
    pub mnemonic: Option<String>,
    /// Operand text, where capstone has one.
    pub op_str: Option<String>,
    /// Group numbers, where capstone has a detail record.
    pub groups: Option<Vec<u8>>,
}

/// The contents of a [`RunInsn`].
pub struct RunInsnView {
    /// Address of the first byte.
    pub address: u64,
    /// Number of bytes.
    pub len: nat,
    /// Mnemonic.
    pub mnemonic: Option<Seq<char>>,
    /// Operand text.
    pub op_str: Option<Seq<char>>,
    /// Group numbers.
    pub groups: Option<Seq<u8>>,
}

impl View for RunInsn {
    type V = RunInsnView;

    open spec fn view(&self) -> RunInsnView {
        RunInsnView {
            address: self.address,
            len: self.len as nat,
            mnemonic: opt_string(self.mnemonic),
            op_str: opt_string(self.op_str),
            groups: match self.groups {
                Some(v) => Some(v@),
                None => None,
            },
        }
    }
}

/// The contents of a run.
pub open spec fn run_views(v: Seq<RunInsn>) -> Seq<RunInsnView> {
    v.map_values(|i: RunInsn| i@)
}

/// The instructions that capstone's `disasm_all` finds in `bytes`, read for `isa`
/// with detail on and placed at `addr`, up to the first bytes that are none.
pub uninterp spec fn insn_run(isa: Isa, bytes: Seq<u8>, addr: u64) -> Seq<RunInsnView>;

/// Calls `Capstone::disasm_all` and reads each instruction out with `Insn::{address,
/// bytes, mnemonic, op_str}` and `InsnDetail::groups`. The result is the named one;
/// the bytes of an instruction fit capstone's record of 24 bytes. The one error that
/// the call can report is that memory ran out, which counts as nothing found; the
/// name does not speak of that.
#[verifier::external_body]
pub(crate) fn decode_run(d: &Decoder, bytes: &[u8], addr: u64) -> (r: Vec<RunInsn>)
    ensures
        run_views(r@) == insn_run(d.spec_isa(), bytes@, addr),
        forall|k: int| 0 <= k < r@.len() ==> (#[trigger] r@[k]).len <= 24,
{
    let insns = d.cs.disasm_all(bytes, addr);
    insns.iter().flat_map(|v| v.iter()).map(|i| RunInsn {
        address: i.address(),
        len: i.bytes().len(),
        mnemonic: i.mnemonic().map(|s| s.to_string()),
        op_str: i.op_str().map(|s| s.to_string()),
        groups: d.cs.insn_detail(i).ok().map(|t| t.groups().iter().map(|g| g.0).collect()),
    }).collect()
}

} // verus!
