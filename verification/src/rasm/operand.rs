//! What an instruction names: registers, memory operands, immediates and symbols.

use vstd::prelude::*;
use vstd::string::*;

use crate::text::{debug_text, decimal, push_decimal, push_signed, quoted, signed_decimal};

verus! {

/// The bank a register belongs to.
#[derive(Debug, Clone, Copy, PartialEq, Eq, Structural)]
pub enum RegClass {
    R8,
    R16,
    R32,
    R64,
    Xmm,
}

/// The width of the registers of a bank, in bits.
pub open spec fn class_bits(class: RegClass) -> int {
    match class {
        RegClass::R8 => 8,
        RegClass::R16 => 16,
        RegClass::R32 => 32,
        RegClass::R64 => 64,
        RegClass::Xmm => 128,
    }
}

/// A register: its bank and its number there, 0 to 15.
#[derive(Debug, Clone, Copy, PartialEq, Eq, Structural)]
pub struct Reg {
    pub class: RegClass,
    pub num: u8,
}

/// The size that a memory operand states (`byte ptr` ... `qword ptr`).
#[derive(Debug, Clone, Copy, PartialEq, Eq, Structural)]
pub enum MemSize {
    Byte,
    Word,
    Dword,
    Qword,
}

/// A stated size, in bits.
pub open spec fn size_bits(size: MemSize) -> int {
    match size {
        MemSize::Byte => 8,
        MemSize::Word => 16,
        MemSize::Dword => 32,
        MemSize::Qword => 64,
    }
}

/// A memory operand: `[base + index*scale + disp]`, or `[rip + rip_sym]` where `rip_sym` is
/// set.
#[derive(Debug, Clone, PartialEq, Eq)]
pub struct Mem {
    pub size: Option<MemSize>,
    pub base: Option<Reg>,
    pub index: Option<Reg>,
    pub scale: u8,
    pub disp: i64,
    pub rip_sym: Option<String>,
}

/// One operand of an instruction.
#[derive(Debug, Clone, PartialEq, Eq)]
pub enum Operand {
    Reg(Reg),
    Mem(Mem),
    Imm(i64),
    /// A label or a host symbol: the target of a branch.
    Sym(String),
}

/// How a register is shown.
pub open spec fn reg_text(r: Reg) -> Seq<char> {
    "Reg { class: "@ + class_text(r.class) + ", num: "@ + decimal(r.num as nat) + " }"@
}

pub open spec fn class_text(class: RegClass) -> Seq<char> {
    match class {
        RegClass::R8 => "R8"@,
        RegClass::R16 => "R16"@,
        RegClass::R32 => "R32"@,
        RegClass::R64 => "R64"@,
        RegClass::Xmm => "Xmm"@,
    }
}

pub open spec fn maybe_reg_text(r: Option<Reg>) -> Seq<char> {
    match r {
        Some(r) => "Some("@ + reg_text(r) + ")"@,
        None => "None"@,
    }
}

pub open spec fn maybe_size_text(size: Option<MemSize>) -> Seq<char> {
    match size {
        Some(MemSize::Byte) => "Some(Byte)"@,
        Some(MemSize::Word) => "Some(Word)"@,
        Some(MemSize::Dword) => "Some(Dword)"@,
        Some(MemSize::Qword) => "Some(Qword)"@,
        None => "None"@,
    }
}

/// The registers of a memory operand, as they are shown.
pub open spec fn mem_regs_text(m: Mem) -> Seq<char> {
    ", base: "@ + maybe_reg_text(m.base) + ", index: "@ + maybe_reg_text(m.index)
}

/// The numbers of a memory operand, as they are shown.
pub open spec fn mem_numbers_text(m: Mem) -> Seq<char> {
    ", scale: "@ + decimal(m.scale as nat) + ", disp: "@ + signed_decimal(m.disp as int)
}

pub open spec fn maybe_sym_text(sym: Option<String>) -> Seq<char> {
    match sym {
        Some(s) => "Some("@ + debug_text(s@) + ")"@,
        None => "None"@,
    }
}

/// How a memory operand is shown.
pub open spec fn mem_text(m: Mem) -> Seq<char> {
    "Mem { size: "@ + maybe_size_text(m.size) + mem_regs_text(m) + mem_numbers_text(m)
        + ", rip_sym: "@ + maybe_sym_text(m.rip_sym) + " }"@
}

/// How an operand is shown in messages.
pub open spec fn operand_text(op: Operand) -> Seq<char> {
    match op {
        Operand::Reg(r) => "Reg("@ + reg_text(r) + ")"@,
        Operand::Mem(m) => "Mem("@ + mem_text(m) + ")"@,
        Operand::Imm(v) => "Imm("@ + signed_decimal(v as int) + ")"@,
        Operand::Sym(s) => "Sym("@ + debug_text(s@) + ")"@,
    }
}

fn push_reg(out: &mut String, r: Reg)
    ensures
        final(out)@ == old(out)@ + reg_text(r),
{
    out.append("Reg { class: ");
    out.append(
        match r.class {
            RegClass::R8 => "R8",
            RegClass::R16 => "R16",
            RegClass::R32 => "R32",
            RegClass::R64 => "R64",
            RegClass::Xmm => "Xmm",
        },
    );
    out.append(", num: ");
    push_decimal(out, r.num as u64);
    out.append(" }");
    assert(out@ =~= old(out)@ + reg_text(r));
}

fn push_maybe_reg(out: &mut String, r: Option<Reg>)
    ensures
        final(out)@ == old(out)@ + maybe_reg_text(r),
{
    match r {
        Some(q) => {
            out.append("Some(");
            push_reg(out, q);
            out.append(")");
        },
        None => out.append("None"),
    }
    assert(out@ =~= old(out)@ + maybe_reg_text(r));
}

fn push_mem_regs(out: &mut String, m: &Mem)
    ensures
        final(out)@ == old(out)@ + mem_regs_text(*m),
{
    out.append(", base: ");
    push_maybe_reg(out, m.base);
    out.append(", index: ");
    push_maybe_reg(out, m.index);
    assert(out@ =~= old(out)@ + mem_regs_text(*m));
}

fn push_mem_numbers(out: &mut String, m: &Mem)
    ensures
        final(out)@ == old(out)@ + mem_numbers_text(*m),
{
    out.append(", scale: ");
    push_decimal(out, m.scale as u64);
    out.append(", disp: ");
    push_signed(out, m.disp);
    assert(out@ =~= old(out)@ + mem_numbers_text(*m));
}

fn push_maybe_sym(out: &mut String, sym: &Option<String>)
    ensures
        final(out)@ == old(out)@ + maybe_sym_text(*sym),
{
    match sym {
        Some(s) => {
            out.append("Some(");
            out.append(quoted(s.as_str()).as_str());
            out.append(")");
        },
        None => out.append("None"),
    }
    assert(out@ =~= old(out)@ + maybe_sym_text(*sym));
}

fn push_mem(out: &mut String, m: &Mem)
    ensures
        final(out)@ == old(out)@ + mem_text(*m),
{
    out.append("Mem { size: ");
    out.append(
        match m.size {
            Some(MemSize::Byte) => "Some(Byte)",
            Some(MemSize::Word) => "Some(Word)",
            Some(MemSize::Dword) => "Some(Dword)",
            Some(MemSize::Qword) => "Some(Qword)",
            None => "None",
        },
    );
    push_mem_regs(out, m);
    push_mem_numbers(out, m);
    out.append(", rip_sym: ");
    push_maybe_sym(out, &m.rip_sym);
    out.append(" }");
    assert(out@ =~= old(out)@ + mem_text(*m));
}

/// Appends how `op` is shown.
pub fn push_operand(out: &mut String, op: &Operand)
    ensures
        final(out)@ == old(out)@ + operand_text(*op),
{
    match op {
        Operand::Reg(r) => {
            out.append("Reg(");
            push_reg(out, *r);
        },
        Operand::Mem(m) => {
            out.append("Mem(");
            push_mem(out, m);
        },
        Operand::Imm(v) => {
            out.append("Imm(");
            push_signed(out, *v);
        },
        Operand::Sym(s) => {
            out.append("Sym(");
            out.append(quoted(s.as_str()).as_str());
        },
    }
    out.append(")");
    assert(out@ =~= old(out)@ + operand_text(*op));
}

} // verus!
