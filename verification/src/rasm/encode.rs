//! Encode one parsed instruction into machine-code bytes and fixups.
//!
//! The encoding machinery (REX / ModRM / SIB / displacement / immediate) is the reusable
//! core; the logic per mnemonic sits on top. Branch, call and RIP-relative targets become
//! [`Fixup`]s, for the caller to resolve: an internal label is patched, a host symbol becomes
//! a relocation.
//!
//! The choice among forms (ALU `r/m, r` or `r, r/m`, disp8 or disp32) is that of LLVM-MC. What
//! has no form here is refused: operands that are neither 32 nor 64 bits wide or do not agree in
//! width, addresses that the processor cannot form, and values that do not fit their fields.

use vstd::prelude::*;
use vstd::string::*;

use crate::bytes::{lemma_cast_i64, le32, le64, le8, push_low32, push_low64};
use crate::rasm::operand::{
    class_bits, operand_text, push_operand, size_bits, Mem, MemSize, Operand, Reg, RegClass,
};
use crate::text::{decimal, push_decimal, same_text};

verus! {

/// A symbolic reference left in the encoded bytes.
#[derive(Debug, Clone, PartialEq, Eq)]
pub struct Fixup {
    /// Offset of the field within this instruction's bytes.
    pub at: usize,
    pub kind: FixupKind,
    pub target: String,
}

#[derive(Debug, Clone, Copy, PartialEq, Eq, Structural)]
pub enum FixupKind {
    /// 4-byte branch displacement (call/jmp/jcc rel32).
    Rel32,
    /// 4-byte RIP-relative displacement (`lea` of `[rip+sym]`).
    RipRel32,
}

/// One encoded instruction.
#[derive(Debug, Clone, PartialEq, Eq)]
pub struct Encoded {
    pub bytes: Vec<u8>,
    pub fixups: Vec<Fixup>,
}

/// Why an instruction has no encoding.
#[derive(Debug, Clone, Copy, PartialEq, Eq, Structural)]
pub enum EncodeError {
    /// A scale other than 1, 2, 4 or 8.
    BadScale(u8),
    /// An address that the processor cannot form: a base or an index that is no 64-bit register,
    /// rsp as the index, or a displacement beyond 32 bits.
    BadAddress,
    /// An immediate or a symbol where a register or memory operand belongs.
    NotRegOrMem,
    /// Operands that `mov` does not take.
    UnsupportedMov,
    /// Operands that the ALU group does not take.
    UnsupportedAlu,
    /// A mnemonic that is not known with this many operands of these kinds.
    Unsupported { operands: usize },
}

/// How the `i`th operand is shown; nothing where there is none.
pub open spec fn shown(ops: Seq<Operand>, i: int) -> Seq<char> {
    if i < ops.len() {
        operand_text(ops[i])
    } else {
        Seq::empty()
    }
}

fn push_shown(out: &mut String, ops: &[Operand], i: usize)
    ensures
        final(out)@ == old(out)@ + shown(ops@, i as int),
{
    if i < ops.len() {
        push_operand(out, &ops[i]);
    }
    assert(out@ =~= old(out)@ + shown(ops@, i as int));
}

impl EncodeError {
    /// What the error says of an instruction with this mnemonic and these operands.
    pub open spec fn text(self, mnemonic: Seq<char>, ops: Seq<Operand>) -> Seq<char> {
        match self {
            EncodeError::BadScale(scale) => "bad scale "@ + decimal(scale as nat),
            EncodeError::BadAddress => "rasm: unsupported address in `"@ + mnemonic + "`"@,
            EncodeError::NotRegOrMem => "expected reg/mem r/m, got "@ + shown(ops, 0),
            EncodeError::UnsupportedMov => "rasm: unsupported mov form "@ + shown(ops, 0) + " <- "@
                + shown(ops, 1),
            EncodeError::UnsupportedAlu => "rasm: unsupported alu form "@ + shown(ops, 0) + ", "@
                + shown(ops, 1),
            EncodeError::Unsupported { operands } => "rasm: unsupported instruction `"@ + mnemonic
                + "` with "@ + decimal(operands as nat) + " operand(s)"@,
        }
    }

    pub fn message(&self, mnemonic: &str, ops: &[Operand]) -> (s: String)
        ensures
            s@ == self.text(mnemonic@, ops@),
    {
        let mut out = String::new();
        match self {
            EncodeError::BadScale(scale) => {
                out.append("bad scale ");
                push_decimal(&mut out, *scale as u64);
            },
            EncodeError::BadAddress => {
                out.append("rasm: unsupported address in `");
                out.append(mnemonic);
                out.append("`");
            },
            EncodeError::NotRegOrMem => {
                out.append("expected reg/mem r/m, got ");
                push_shown(&mut out, ops, 0);
            },
            EncodeError::UnsupportedMov => {
                out.append("rasm: unsupported mov form ");
                push_shown(&mut out, ops, 0);
                out.append(" <- ");
                push_shown(&mut out, ops, 1);
            },
            EncodeError::UnsupportedAlu => {
                out.append("rasm: unsupported alu form ");
                push_shown(&mut out, ops, 0);
                out.append(", ");
                push_shown(&mut out, ops, 1);
            },
            EncodeError::Unsupported { operands } => {
                out.append("rasm: unsupported instruction `");
                out.append(mnemonic);
                out.append("` with ");
                push_decimal(&mut out, *operands as u64);
                out.append(" operand(s)");
            },
        }
        assert(out@ =~= self.text(mnemonic@, ops@));
        out
    }
}

/// A fixup, with its target as characters.
pub struct FixupView {
    pub at: int,
    pub kind: FixupKind,
    pub target: Seq<char>,
}

/// Bytes with the fixups into them.
#[verifier::ext_equal]
pub struct Code {
    pub bytes: Seq<u8>,
    pub fixups: Seq<FixupView>,
}

impl Fixup {
    pub open spec fn view(&self) -> FixupView {
        FixupView { at: self.at as int, kind: self.kind, target: self.target@ }
    }
}

impl Encoded {
    pub open spec fn view(&self) -> Code {
        Code { bytes: self.bytes@, fixups: self.fixups@.map_values(|f: Fixup| f.view()) }
    }
}

/// `bytes` without fixups.
pub open spec fn plain(bytes: Seq<u8>) -> Code {
    Code { bytes, fixups: Seq::empty() }
}

impl Code {
    /// This code, and then `bytes`.
    pub open spec fn then_bytes(self, bytes: Seq<u8>) -> Code {
        Code { bytes: self.bytes + bytes, fixups: self.fixups }
    }

    /// This code, and then `next`.
    pub open spec fn then_code(self, next: Code) -> Code {
        let n = self.bytes.len() as int;
        Code {
            bytes: self.bytes + next.bytes,
            fixups: self.fixups + next.fixups.map_values(
                |f: FixupView| FixupView { at: n + f.at, kind: f.kind, target: f.target },
            ),
        }
    }

    /// This code, and then a zeroed 4-byte field that refers to `target`.
    pub open spec fn then_field(self, kind: FixupKind, target: Seq<char>) -> Code {
        Code {
            bytes: self.bytes + seq![0u8, 0u8, 0u8, 0u8],
            fixups: self.fixups.push(FixupView { at: self.bytes.len() as int, kind, target }),
        }
    }
}

/// The REX prefix that carries the four bits, or nothing where none is set.
pub open spec fn rex(w: bool, r: bool, x: bool, b: bool) -> Seq<u8> {
    if w || r || x || b {
        seq![
            (0x40 + (if w { 8int } else { 0 }) + (if r { 4int } else { 0 }) + (if x {
                2int
            } else {
                0
            }) + (if b { 1int } else { 0 })) as u8,
        ]
    } else {
        Seq::empty()
    }
}

/// A ModRM byte, and likewise a SIB byte: two bits, then the low three bits of each number.
pub open spec fn modrm(md: int, reg: int, rm: int) -> u8 {
    (md * 64 + (reg % 8) * 8 + rm % 8) as u8
}

/// The width in bits that an operand states, where it states one.
pub open spec fn stated_bits(op: Operand) -> Option<int> {
    match op {
        Operand::Reg(r) => Some(class_bits(r.class)),
        Operand::Mem(m) => match m.size {
            Some(s) => Some(size_bits(s)),
            None => None,
        },
        _ => None,
    }
}

/// The width in bits that two operands agree on. Where neither states one it is 64.
pub open spec fn pair_bits(dst: Operand, src: Operand) -> Option<int> {
    match (stated_bits(dst), stated_bits(src)) {
        (Some(a), Some(b)) => if a == b {
            Some(a)
        } else {
            None
        },
        (Some(a), None) => Some(a),
        (None, Some(b)) => Some(b),
        (None, None) => Some(64),
    }
}

/// The processor has the register.
pub open spec fn reg_exists(op: Operand) -> bool {
    op matches Operand::Reg(r) ==> r.num < 16
}

/// Whether a width takes the REX.W bit, for the widths that there are forms for.
pub open spec fn rex_w(bits: Option<int>) -> Option<bool> {
    match bits {
        Some(n) => if n == 64 {
            Some(true)
        } else if n == 32 {
            Some(false)
        } else {
            None
        },
        None => None,
    }
}

/// [`rex_w`] of the width of two operands whose registers exist.
pub open spec fn pair_w(dst: Operand, src: Operand) -> Option<bool> {
    if reg_exists(dst) && reg_exists(src) {
        rex_w(pair_bits(dst, src))
    } else {
        None
    }
}

/// The immediate fits an instruction of this width: 32 bits that are sign-extended to 64, or 32
/// bits of either sign.
pub open spec fn imm_fits(w: bool, v: i64) -> bool {
    -0x8000_0000 <= v && if w {
        v <= 0x7fff_ffff
    } else {
        v <= 0xffff_ffff
    }
}

/// A register or memory operand.
pub open spec fn is_rm(op: Operand) -> bool {
    op is Reg || op is Mem
}

/// An instruction whose r/m operand is the register `rm`.
pub open spec fn reg_rm(w: bool, mandatory: Seq<u8>, opcode: Seq<u8>, reg: u8, rm: u8) -> Seq<u8> {
    mandatory + rex(w, reg >= 8, false, rm >= 8) + opcode + seq![modrm(3, reg as int, rm as int)]
}

pub open spec fn num_high(r: Option<Reg>) -> bool {
    r matches Some(q) && q.num >= 8
}

/// A register that an address can be made from.
pub open spec fn address_reg(r: Reg) -> bool {
    r.class == RegClass::R64 && r.num < 16
}

/// The processor can form the address: the registers can be used there, rsp is not the index, and
/// the displacement fits 32 bits. A RIP-relative address has nothing besides its symbol.
pub open spec fn usable(m: Mem) -> bool {
    if m.rip_sym is Some {
        m.base is None && m.index is None && m.disp == 0
    } else {
        &&& m.base matches Some(b) ==> address_reg(b)
        &&& m.index matches Some(i) ==> address_reg(i) && i.num != 4
        &&& -0x8000_0000 <= m.disp <= 0x7fff_ffff
    }
}

/// The base is rsp/r12, whose number in the r/m field announces a SIB byte.
pub open spec fn sib_base(m: Mem) -> bool {
    m.base matches Some(b) && b.num % 8 == 4
}

/// A SIB byte follows the ModRM byte: there is an index, or no base, or the base is rsp/r12.
pub open spec fn needs_sib(m: Mem) -> bool {
    m.base is None || m.index is Some || sib_base(m)
}

/// The scale is looked at: there is an index, or the base is rsp/r12.
pub open spec fn scale_counts(m: Mem) -> bool {
    m.index is Some || sib_base(m)
}

/// The two mode bits: 0 no displacement (without a base: disp32), 1 disp8, 2 disp32. With
/// rbp/r13 as base mode 0 means something else, so a zero displacement takes a byte.
pub open spec fn mode(m: Mem) -> int {
    match m.base {
        None => 0,
        Some(b) => if m.disp == 0 && b.num % 8 != 5 {
            0
        } else if -128 <= m.disp <= 127 {
            1
        } else {
            2
        },
    }
}

pub open spec fn scale_bits(scale: u8) -> Option<int> {
    match scale {
        1 => Some(0),
        2 => Some(1),
        4 => Some(2),
        8 => Some(3),
        _ => None,
    }
}

/// ModRM, SIB where there is one, and the displacement of a memory operand that is not
/// RIP-relative.
pub open spec fn mem_tail(reg: u8, m: Mem) -> Seq<u8> {
    let low = match m.base {
        Some(b) => b.num as int,
        None => 5int,
    };
    let idx = match m.index {
        Some(i) => i.num as int,
        None => 4int,
    };
    let scale = if scale_counts(m) {
        scale_bits(m.scale).unwrap()
    } else {
        0
    };
    let head = if needs_sib(m) {
        seq![modrm(mode(m), reg as int, 4), modrm(scale, idx, low)]
    } else {
        seq![modrm(mode(m), reg as int, low)]
    };
    let disp = if mode(m) == 1 {
        seq![le8(m.disp as int)]
    } else if mode(m) == 2 || m.base is None {
        le32(m.disp as int)
    } else {
        Seq::empty()
    };
    head + disp
}

/// An instruction whose r/m operand is the memory operand `m`.
pub open spec fn mem_rm(w: bool, mandatory: Seq<u8>, opcode: Seq<u8>, reg: u8, m: Mem) -> Result<
    Code,
    EncodeError,
> {
    if !usable(m) {
        Err(EncodeError::BadAddress)
    } else {
        match m.rip_sym {
            Some(sym) => Ok(
                plain(
                    mandatory + rex(w, reg >= 8, false, false) + opcode + seq![
                        modrm(0, reg as int, 5),
                    ],
                ).then_field(FixupKind::RipRel32, sym@),
            ),
            None => if scale_counts(m) && scale_bits(m.scale) is None {
                Err(EncodeError::BadScale(m.scale))
            } else {
                Ok(
                    plain(
                        mandatory + rex(w, reg >= 8, num_high(m.index), num_high(m.base)) + opcode
                            + mem_tail(reg, m),
                    ),
                )
            },
        }
    }
}

/// An instruction whose r/m operand is `rm`.
pub open spec fn any_rm(w: bool, mandatory: Seq<u8>, opcode: Seq<u8>, reg: u8, rm: Operand) -> Result<
    Code,
    EncodeError,
> {
    match rm {
        Operand::Reg(r) => Ok(plain(reg_rm(w, mandatory, opcode, reg, r.num))),
        Operand::Mem(m) => mem_rm(w, mandatory, opcode, reg, m),
        _ => Err(EncodeError::NotRegOrMem),
    }
}

pub open spec fn with_tail(code: Result<Code, EncodeError>, tail: Seq<u8>) -> Result<
    Code,
    EncodeError,
> {
    match code {
        Ok(c) => Ok(c.then_bytes(tail)),
        Err(e) => Err(e),
    }
}

/// The place of an ALU mnemonic in the group: the /digit of its immediate forms.
pub open spec fn alu_digit(m: Seq<char>) -> Option<u8> {
    if m == "add"@ {
        Some(0)
    } else if m == "or"@ {
        Some(1)
    } else if m == "adc"@ {
        Some(2)
    } else if m == "sbb"@ {
        Some(3)
    } else if m == "and"@ {
        Some(4)
    } else if m == "sub"@ {
        Some(5)
    } else if m == "xor"@ {
        Some(6)
    } else if m == "cmp"@ {
        Some(7)
    } else {
        None
    }
}

/// The condition that a conditional jump tests, as the processor numbers conditions.
pub open spec fn condition(m: Seq<char>) -> Option<u8> {
    if m == "jo"@ {
        Some(0x0)
    } else if m == "jno"@ {
        Some(0x1)
    } else if m == "jb"@ || m == "jc"@ || m == "jnae"@ {
        Some(0x2)
    } else if m == "jae"@ || m == "jnb"@ || m == "jnc"@ {
        Some(0x3)
    } else if m == "je"@ || m == "jz"@ {
        Some(0x4)
    } else if m == "jne"@ || m == "jnz"@ {
        Some(0x5)
    } else if m == "jbe"@ || m == "jna"@ {
        Some(0x6)
    } else if m == "ja"@ || m == "jnbe"@ {
        Some(0x7)
    } else if m == "js"@ {
        Some(0x8)
    } else if m == "jns"@ {
        Some(0x9)
    } else if m == "jp"@ || m == "jpe"@ {
        Some(0xA)
    } else if m == "jnp"@ || m == "jpo"@ {
        Some(0xB)
    } else if m == "jl"@ || m == "jnge"@ {
        Some(0xC)
    } else if m == "jge"@ || m == "jnl"@ {
        Some(0xD)
    } else if m == "jle"@ || m == "jng"@ {
        Some(0xE)
    } else if m == "jg"@ || m == "jnle"@ {
        Some(0xF)
    } else {
        None
    }
}

/// `mov dst, src`.
pub open spec fn mov(dst: Operand, src: Operand) -> Result<Code, EncodeError> {
    match (dst, src, pair_w(dst, src)) {
        (_, Operand::Reg(r), w) => if !is_rm(dst) {
            Err(EncodeError::NotRegOrMem)
        } else if w is None {
            Err(EncodeError::UnsupportedMov)
        } else {
            any_rm(w.unwrap(), seq![], seq![0x89u8], r.num, dst)
        },
        (Operand::Reg(d), Operand::Mem(m), Some(w)) => mem_rm(w, seq![], seq![0x8Bu8], d.num, m),
        (Operand::Reg(d), Operand::Imm(v), Some(true)) => if imm_fits(true, v) {
            Ok(plain(reg_rm(true, seq![], seq![0xC7u8], 0, d.num) + le32(v as int)))
        } else {
            Ok(
                plain(
                    rex(true, false, false, d.num >= 8) + seq![(0xB8 + d.num % 8) as u8] + le64(
                        v as int,
                    ),
                ),
            )
        },
        (Operand::Mem(m), Operand::Imm(v), Some(w)) => if imm_fits(w, v) {
            with_tail(mem_rm(w, seq![], seq![0xC7u8], 0, m), le32(v as int))
        } else {
            Err(EncodeError::UnsupportedMov)
        },
        _ => Err(EncodeError::UnsupportedMov),
    }
}

/// The ALU instruction with place `digit` in the group, on `dst` and `src`.
pub open spec fn alu_op(digit: u8, dst: Operand, src: Operand) -> Result<Code, EncodeError> {
    match (dst, src, pair_w(dst, src)) {
        (_, Operand::Reg(r), w) => if !is_rm(dst) {
            Err(EncodeError::NotRegOrMem)
        } else if w is None {
            Err(EncodeError::UnsupportedAlu)
        } else {
            any_rm(w.unwrap(), seq![], seq![(8 * digit + 1) as u8], r.num, dst)
        },
        (Operand::Reg(d), Operand::Mem(m), Some(w)) => mem_rm(
            w,
            seq![],
            seq![(8 * digit + 3) as u8],
            d.num,
            m,
        ),
        (_, Operand::Imm(v), w) => if !is_rm(dst) {
            Err(EncodeError::NotRegOrMem)
        } else if w is None || !imm_fits(w.unwrap(), v) {
            Err(EncodeError::UnsupportedAlu)
        } else if -128 <= v <= 127 {
            with_tail(any_rm(w.unwrap(), seq![], seq![0x83u8], digit, dst), seq![le8(v as int)])
        } else {
            with_tail(any_rm(w.unwrap(), seq![], seq![0x81u8], digit, dst), le32(v as int))
        },
        _ => Err(EncodeError::UnsupportedAlu),
    }
}

/// `lea d, m`. The memory is not accessed, so the size that the operand states does not count.
pub open spec fn lea(d: Reg, m: Mem) -> Result<Code, EncodeError> {
    if d.num >= 16 {
        Err(EncodeError::Unsupported { operands: 2 })
    } else {
        match rex_w(Some(class_bits(d.class))) {
            Some(w) => mem_rm(w, seq![], seq![0x8Du8], d.num, m),
            None => Err(EncodeError::Unsupported { operands: 2 }),
        }
    }
}

/// `test dst, r`.
pub open spec fn test_op(dst: Operand, r: Reg) -> Result<Code, EncodeError> {
    if !is_rm(dst) {
        Err(EncodeError::NotRegOrMem)
    } else {
        match pair_w(dst, Operand::Reg(r)) {
            Some(w) => any_rm(w, seq![], seq![0x85u8], r.num, dst),
            None => Err(EncodeError::Unsupported { operands: 2 }),
        }
    }
}

/// The instructions without operands.
pub open spec fn bare(m: Seq<char>) -> Option<Seq<u8>> {
    if m == "ret"@ {
        Some(seq![0xC3u8])
    } else if m == "nop"@ {
        Some(seq![0x90u8])
    } else if m == "cqo"@ {
        Some(seq![0x48u8, 0x99u8])
    } else if m == "leave"@ {
        Some(seq![0xC9u8])
    } else if m == "std"@ {
        Some(seq![0xFDu8])
    } else if m == "cld"@ {
        Some(seq![0xFCu8])
    } else {
        None
    }
}

/// A one-byte opcode that carries the register in its low three bits.
pub open spec fn short_reg(base: u8, num: u8) -> Seq<u8> {
    rex(false, false, false, num >= 8) + seq![(base + num % 8) as u8]
}

/// The encoding of `mnemonic` with `ops`.
pub open spec fn encoding(mnemonic: Seq<char>, ops: Seq<Operand>) -> Result<Code, EncodeError> {
    let unsupported = Err(EncodeError::Unsupported { operands: ops.len() as usize });
    if ops.len() == 0 {
        match bare(mnemonic) {
            Some(b) => Ok(plain(b)),
            None => unsupported,
        }
    } else if ops.len() == 1 {
        match ops[0] {
            Operand::Reg(r) => if !address_reg(r) {
                unsupported
            } else if mnemonic == "push"@ {
                Ok(plain(short_reg(0x50, r.num)))
            } else if mnemonic == "pop"@ {
                Ok(plain(short_reg(0x58, r.num)))
            } else {
                unsupported
            },
            Operand::Sym(s) => if mnemonic == "call"@ {
                Ok(plain(seq![0xE8u8]).then_field(FixupKind::Rel32, s@))
            } else if mnemonic == "jmp"@ {
                Ok(plain(seq![0xE9u8]).then_field(FixupKind::Rel32, s@))
            } else {
                match condition(mnemonic) {
                    Some(c) => Ok(
                        plain(seq![0x0Fu8, (0x80 + c) as u8]).then_field(FixupKind::Rel32, s@),
                    ),
                    None => unsupported,
                }
            },
            _ => unsupported,
        }
    } else if ops.len() == 2 {
        if mnemonic == "mov"@ {
            mov(ops[0], ops[1])
        } else if mnemonic == "lea"@ {
            match (ops[0], ops[1]) {
                (Operand::Reg(d), Operand::Mem(m)) => lea(d, m),
                _ => unsupported,
            }
        } else if alu_digit(mnemonic) is Some {
            alu_op(alu_digit(mnemonic).unwrap(), ops[0], ops[1])
        } else if mnemonic == "test"@ {
            match ops[1] {
                Operand::Reg(r) => test_op(ops[0], r),
                _ => unsupported,
            }
        } else {
            unsupported
        }
    } else {
        unsupported
    }
}

impl Default for Encoded {
    fn default() -> (e: Encoded)
        ensures
            e@ == plain(Seq::empty()),
    {
        Encoded { bytes: Vec::new(), fixups: Vec::new() }
    }
}

impl Encoded {
    fn b(&mut self, byte: u8)
        ensures
            final(self)@ == old(self)@.then_bytes(seq![byte]),
    {
        self.bytes.push(byte);
    }

    fn ext(&mut self, bytes: &[u8])
        ensures
            final(self)@ == old(self)@.then_bytes(bytes@),
    {
        self.bytes.extend_from_slice(bytes);
        assert(self.bytes@ =~= old(self).bytes@ + bytes@);
    }

    fn low32(&mut self, x: i64)
        ensures
            final(self)@ == old(self)@.then_bytes(le32(x as int)),
    {
        push_low32(&mut self.bytes, x);
    }

    fn low64(&mut self, x: i64)
        ensures
            final(self)@ == old(self)@.then_bytes(le64(x as int)),
    {
        push_low64(&mut self.bytes, x);
    }

    /// A zeroed 4-byte field that refers to `sym`.
    fn field(&mut self, kind: FixupKind, sym: &String)
        ensures
            final(self)@ == old(self)@.then_field(kind, sym@),
    {
        let at: usize = self.len();
        self.bytes.push(0);
        self.bytes.push(0);
        self.bytes.push(0);
        self.bytes.push(0);
        self.fixups.push(Fixup { at, kind, target: sym.clone() });
        assert(self@ =~~= old(self)@.then_field(kind, sym@));
    }

    fn len(&self) -> (n: usize)
        ensures
            n == self@.bytes.len(),
    {
        self.bytes.len()
    }
}

fn rex_byte(w: bool, r: bool, x: bool, b: bool) -> (p: Option<u8>)
    ensures
        match p {
            Some(v) => rex(w, r, x, b) == seq![v],
            None => rex(w, r, x, b) == Seq::<u8>::empty(),
        },
{
    if w || r || x || b {
        let wb: u8 = if w { 8 } else { 0 };
        let rb: u8 = if r { 4 } else { 0 };
        let xb: u8 = if x { 2 } else { 0 };
        let bb: u8 = if b { 1 } else { 0 };
        Some(0x40 + wb + rb + xb + bb)
    } else {
        None
    }
}

fn class_width(class: RegClass) -> (n: u8)
    ensures
        n == class_bits(class),
{
    match class {
        RegClass::R8 => 8,
        RegClass::R16 => 16,
        RegClass::R32 => 32,
        RegClass::R64 => 64,
        RegClass::Xmm => 128,
    }
}

fn stated_width(op: &Operand) -> (n: Option<u8>)
    ensures
        match n {
            Some(b) => stated_bits(*op) == Some(b as int),
            None => stated_bits(*op) is None,
        },
{
    match op {
        Operand::Reg(r) => Some(class_width(r.class)),
        Operand::Mem(m) => match m.size {
            Some(MemSize::Byte) => Some(8),
            Some(MemSize::Word) => Some(16),
            Some(MemSize::Dword) => Some(32),
            Some(MemSize::Qword) => Some(64),
            None => None,
        },
        _ => None,
    }
}

/// Whether a width takes REX.W, for the widths that there are forms for.
fn w_of(bits: u8) -> (w: Option<bool>)
    ensures
        w == rex_w(Some(bits as int)),
{
    match bits {
        64 => Some(true),
        32 => Some(false),
        _ => None,
    }
}

fn has_reg(op: &Operand) -> (b: bool)
    ensures
        b == reg_exists(*op),
{
    match op {
        Operand::Reg(r) => r.num < 16,
        _ => true,
    }
}

/// Whether two operands take REX.W, where they agree on a width that there are forms for.
fn width(dst: &Operand, src: &Operand) -> (w: Option<bool>)
    ensures
        w == pair_w(*dst, *src),
{
    if !has_reg(dst) || !has_reg(src) {
        return None;
    }
    match (stated_width(dst), stated_width(src)) {
        (Some(a), Some(b)) => if a == b {
            w_of(a)
        } else {
            None
        },
        (Some(a), None) => w_of(a),
        (None, Some(b)) => w_of(b),
        (None, None) => Some(true),
    }
}

fn fits(w: bool, v: i64) -> (b: bool)
    ensures
        b == imm_fits(w, v),
{
    -0x8000_0000 <= v && v <= if w {
        0x7fff_ffff
    } else {
        0xffff_ffff
    }
}

fn reg_or_mem(op: &Operand) -> (b: bool)
    ensures
        b == is_rm(*op),
{
    match op {
        Operand::Reg(_) | Operand::Mem(_) => true,
        _ => false,
    }
}

fn in_address(r: Reg) -> (b: bool)
    ensures
        b == address_reg(r),
{
    r.class == RegClass::R64 && r.num < 16
}

fn is_usable(m: &Mem) -> (b: bool)
    ensures
        b == usable(*m),
{
    if m.rip_sym.is_some() {
        return m.base.is_none() && m.index.is_none() && m.disp == 0;
    }
    let base_ok = match m.base {
        Some(b) => in_address(b),
        None => true,
    };
    let index_ok = match m.index {
        Some(i) => in_address(i) && i.num != 4,
        None => true,
    };
    base_ok && index_ok && -0x8000_0000 <= m.disp && m.disp <= 0x7fff_ffff
}

fn modrm_byte(md: u8, reg: u8, rm: u8) -> (v: u8)
    requires
        md < 4,
    ensures
        v == modrm(md as int, reg as int, rm as int),
{
    assert(md < 4 ==> ((md << 6) | ((reg & 7) << 3) | (rm & 7)) == md * 64 + (reg % 8) * 8 + rm % 8)
        by (bit_vector);
    (md << 6) | ((reg & 7) << 3) | (rm & 7)
}

/// Emits `mandatory`, the REX prefix for the four bits, and `opcode`.
fn emit_opcode(e: &mut Encoded, mandatory: &[u8], w: bool, r: bool, x: bool, b: bool, opcode: &[u8])
    ensures
        final(e)@ == old(e)@.then_bytes(mandatory@ + rex(w, r, x, b) + opcode@),
{
    e.ext(mandatory);
    if let Some(p) = rex_byte(w, r, x, b) {
        e.b(p);
    }
    e.ext(opcode);
    assert(e@.bytes =~= old(e)@.bytes + (mandatory@ + rex(w, r, x, b) + opcode@));
}

/// Emits `mandatory` prefixes, REX where one is needed, `opcode`, then a ModRM for a register
/// r/m (`mod = 11`). `reg_field` and `rm` are full 0..15 numbers.
fn emit_reg_rm(
    e: &mut Encoded,
    rex_w: bool,
    mandatory: &[u8],
    opcode: &[u8],
    reg_field: u8,
    rm: u8,
)
    ensures
        final(e)@ == old(e)@.then_bytes(reg_rm(rex_w, mandatory@, opcode@, reg_field, rm)),
{
    emit_opcode(e, mandatory, rex_w, reg_field >= 8, false, rm >= 8, opcode);
    e.b(modrm_byte(3, reg_field, rm));
    assert(e@.bytes =~= old(e)@.bytes + reg_rm(rex_w, mandatory@, opcode@, reg_field, rm));
}

/// What an emitter that may fail does: append `code`, or report its error and leave `before`
/// alone.
pub open spec fn appended(
    before: Code,
    after: Code,
    code: Result<Code, EncodeError>,
    r: Result<(), EncodeError>,
) -> bool {
    match code {
        Ok(c) => r is Ok && after == before.then_code(c),
        Err(err) => r == Err::<(), EncodeError>(err) && after == before,
    }
}

/// Emits ModRM, SIB where one is needed, and the displacement of a memory operand that is not
/// RIP-relative. `scale` is the two scale bits.
fn emit_mem_tail(e: &mut Encoded, reg_field: u8, mem: &Mem, scale: u8)
    requires
        scale_counts(*mem) ==> scale_bits(mem.scale) == Some(scale as int),
        !scale_counts(*mem) ==> scale == 0,
    ensures
        final(e)@ == old(e)@.then_bytes(mem_tail(reg_field, *mem)),
{
    let no_base = mem.base.is_none();
    let base: u8 = match mem.base {
        Some(b) => b.num,
        None => 5,
    };
    let index: u8 = match mem.index {
        Some(i) => i.num,
        None => 4,
    };
    // [rbp]/[r13] (low three bits 101) without a displacement cannot use mod=00, which means
    // disp32 there: they take disp8=0.
    let md: u8 = if no_base {
        0
    } else if mem.disp == 0 && base % 8 != 5 {
        0
    } else if -128 <= mem.disp && mem.disp <= 127 {
        1
    } else {
        2
    };
    assert(md == mode(*mem));
    if no_base || mem.index.is_some() || base % 8 == 4 {
        e.b(modrm_byte(md, reg_field, 4));
        e.b(modrm_byte(scale, index, base));
    } else {
        e.b(modrm_byte(md, reg_field, base));
    }
    if md == 1 {
        proof {
            lemma_cast_i64(mem.disp);
        }
        e.b(mem.disp as u8);
    } else if md == 2 || no_base {
        e.low32(mem.disp);
    }
    assert(e@.bytes =~= old(e)@.bytes + mem_tail(reg_field, *mem));
}

/// Emits `mandatory`, REX, `opcode`, then ModRM, SIB and displacement for a memory r/m. Records
/// a RIP-relative fixup where `mem.rip_sym` is set.
fn emit_mem_rm(
    e: &mut Encoded,
    rex_w: bool,
    mandatory: &[u8],
    opcode: &[u8],
    reg_field: u8,
    mem: &Mem,
) -> (r: Result<(), EncodeError>)
    ensures
        appended(old(e)@, final(e)@, mem_rm(rex_w, mandatory@, opcode@, reg_field, *mem), r),
{
    let ghost code = mem_rm(rex_w, mandatory@, opcode@, reg_field, *mem);
    if !is_usable(mem) {
        return Err(EncodeError::BadAddress);
    }
    // RIP-relative: mod=00, rm=101, disp32 (fixup).
    if let Some(sym) = &mem.rip_sym {
        emit_opcode(e, mandatory, rex_w, reg_field >= 8, false, false, opcode);
        e.b(modrm_byte(0, reg_field, 5));
        e.field(FixupKind::RipRel32, sym);
        assert(e@ =~~= old(e)@.then_code(code->Ok_0));
        return Ok(());
    }
    let rex_x = match mem.index {
        Some(i) => i.num >= 8,
        None => false,
    };
    let rex_b = match mem.base {
        Some(b) => b.num >= 8,
        None => false,
    };
    // With an index, or an rsp/r12 base, the SIB byte carries the scale.
    let scaled = match mem.base {
        None => mem.index.is_some(),
        Some(b) => mem.index.is_some() || b.num % 8 == 4,
    };
    let scale: u8 = if scaled {
        match mem.scale {
            1 => 0,
            2 => 1,
            4 => 2,
            8 => 3,
            other => {
                return Err(EncodeError::BadScale(other));
            },
        }
    } else {
        0
    };
    emit_opcode(e, mandatory, rex_w, reg_field >= 8, rex_x, rex_b, opcode);
    emit_mem_tail(e, reg_field, mem, scale);
    assert(e@ =~~= old(e)@.then_code(code->Ok_0));
    Ok(())
}

/// Emits a register or memory r/m with the given reg field.
fn emit_rm(
    e: &mut Encoded,
    rex_w: bool,
    mandatory: &[u8],
    opcode: &[u8],
    reg_field: u8,
    rm: &Operand,
) -> (r: Result<(), EncodeError>)
    ensures
        appended(old(e)@, final(e)@, any_rm(rex_w, mandatory@, opcode@, reg_field, *rm), r),
{
    match rm {
        Operand::Reg(r) => {
            emit_reg_rm(e, rex_w, mandatory, opcode, reg_field, r.num);
            Ok(())
        },
        Operand::Mem(m) => emit_mem_rm(e, rex_w, mandatory, opcode, reg_field, m),
        _ => Err(EncodeError::NotRegOrMem),
    }
}

/// [`emit_rm`] for the one-byte `opcode` without mandatory prefixes.
fn rm_op(e: &mut Encoded, rex_w: bool, opcode: u8, reg_field: u8, rm: &Operand) -> (r: Result<
    (),
    EncodeError,
>)
    ensures
        appended(old(e)@, final(e)@, any_rm(rex_w, seq![], seq![opcode], reg_field, *rm), r),
{
    let none: [u8; 0] = [];
    let op: [u8; 1] = [opcode];
    assert(none@ =~= Seq::<u8>::empty());
    assert(op@ =~= seq![opcode]);
    emit_rm(e, rex_w, &none, &op, reg_field, rm)
}

/// [`emit_mem_rm`] for the one-byte `opcode` without mandatory prefixes.
fn mem_op(e: &mut Encoded, rex_w: bool, opcode: u8, reg_field: u8, mem: &Mem) -> (r: Result<
    (),
    EncodeError,
>)
    ensures
        appended(old(e)@, final(e)@, mem_rm(rex_w, seq![], seq![opcode], reg_field, *mem), r),
{
    let none: [u8; 0] = [];
    let op: [u8; 1] = [opcode];
    assert(none@ =~= Seq::<u8>::empty());
    assert(op@ =~= seq![opcode]);
    emit_mem_rm(e, rex_w, &none, &op, reg_field, mem)
}

/// [`emit_reg_rm`] for the one-byte `opcode` without mandatory prefixes.
fn reg_op(e: &mut Encoded, rex_w: bool, opcode: u8, reg_field: u8, rm: u8)
    ensures
        final(e)@ == old(e)@.then_bytes(reg_rm(rex_w, seq![], seq![opcode], reg_field, rm)),
{
    let none: [u8; 0] = [];
    let op: [u8; 1] = [opcode];
    assert(none@ =~= Seq::<u8>::empty());
    assert(op@ =~= seq![opcode]);
    emit_reg_rm(e, rex_w, &none, &op, reg_field, rm);
}

/// An instruction of the ALU group (add/or/adc/sbb/and/sub/xor/cmp). reg/reg and mem,reg use
/// the `r/m, r` form; reg,mem uses the `r, r/m` form; r/m,imm uses the 0x81/0x83 group with
/// /digit.
struct Alu {
    /// /digit for the 0x81/0x83 immediate group.
    ext: u8,
    /// Opcode of the `r/m, r` form.
    rm_r: u8,
}

fn alu(mnem: &str) -> (r: Option<Alu>)
    ensures
        match (r, alu_digit(mnem@)) {
            (Some(a), Some(d)) => a.ext == d && a.rm_r == 8 * d + 1,
            (None, None) => true,
            _ => false,
        },
        r matches Some(a) ==> a.ext < 8,
{
    if same_text(mnem, "add") {
        Some(Alu { ext: 0, rm_r: 0x01 })
    } else if same_text(mnem, "or") {
        Some(Alu { ext: 1, rm_r: 0x09 })
    } else if same_text(mnem, "adc") {
        Some(Alu { ext: 2, rm_r: 0x11 })
    } else if same_text(mnem, "sbb") {
        Some(Alu { ext: 3, rm_r: 0x19 })
    } else if same_text(mnem, "and") {
        Some(Alu { ext: 4, rm_r: 0x21 })
    } else if same_text(mnem, "sub") {
        Some(Alu { ext: 5, rm_r: 0x29 })
    } else if same_text(mnem, "xor") {
        Some(Alu { ext: 6, rm_r: 0x31 })
    } else if same_text(mnem, "cmp") {
        Some(Alu { ext: 7, rm_r: 0x39 })
    } else {
        None
    }
}

/// The number of the condition that the jump `m` tests; none where `m` is no conditional jump.
pub fn jcc_code(m: &str) -> (r: Option<u8>)
    ensures
        r == condition(m@),
        r matches Some(c) ==> c < 16,
{
    if same_text(m, "jo") {
        Some(0x0)
    } else if same_text(m, "jno") {
        Some(0x1)
    } else if same_text(m, "jb") || same_text(m, "jc") || same_text(m, "jnae") {
        Some(0x2)
    } else if same_text(m, "jae") || same_text(m, "jnb") || same_text(m, "jnc") {
        Some(0x3)
    } else if same_text(m, "je") || same_text(m, "jz") {
        Some(0x4)
    } else if same_text(m, "jne") || same_text(m, "jnz") {
        Some(0x5)
    } else if same_text(m, "jbe") || same_text(m, "jna") {
        Some(0x6)
    } else if same_text(m, "ja") || same_text(m, "jnbe") {
        Some(0x7)
    } else if same_text(m, "js") {
        Some(0x8)
    } else if same_text(m, "jns") {
        Some(0x9)
    } else if same_text(m, "jp") || same_text(m, "jpe") {
        Some(0xA)
    } else if same_text(m, "jnp") || same_text(m, "jpo") {
        Some(0xB)
    } else if same_text(m, "jl") || same_text(m, "jnge") {
        Some(0xC)
    } else if same_text(m, "jge") || same_text(m, "jnl") {
        Some(0xD)
    } else if same_text(m, "jle") || same_text(m, "jng") {
        Some(0xE)
    } else if same_text(m, "jg") || same_text(m, "jnle") {
        Some(0xF)
    } else {
        None
    }
}

fn push_pop(e: &mut Encoded, base: u8, num: u8)
    requires
        base <= 0xF8,
    ensures
        final(e)@ == old(e)@.then_bytes(short_reg(base, num)),
{
    if let Some(p) = rex_byte(false, false, false, num >= 8) {
        e.b(p);
    }
    e.b(base + num % 8);
    assert(e@.bytes =~= old(e)@.bytes + short_reg(base, num));
}

fn rel32_fixup(e: &mut Encoded, sym: &String)
    ensures
        final(e)@ == old(e)@.then_field(FixupKind::Rel32, sym@),
{
    e.field(FixupKind::Rel32, sym);
}

fn encode_mov(e: &mut Encoded, dst: &Operand, src: &Operand) -> (r: Result<(), EncodeError>)
    ensures
        appended(old(e)@, final(e)@, mov(*dst, *src), r),
{
    let ghost code = mov(*dst, *src);
    match (dst, src, width(dst, src)) {
        // mov r/m, r  (89 /r)
        (_, Operand::Reg(r), w) => {
            if !reg_or_mem(dst) {
                return Err(EncodeError::NotRegOrMem);
            }
            match w {
                Some(w) => rm_op(e, w, 0x89, r.num, dst),
                None => Err(EncodeError::UnsupportedMov),
            }
        },
        // mov r, r/m  (8B /r), where dst is a register and src is memory
        (Operand::Reg(d), Operand::Mem(m), Some(w)) => mem_op(e, w, 0x8B, d.num, m),
        // mov r64, imm32 (sign-extended): C7 /0 id; or mov r64, imm64: B8+r
        (Operand::Reg(d), Operand::Imm(v), Some(true)) => {
            if fits(true, *v) {
                reg_op(e, true, 0xC7, 0, d.num);
                e.low32(*v);
            } else {
                if let Some(p) = rex_byte(true, false, false, d.num >= 8) {
                    e.b(p);
                }
                e.b(0xB8 + d.num % 8);
                e.low64(*v);
            }
            assert(e@ =~~= old(e)@.then_code(code->Ok_0));
            Ok(())
        },
        // mov r/m, imm32: C7 /0 id (size from the memory operand, qword where it states none)
        (Operand::Mem(m), Operand::Imm(v), Some(w)) => {
            if !fits(w, *v) {
                return Err(EncodeError::UnsupportedMov);
            }
            mem_op(e, w, 0xC7, 0, m)?;
            e.low32(*v);
            assert(e@ =~~= old(e)@.then_code(code->Ok_0));
            Ok(())
        },
        _ => Err(EncodeError::UnsupportedMov),
    }
}

fn encode_alu(e: &mut Encoded, a: Alu, dst: &Operand, src: &Operand) -> (r: Result<(), EncodeError>)
    requires
        a.ext < 8,
        a.rm_r == 8 * a.ext + 1,
    ensures
        appended(old(e)@, final(e)@, alu_op(a.ext, *dst, *src), r),
{
    let ghost code = alu_op(a.ext, *dst, *src);
    match (dst, src, width(dst, src)) {
        // r/m, r : (rm_r) /r
        (_, Operand::Reg(r), w) => {
            if !reg_or_mem(dst) {
                return Err(EncodeError::NotRegOrMem);
            }
            match w {
                Some(w) => rm_op(e, w, a.rm_r, r.num, dst),
                None => Err(EncodeError::UnsupportedAlu),
            }
        },
        // r, r/m (mem) : (rm_r + 2) /r
        (Operand::Reg(d), Operand::Mem(m), Some(w)) => mem_op(e, w, a.rm_r + 2, d.num, m),
        // r/m, imm : 83 /ext ib (imm8) or 81 /ext id (imm32)
        (_, Operand::Imm(v), w) => {
            if !reg_or_mem(dst) {
                return Err(EncodeError::NotRegOrMem);
            }
            let w = match w {
                Some(w) => w,
                None => {
                    return Err(EncodeError::UnsupportedAlu);
                },
            };
            if !fits(w, *v) {
                return Err(EncodeError::UnsupportedAlu);
            }
            if -128 <= *v && *v <= 127 {
                rm_op(e, w, 0x83, a.ext, dst)?;
                proof {
                    lemma_cast_i64(*v);
                }
                e.b(*v as u8);
            } else {
                rm_op(e, w, 0x81, a.ext, dst)?;
                e.low32(*v);
            }
            assert(e@ =~~= old(e)@.then_code(code->Ok_0));
            Ok(())
        },
        _ => Err(EncodeError::UnsupportedAlu),
    }
}

fn encode_lea(e: &mut Encoded, d: Reg, m: &Mem) -> (r: Result<(), EncodeError>)
    ensures
        appended(old(e)@, final(e)@, lea(d, *m), r),
{
    if d.num >= 16 {
        return Err(EncodeError::Unsupported { operands: 2 });
    }
    match w_of(class_width(d.class)) {
        Some(w) => mem_op(e, w, 0x8D, d.num, m),
        None => Err(EncodeError::Unsupported { operands: 2 }),
    }
}

/// Encodes a single instruction. `ops` are the parsed operands.
pub fn encode(mnemonic: &str, ops: &[Operand]) -> (r: Result<Encoded, EncodeError>)
    ensures
        match encoding(mnemonic@, ops@) {
            Ok(c) => r matches Ok(e) && e@ == c,
            Err(err) => r == Err::<Encoded, EncodeError>(err),
        },
{
    let mut e = Encoded::default();
    if ops.len() == 0 {
        encode_bare(&mut e, mnemonic)?;
    } else if ops.len() == 1 {
        encode_one(&mut e, mnemonic, &ops[0])?;
    } else if ops.len() == 2 {
        encode_two(&mut e, mnemonic, &ops[0], &ops[1])?;
    } else {
        return Err(EncodeError::Unsupported { operands: ops.len() });
    }
    assert(e@ =~~= encoding(mnemonic@, ops@)->Ok_0);
    Ok(e)
}

/// The instructions without operands.
fn encode_bare(e: &mut Encoded, mnemonic: &str) -> (r: Result<(), EncodeError>)
    ensures
        appended(old(e)@, final(e)@, encoding(mnemonic@, seq![]), r),
{
    if same_text(mnemonic, "ret") {
        e.b(0xC3);
    } else if same_text(mnemonic, "nop") {
        e.b(0x90);
    } else if same_text(mnemonic, "cqo") {
        e.b(0x48);
        e.b(0x99);
    } else if same_text(mnemonic, "leave") {
        e.b(0xC9);
    } else if same_text(mnemonic, "std") {
        e.b(0xFD);
    } else if same_text(mnemonic, "cld") {
        e.b(0xFC);
    } else {
        return Err(EncodeError::Unsupported { operands: 0 });
    }
    assert(e@ =~~= old(e)@.then_code(encoding(mnemonic@, seq![])->Ok_0));
    Ok(())
}

/// The instructions with one operand: push, pop and the branches.
fn encode_one(e: &mut Encoded, mnemonic: &str, op: &Operand) -> (r: Result<(), EncodeError>)
    ensures
        appended(old(e)@, final(e)@, encoding(mnemonic@, seq![*op]), r),
{
    match op {
        Operand::Reg(r) => {
            if !in_address(*r) {
                return Err(EncodeError::Unsupported { operands: 1 });
            }
            if same_text(mnemonic, "push") {
                push_pop(e, 0x50, r.num);
            } else if same_text(mnemonic, "pop") {
                push_pop(e, 0x58, r.num);
            } else {
                return Err(EncodeError::Unsupported { operands: 1 });
            }
        },
        Operand::Sym(s) => {
            if same_text(mnemonic, "call") {
                e.b(0xE8);
            } else if same_text(mnemonic, "jmp") {
                e.b(0xE9);
            } else if let Some(c) = jcc_code(mnemonic) {
                e.b(0x0F);
                e.b(0x80 + c);
            } else {
                return Err(EncodeError::Unsupported { operands: 1 });
            }
            rel32_fixup(e, s);
        },
        _ => {
            return Err(EncodeError::Unsupported { operands: 1 });
        },
    }
    assert(e@ =~~= old(e)@.then_code(encoding(mnemonic@, seq![*op])->Ok_0));
    Ok(())
}

/// The instructions with two operands: mov, lea, the ALU group and test.
fn encode_two(e: &mut Encoded, mnemonic: &str, dst: &Operand, src: &Operand) -> (r: Result<
    (),
    EncodeError,
>)
    ensures
        appended(old(e)@, final(e)@, encoding(mnemonic@, seq![*dst, *src]), r),
{
    if same_text(mnemonic, "mov") {
        return encode_mov(e, dst, src);
    }
    if same_text(mnemonic, "lea") {
        return match (dst, src) {
            (Operand::Reg(d), Operand::Mem(m)) => encode_lea(e, *d, m),
            _ => Err(EncodeError::Unsupported { operands: 2 }),
        };
    }
    if let Some(a) = alu(mnemonic) {
        return encode_alu(e, a, dst, src);
    }
    if same_text(mnemonic, "test") {
        // test r/m, r : 85 /r
        return match src {
            Operand::Reg(r) => if !reg_or_mem(dst) {
                Err(EncodeError::NotRegOrMem)
            } else {
                match width(dst, src) {
                    Some(w) => rm_op(e, w, 0x85, r.num, dst),
                    None => Err(EncodeError::Unsupported { operands: 2 }),
                }
            },
            _ => Err(EncodeError::Unsupported { operands: 2 }),
        };
    }
    Err(EncodeError::Unsupported { operands: 2 })
}

/// The two jumps test a condition and its negation: their numbers differ in the lowest bit alone.
pub open spec fn opposite(a: Seq<char>, b: Seq<char>) -> bool {
    condition(a) matches Some(c) && condition(b) matches Some(d) && c < 16 && d == c ^ 1
}

/// The name with the `n` for "not" put in: `jz` gives `jnz`.
pub open spec fn negated(m: Seq<char>) -> Seq<char> {
    seq!['j', 'n'] + m.skip(1)
}

/// The number of the letter at index `k`, zero behind the end.
spec fn letter(m: Seq<char>, k: int) -> int {
    if k < m.len() {
        m[k] as int - 96
    } else {
        0
    }
}

/// The length and the letters behind the first: they tell the names of the conditional jumps
/// apart.
spec fn spelling(m: Seq<char>) -> (int, int, int, int) {
    (m.len() as int, letter(m, 1), letter(m, 2), letter(m, 3))
}

proof fn lemma_spellings()
    ensures
        spelling("jo"@) == (2int, 15int, 0int, 0int),
        spelling("jno"@) == (3int, 14int, 15int, 0int),
        spelling("jb"@) == (2int, 2int, 0int, 0int),
        spelling("jc"@) == (2int, 3int, 0int, 0int),
        spelling("jnae"@) == (4int, 14int, 1int, 5int),
        spelling("jae"@) == (3int, 1int, 5int, 0int),
        spelling("jnb"@) == (3int, 14int, 2int, 0int),
        spelling("jnc"@) == (3int, 14int, 3int, 0int),
        spelling("je"@) == (2int, 5int, 0int, 0int),
        spelling("jz"@) == (2int, 26int, 0int, 0int),
        spelling("jne"@) == (3int, 14int, 5int, 0int),
        spelling("jnz"@) == (3int, 14int, 26int, 0int),
        spelling("jbe"@) == (3int, 2int, 5int, 0int),
        spelling("jna"@) == (3int, 14int, 1int, 0int),
        spelling("ja"@) == (2int, 1int, 0int, 0int),
        spelling("jnbe"@) == (4int, 14int, 2int, 5int),
        spelling("js"@) == (2int, 19int, 0int, 0int),
        spelling("jns"@) == (3int, 14int, 19int, 0int),
        spelling("jp"@) == (2int, 16int, 0int, 0int),
        spelling("jpe"@) == (3int, 16int, 5int, 0int),
        spelling("jnp"@) == (3int, 14int, 16int, 0int),
        spelling("jpo"@) == (3int, 16int, 15int, 0int),
        spelling("jl"@) == (2int, 12int, 0int, 0int),
        spelling("jnge"@) == (4int, 14int, 7int, 5int),
        spelling("jge"@) == (3int, 7int, 5int, 0int),
        spelling("jnl"@) == (3int, 14int, 12int, 0int),
        spelling("jle"@) == (3int, 12int, 5int, 0int),
        spelling("jng"@) == (3int, 14int, 7int, 0int),
        spelling("jg"@) == (2int, 7int, 0int, 0int),
        spelling("jnle"@) == (4int, 14int, 12int, 5int),
{
    reveal_strlit("jo");
    reveal_strlit("jno");
    reveal_strlit("jb");
    reveal_strlit("jc");
    reveal_strlit("jnae");
    reveal_strlit("jae");
    reveal_strlit("jnb");
    reveal_strlit("jnc");
    reveal_strlit("je");
    reveal_strlit("jz");
    reveal_strlit("jne");
    reveal_strlit("jnz");
    reveal_strlit("jbe");
    reveal_strlit("jna");
    reveal_strlit("ja");
    reveal_strlit("jnbe");
    reveal_strlit("js");
    reveal_strlit("jns");
    reveal_strlit("jp");
    reveal_strlit("jpe");
    reveal_strlit("jnp");
    reveal_strlit("jpo");
    reveal_strlit("jl");
    reveal_strlit("jnge");
    reveal_strlit("jge");
    reveal_strlit("jnl");
    reveal_strlit("jle");
    reveal_strlit("jng");
    reveal_strlit("jg");
    reveal_strlit("jnle");
}

/// The names of the conditional jumps.
pub open spec fn jump_names() -> Seq<Seq<char>> {
    seq![
        "jo"@,
        "jno"@,
        "jb"@,
        "jc"@,
        "jnae"@,
        "jae"@,
        "jnb"@,
        "jnc"@,
        "je"@,
        "jz"@,
        "jne"@,
        "jnz"@,
        "jbe"@,
        "jna"@,
        "ja"@,
        "jnbe"@,
        "js"@,
        "jns"@,
        "jp"@,
        "jpe"@,
        "jnp"@,
        "jpo"@,
        "jl"@,
        "jnge"@,
        "jge"@,
        "jnl"@,
        "jle"@,
        "jng"@,
        "jg"@,
        "jnle"@,
    ]
}

/// The conditional jumps, and nothing else, have a condition, and its number has four bits.
pub proof fn every_jump_has_a_condition(m: Seq<char>)
    ensures
        condition(m) is Some <==> jump_names().contains(m),
        condition(m) matches Some(c) ==> c < 16,
{
    let jumps = jump_names();
    assert(jumps[0] == "jo"@);
    assert(jumps[1] == "jno"@);
    assert(jumps[2] == "jb"@);
    assert(jumps[3] == "jc"@);
    assert(jumps[4] == "jnae"@);
    assert(jumps[5] == "jae"@);
    assert(jumps[6] == "jnb"@);
    assert(jumps[7] == "jnc"@);
    assert(jumps[8] == "je"@);
    assert(jumps[9] == "jz"@);
    assert(jumps[10] == "jne"@);
    assert(jumps[11] == "jnz"@);
    assert(jumps[12] == "jbe"@);
    assert(jumps[13] == "jna"@);
    assert(jumps[14] == "ja"@);
    assert(jumps[15] == "jnbe"@);
    assert(jumps[16] == "js"@);
    assert(jumps[17] == "jns"@);
    assert(jumps[18] == "jp"@);
    assert(jumps[19] == "jpe"@);
    assert(jumps[20] == "jnp"@);
    assert(jumps[21] == "jpo"@);
    assert(jumps[22] == "jl"@);
    assert(jumps[23] == "jnge"@);
    assert(jumps[24] == "jge"@);
    assert(jumps[25] == "jnl"@);
    assert(jumps[26] == "jle"@);
    assert(jumps[27] == "jng"@);
    assert(jumps[28] == "jg"@);
    assert(jumps[29] == "jnle"@);
}

/// The names of one condition share its number.
pub proof fn synonyms_share_a_number()
    ensures
        condition("jc"@) == condition("jb"@),
        condition("jnae"@) == condition("jb"@),
        condition("jnb"@) == condition("jae"@),
        condition("jnc"@) == condition("jae"@),
        condition("jz"@) == condition("je"@),
        condition("jnz"@) == condition("jne"@),
        condition("jna"@) == condition("jbe"@),
        condition("jnbe"@) == condition("ja"@),
        condition("jpe"@) == condition("jp"@),
        condition("jpo"@) == condition("jnp"@),
        condition("jnge"@) == condition("jl"@),
        condition("jnl"@) == condition("jge"@),
        condition("jng"@) == condition("jle"@),
        condition("jnle"@) == condition("jg"@),
{
    lemma_spellings();
}

proof fn lemma_lowest_bit()
    ensures
        forall|c: u8| c % 2 == 0 ==> #[trigger] (c ^ 1) == c + 1,
        forall|c: u8| c % 2 == 1 ==> #[trigger] (c ^ 1) == c - 1,
{
    assert(forall|c: u8| c % 2 == 0 ==> #[trigger] (c ^ 1) == c + 1) by (bit_vector);
    assert(forall|c: u8| c % 2 == 1 ==> #[trigger] (c ^ 1) == c - 1) by (bit_vector);
}

/// Each condition has a negation, and their numbers differ in the lowest bit alone.
pub proof fn conditions_come_in_pairs()
    ensures
        opposite("jo"@, "jno"@),
        opposite("jb"@, "jae"@),
        opposite("je"@, "jne"@),
        opposite("jbe"@, "ja"@),
        opposite("js"@, "jns"@),
        opposite("jp"@, "jnp"@),
        opposite("jl"@, "jge"@),
        opposite("jle"@, "jg"@),
{
    lemma_spellings();
    lemma_lowest_bit();
}

/// Wherever both a name and the name with `n` for "not" put in are conditional jumps, they are
/// opposites.
pub proof fn not_negates(m: Seq<char>)
    requires
        condition(m) is Some,
        condition(negated(m)) is Some,
    ensures
        opposite(m, negated(m)),
{
    lemma_spellings();
    lemma_lowest_bit();
    let n = negated(m);
    let (len, a, b, _) = spelling(m);
    assert(spelling(n) == (len + 1, 14int, a, b));
}

} // verus!
