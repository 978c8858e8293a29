//! Reading encoded instructions back, as the processor does.
//!
//! [`decode`] is the meaning of the bytes, [`meaning`] that of the written instruction, and
//! [`encoding_means_what_was_written`] says that the encoder's output decodes to the latter.

use vstd::prelude::*;

use crate::bytes::{
    from_le32, le32, le64, le8, lemma_le32_mod, lemma_le_len, lemma_signed32, overwrite, signed32,
};
use crate::rasm::encode::{
    alu_digit, alu_op, any_rm, condition, encoding, imm_fits, mem_rm, mem_tail, mode, modrm, mov,
    needs_sib, num_high, pair_bits, pair_w, plain, reg_exists, rex, scale_bits, scale_counts,
    usable, Code, FixupKind, FixupView,
};
use crate::rasm::operand::{class_bits, Mem, Operand, Reg};

verus! {

/// Where an operand lives.
pub enum Place {
    /// A register, 0 to 15.
    Reg(int),
    /// `[base + index*scale + disp]`, where base and index are registers of `bits` bits; the index
    /// comes with its scale.
    Mem { bits: int, base: Option<int>, index: Option<(int, int)>, disp: int },
    /// `[rip + disp]`.
    Rip { disp: int },
}

/// What an operand stands for.
pub enum Value {
    At(Place),
    Imm(int),
}

pub enum BareOp {
    Ret,
    Nop,
    Cqo,
    Leave,
    Std,
    Cld,
}

pub enum BranchOp {
    Call,
    Jmp,
    /// A jump on the condition with this number.
    If(int),
}

pub enum PairOp {
    Mov,
    Lea,
    /// The ALU instruction with this place in its group.
    Alu(int),
    Test,
}

/// An instruction; `bits` is the width of what it works on.
pub enum Insn {
    Bare(BareOp),
    Push { bits: int, reg: int },
    Pop { bits: int, reg: int },
    Branch { op: BranchOp, rel: int },
    Pair { op: PairOp, bits: int, dst: Place, src: Value },
}

/// The width that the REX.W bit stands for.
pub open spec fn bits_of(w: bool) -> int {
    if w {
        64
    } else {
        32
    }
}

/// The number that a byte spells in two's complement.
pub open spec fn signed8(b: u8) -> int {
    if b < 0x80 {
        b as int
    } else {
        b - 0x100
    }
}

/// The number that eight little-endian bytes spell in two's complement.
pub open spec fn signed64(s: Seq<u8>) -> int {
    from_le32(s) + 0x1_0000_0000 * signed32(s.skip(4))
}

pub open spec fn high(bit: bool) -> int {
    if bit {
        8
    } else {
        0
    }
}

pub open spec fn pow2_of(bits: int) -> int {
    if bits == 0 {
        1
    } else if bits == 1 {
        2
    } else if bits == 2 {
        4
    } else {
        8
    }
}

/// The displacement that follows in mode `md`, and its length.
pub open spec fn decode_disp(md: int, s: Seq<u8>) -> (int, int) {
    if md == 0 {
        (0, 0)
    } else if md == 1 {
        (signed8(s[0]), 1)
    } else {
        (signed32(s), 4)
    }
}

/// The ModRM byte at the head of `s` with what belongs to it: the number in the reg field
/// (without its REX bit), the r/m operand, and how many bytes they take.
pub open spec fn decode_rm(x: bool, b: bool, s: Seq<u8>) -> (int, Place, int) {
    let md = s[0] as int / 64;
    let reg = s[0] as int / 8 % 8;
    let rm = s[0] as int % 8;
    if md == 3 {
        (reg, Place::Reg(rm + high(b)), 1)
    } else if rm == 4 {
        let num = s[1] as int / 8 % 8 + high(x);
        let index = if num == 4 {
            None
        } else {
            Some((num, pow2_of(s[1] as int / 64)))
        };
        if md == 0 && s[1] as int % 8 == 5 {
            (reg, Place::Mem { bits: 64, base: None, index, disp: signed32(s.skip(2)) }, 6)
        } else {
            let (disp, n) = decode_disp(md, s.skip(2));
            (
                reg,
                Place::Mem { bits: 64, base: Some(s[1] as int % 8 + high(b)), index, disp },
                2 + n,
            )
        }
    } else if md == 0 && rm == 5 {
        (reg, Place::Rip { disp: signed32(s.skip(1)) }, 5)
    } else {
        let (disp, n) = decode_disp(md, s.skip(1));
        (reg, Place::Mem { bits: 64, base: Some(rm + high(b)), index: None, disp }, 1 + n)
    }
}

/// The four REX bits at the head of `s`, and what follows them.
pub open spec fn split_rex(s: Seq<u8>) -> (bool, bool, bool, bool, Seq<u8>) {
    if 0x40 <= s[0] < 0x50 {
        (
            s[0] as int / 8 % 2 == 1,
            s[0] as int / 4 % 2 == 1,
            s[0] as int / 2 % 2 == 1,
            s[0] as int % 2 == 1,
            s.skip(1),
        )
    } else {
        (false, false, false, false, s)
    }
}

/// What a register field stands for as an operand.
pub open spec fn at_reg(num: int) -> Value {
    Value::At(Place::Reg(num))
}

/// The instruction at the head of `s` and its length after the REX prefix, given the prefix
/// bits; `s` starts at the opcode.
pub open spec fn decode_opcode(w: bool, r: bool, x: bool, b: bool, s: Seq<u8>) -> Option<
    (Insn, int),
> {
    let op = s[0] as int;
    let (reg3, place, n) = decode_rm(x, b, s.skip(1));
    let reg = reg3 + high(r);
    let rest = s.skip(1 + n);
    if op == 0xC3 {
        Some((Insn::Bare(BareOp::Ret), 1))
    } else if op == 0x90 {
        Some((Insn::Bare(BareOp::Nop), 1))
    } else if op == 0x99 && w {
        Some((Insn::Bare(BareOp::Cqo), 1))
    } else if op == 0xC9 {
        Some((Insn::Bare(BareOp::Leave), 1))
    } else if op == 0xFD {
        Some((Insn::Bare(BareOp::Std), 1))
    } else if op == 0xFC {
        Some((Insn::Bare(BareOp::Cld), 1))
    } else if 0x50 <= op < 0x58 {
        Some((Insn::Push { bits: 64, reg: op - 0x50 + high(b) }, 1))
    } else if 0x58 <= op < 0x60 {
        Some((Insn::Pop { bits: 64, reg: op - 0x58 + high(b) }, 1))
    } else if op == 0xE8 {
        Some((Insn::Branch { op: BranchOp::Call, rel: signed32(s.skip(1)) }, 5))
    } else if op == 0xE9 {
        Some((Insn::Branch { op: BranchOp::Jmp, rel: signed32(s.skip(1)) }, 5))
    } else if op == 0x0F && 0x80 <= s[1] < 0x90 {
        Some((Insn::Branch { op: BranchOp::If(s[1] - 0x80), rel: signed32(s.skip(2)) }, 6))
    } else if op < 0x40 && op % 8 == 1 {
        Some((Insn::Pair { op: PairOp::Alu(op / 8), bits: bits_of(w), dst: place, src: at_reg(reg) }, 1 + n))
    } else if op < 0x40 && op % 8 == 3 {
        Some(
            (
                Insn::Pair {
                    op: PairOp::Alu(op / 8),
                    bits: bits_of(w),
                    dst: Place::Reg(reg),
                    src: Value::At(place),
                },
                1 + n,
            ),
        )
    } else if op == 0x83 {
        Some(
            (
                Insn::Pair {
                    op: PairOp::Alu(reg3),
                    bits: bits_of(w),
                    dst: place,
                    src: Value::Imm(signed8(rest[0])),
                },
                2 + n,
            ),
        )
    } else if op == 0x81 {
        Some(
            (
                Insn::Pair {
                    op: PairOp::Alu(reg3),
                    bits: bits_of(w),
                    dst: place,
                    src: Value::Imm(signed32(rest)),
                },
                5 + n,
            ),
        )
    } else if op == 0x89 {
        Some((Insn::Pair { op: PairOp::Mov, bits: bits_of(w), dst: place, src: at_reg(reg) }, 1 + n))
    } else if op == 0x8B {
        Some(
            (
                Insn::Pair {
                    op: PairOp::Mov,
                    bits: bits_of(w),
                    dst: Place::Reg(reg),
                    src: Value::At(place),
                },
                1 + n,
            ),
        )
    } else if op == 0x8D {
        Some(
            (
                Insn::Pair {
                    op: PairOp::Lea,
                    bits: bits_of(w),
                    dst: Place::Reg(reg),
                    src: Value::At(place),
                },
                1 + n,
            ),
        )
    } else if op == 0xC7 && reg3 == 0 {
        Some(
            (
                Insn::Pair {
                    op: PairOp::Mov,
                    bits: bits_of(w),
                    dst: place,
                    src: Value::Imm(signed32(rest)),
                },
                5 + n,
            ),
        )
    } else if 0xB8 <= op < 0xC0 && w {
        Some(
            (
                Insn::Pair {
                    op: PairOp::Mov,
                    bits: 64,
                    dst: Place::Reg(op - 0xB8 + high(b)),
                    src: Value::Imm(signed64(s.skip(1))),
                },
                9,
            ),
        )
    } else if op == 0x85 {
        Some((Insn::Pair { op: PairOp::Test, bits: bits_of(w), dst: place, src: at_reg(reg) }, 1 + n))
    } else {
        None
    }
}

/// The instruction at the head of `s`, and its length.
#[verifier::opaque]
pub open spec fn decode(s: Seq<u8>) -> Option<(Insn, int)> {
    let (w, r, x, b, rest) = split_rex(s);
    match decode_opcode(w, r, x, b, rest) {
        Some((insn, n)) => Some((insn, s.len() - rest.len() + n)),
        None => None,
    }
}

proof fn lemma_split_rex(w: bool, r: bool, x: bool, b: bool, rest: Seq<u8>)
    requires
        rest.len() > 0,
        !(0x40 <= rest[0] < 0x50),
    ensures
        split_rex(rex(w, r, x, b) + rest) == (w, r, x, b, rest),
{
    if w || r || x || b {
        assert((rex(w, r, x, b) + rest).skip(1) =~= rest);
    } else {
        assert(rex(w, r, x, b) + rest =~= rest);
    }
}

proof fn lemma_signed8(v: int)
    requires
        -128 <= v <= 127,
    ensures
        signed8(le8(v)) == v,
{
}

/// The place that an operand names. A RIP-relative operand has a zero field, with a fixup.
pub open spec fn place_of(op: Operand) -> Place {
    match op {
        Operand::Reg(r) => Place::Reg(r.num as int),
        Operand::Mem(m) => mem_place(m),
        _ => arbitrary(),
    }
}

/// The width of the registers that an address is made from: that of the base, and else that of the
/// index.
pub open spec fn address_bits(m: Mem) -> int {
    match (m.base, m.index) {
        (Some(b), _) => class_bits(b.class),
        (None, Some(i)) => class_bits(i.class),
        (None, None) => 64,
    }
}

pub open spec fn mem_place(m: Mem) -> Place {
    match m.rip_sym {
        Some(_) => Place::Rip { disp: 0 },
        None => Place::Mem {
            bits: address_bits(m),
            base: match m.base {
                Some(b) => Some(b.num as int),
                None => None,
            },
            index: match m.index {
                Some(i) => Some((i.num as int, m.scale as int)),
                None => None,
            },
            disp: m.disp as int,
        },
    }
}

proof fn lemma_modrm(md: int, reg: int, rm: int)
    requires
        0 <= md < 4,
        0 <= reg,
        0 <= rm,
    ensures
        modrm(md, reg, rm) as int / 64 == md,
        modrm(md, reg, rm) as int / 8 % 8 == reg % 8,
        modrm(md, reg, rm) as int % 8 == rm % 8,
{
}

/// A memory operand reads back from its ModRM, SIB and displacement.
proof fn lemma_mem_tail(reg: u8, m: Mem, rest: Seq<u8>)
    requires
        m.rip_sym is None,
        usable(m),
        scale_counts(m) ==> scale_bits(m.scale) is Some,
    ensures
        decode_rm(num_high(m.index), num_high(m.base), mem_tail(reg, m) + rest) == (
            reg as int % 8,
            mem_place(m),
            mem_tail(reg, m).len() as int,
        ),
{
    lemma_le_len(m.disp as int);
    let s = mem_tail(reg, m) + rest;
    let low = match m.base {
        Some(b) => b.num as int,
        None => 5int,
    };
    let idx = match m.index {
        Some(i) => i.num as int,
        None => 4int,
    };
    if needs_sib(m) {
        lemma_modrm(mode(m), reg as int, 4);
        lemma_modrm(
            if scale_counts(m) {
                scale_bits(m.scale).unwrap()
            } else {
                0
            },
            idx,
            low,
        );
    } else {
        lemma_modrm(mode(m), reg as int, low);
    }
    let n: int = if needs_sib(m) { 2 } else { 1 };
    if mode(m) == 1 {
        lemma_signed8(m.disp as int);
        assert(s.skip(n)[0] == le8(m.disp as int));
    } else if mode(m) == 2 || m.base is None {
        lemma_signed32(m.disp as int);
        assert(signed32(s.skip(n)) == signed32(le32(m.disp as int))) by {
            assert(s.skip(n)[0] == le32(m.disp as int)[0]);
            assert(s.skip(n)[1] == le32(m.disp as int)[1]);
            assert(s.skip(n)[2] == le32(m.disp as int)[2]);
            assert(s.skip(n)[3] == le32(m.disp as int)[3]);
        }
    }
}

/// `bytes`, before `tail`, read as the opcode `op` with these prefix bits, register field and
/// r/m operand, and `tail` is what follows.
pub open spec fn reads_as(
    bytes: Seq<u8>,
    tail: Seq<u8>,
    w: bool,
    op: u8,
    reg: u8,
    place: Place,
) -> bool {
    let (w2, r2, x2, b2, rest) = split_rex(bytes + tail);
    let (reg3, place2, n) = decode_rm(x2, b2, rest.skip(1));
    &&& w2 == w
    &&& r2 == (reg >= 8)
    &&& rest[0] == op
    &&& reg3 == reg as int % 8
    &&& place2 == place
    &&& rest.skip(1 + n) == tail
    &&& (bytes + tail).len() - rest.len() + 1 + n == bytes.len()
}

proof fn lemma_reads_as(
    w: bool,
    op: u8,
    reg: u8,
    x: bool,
    b: bool,
    m: Seq<u8>,
    tail: Seq<u8>,
    place: Place,
)
    requires
        !(0x40 <= op < 0x50),
        decode_rm(x, b, m + tail) == (reg as int % 8, place, m.len() as int),
    ensures
        reads_as(rex(w, reg >= 8, x, b) + seq![op] + m, tail, w, op, reg, place),
{
    let after = m + tail;
    let bytes = rex(w, reg >= 8, x, b) + seq![op] + m;
    lemma_split_rex(w, reg >= 8, x, b, seq![op] + after);
    assert(bytes + tail =~= rex(w, reg >= 8, x, b) + (seq![op] + after));
    assert((seq![op] + after).skip(1) =~= after);
    assert((seq![op] + after).skip(1 + m.len() as int) =~= tail);
}

/// An instruction with a ModRM byte reads back: its prefix bits, its opcode, its two operands,
/// and whatever follows.
proof fn lemma_any_rm(w: bool, op: u8, reg: u8, rm: Operand, tail: Seq<u8>)
    requires
        !(0x40 <= op < 0x50),
        reg < 16,
        reg_exists(rm),
        any_rm(w, seq![], seq![op], reg, rm) is Ok,
    ensures
        reads_as(
            any_rm(w, seq![], seq![op], reg, rm)->Ok_0.bytes,
            tail,
            w,
            op,
            reg,
            place_of(rm),
        ),
{
    let bytes = any_rm(w, seq![], seq![op], reg, rm)->Ok_0.bytes;
    match rm {
        Operand::Reg(r) => {
            let m = seq![modrm(3, reg as int, r.num as int)];
            lemma_modrm(3, reg as int, r.num as int);
            assert((m + tail)[0] == m[0]);
            lemma_reads_as(w, op, reg, false, r.num >= 8, m, tail, place_of(rm));
            assert(bytes =~= rex(w, reg >= 8, false, r.num >= 8) + seq![op] + m);
        },
        Operand::Mem(m) => {
            match m.rip_sym {
                Some(_) => {
                    let tl = seq![modrm(0, reg as int, 5), 0u8, 0u8, 0u8, 0u8];
                    lemma_modrm(0, reg as int, 5);
                    assert((tl + tail)[0] == tl[0]);
                    assert(signed32((tl + tail).skip(1)) == 0);
                    lemma_reads_as(w, op, reg, false, false, tl, tail, place_of(rm));
                    assert(bytes =~= rex(w, reg >= 8, false, false) + seq![op] + tl);
                },
                None => {
                    let (x, b) = (num_high(m.index), num_high(m.base));
                    lemma_mem_tail(reg, m, tail);
                    lemma_reads_as(w, op, reg, x, b, mem_tail(reg, m), tail, place_of(rm));
                    assert(bytes =~= rex(w, reg >= 8, x, b) + seq![op] + mem_tail(reg, m));
                },
            }
        },
        _ => {},
    }
}

/// What the bare mnemonics do.
pub open spec fn bare_op(m: Seq<char>) -> BareOp {
    if m == "ret"@ {
        BareOp::Ret
    } else if m == "nop"@ {
        BareOp::Nop
    } else if m == "cqo"@ {
        BareOp::Cqo
    } else if m == "leave"@ {
        BareOp::Leave
    } else if m == "std"@ {
        BareOp::Std
    } else {
        BareOp::Cld
    }
}

pub open spec fn branch_op(m: Seq<char>) -> BranchOp {
    if m == "call"@ {
        BranchOp::Call
    } else if m == "jmp"@ {
        BranchOp::Jmp
    } else {
        BranchOp::If(condition(m).unwrap() as int)
    }
}

pub open spec fn pair_op(m: Seq<char>) -> PairOp {
    if m == "mov"@ {
        PairOp::Mov
    } else if m == "lea"@ {
        PairOp::Lea
    } else if alu_digit(m) is Some {
        PairOp::Alu(alu_digit(m).unwrap() as int)
    } else {
        PairOp::Test
    }
}

/// What an operand stands for in an instruction on `bits` bits. A number is taken as the signed
/// number of that width.
pub open spec fn value_of(op: Operand, bits: int) -> Value {
    match op {
        Operand::Imm(v) => Value::Imm(
            if bits == 32 && v > 0x7fff_ffff {
                v - 0x1_0000_0000
            } else {
                v as int
            },
        ),
        _ => Value::At(place_of(op)),
    }
}

/// The width of what an instruction with two operands works on: for `lea` that of the register,
/// and else the one that the operands agree on.
pub open spec fn width_of(mnemonic: Seq<char>, dst: Operand, src: Operand) -> int {
    match dst {
        Operand::Reg(d) if mnemonic == "lea"@ => class_bits(d.class),
        _ => pair_bits(dst, src).unwrap(),
    }
}

/// What the instruction as written says. The field of a branch is zero, with a fixup.
pub open spec fn meaning(mnemonic: Seq<char>, ops: Seq<Operand>) -> Insn {
    if ops.len() == 0 {
        Insn::Bare(bare_op(mnemonic))
    } else if ops.len() == 1 {
        match ops[0] {
            Operand::Reg(r) => if mnemonic == "push"@ {
                Insn::Push { bits: class_bits(r.class), reg: r.num as int }
            } else {
                Insn::Pop { bits: class_bits(r.class), reg: r.num as int }
            },
            _ => Insn::Branch { op: branch_op(mnemonic), rel: 0 },
        }
    } else {
        let bits = width_of(mnemonic, ops[0], ops[1]);
        Insn::Pair {
            op: pair_op(mnemonic),
            bits,
            dst: place_of(ops[0]),
            src: value_of(ops[1], bits),
        }
    }
}

/// The instructions without operands read back.
proof fn lemma_bare_means(mnemonic: Seq<char>)
    requires
        encoding(mnemonic, seq![]) is Ok,
    ensures
        ({
            let c = encoding(mnemonic, seq![])->Ok_0;
            decode(c.bytes) == Some((meaning(mnemonic, seq![]), c.bytes.len() as int))
        }),
{
    reveal(decode);
    reveal_strlit("ret");
    reveal_strlit("nop");
    reveal_strlit("cqo");
    reveal_strlit("leave");
    reveal_strlit("std");
    reveal_strlit("cld");
}

/// The instructions with one operand read back.
proof fn lemma_one_means(mnemonic: Seq<char>, op: Operand)
    requires
        encoding(mnemonic, seq![op]) is Ok,
    ensures
        ({
            let c = encoding(mnemonic, seq![op])->Ok_0;
            decode(c.bytes) == Some((meaning(mnemonic, seq![op]), c.bytes.len() as int))
        }),
{
    reveal(decode);
    let c = encoding(mnemonic, seq![op])->Ok_0;
    match op {
        Operand::Reg(r) => {
            let base: u8 = if mnemonic == "push"@ { 0x50 } else { 0x58 };
            let rest = seq![(base + r.num % 8) as u8];
            lemma_split_rex(false, false, false, r.num >= 8, rest);
        },
        Operand::Sym(_) => {
            let zero = seq![0u8, 0u8, 0u8, 0u8];
            if mnemonic == "call"@ || mnemonic == "jmp"@ {
                assert(c.bytes.skip(1) =~= zero);
            } else {
                assert(c.bytes.skip(2) =~= zero);
            }
        },
        _ => {},
    }
}

/// The register or memory forms without an immediate read back.
proof fn lemma_plain_form(w: bool, op: u8, reg: u8, bytes: Seq<u8>, at: Place)
    requires
        reg < 16,
        reads_as(bytes, seq![], w, op, reg, at),
    ensures
        ({
            let n = bytes.len() as int;
            let field = at_reg(reg as int);
            let from = Place::Reg(reg as int);
            let load = Value::At(at);
            &&& op == 0x89 ==> decode(bytes) == Some(
                (Insn::Pair { op: PairOp::Mov, bits: bits_of(w), dst: at, src: field }, n),
            )
            &&& op == 0x85 ==> decode(bytes) == Some(
                (Insn::Pair { op: PairOp::Test, bits: bits_of(w), dst: at, src: field }, n),
            )
            &&& op < 0x40 && op % 8 == 1 ==> decode(bytes) == Some(
                (Insn::Pair { op: PairOp::Alu(op as int / 8), bits: bits_of(w), dst: at, src: field }, n),
            )
            &&& op == 0x8B ==> decode(bytes) == Some(
                (Insn::Pair { op: PairOp::Mov, bits: bits_of(w), dst: from, src: load }, n),
            )
            &&& op == 0x8D ==> decode(bytes) == Some(
                (Insn::Pair { op: PairOp::Lea, bits: bits_of(w), dst: from, src: load }, n),
            )
            &&& op < 0x40 && op % 8 == 3 ==> decode(bytes) == Some(
                (Insn::Pair { op: PairOp::Alu(op as int / 8), bits: bits_of(w), dst: from, src: load }, n),
            )
        }),
{
    reveal(decode);
    assert(bytes + Seq::<u8>::empty() =~= bytes);
}

/// The bytes of an immediate: one where the opcode says so, and else four.
spec fn imm_bytes(op: u8, v: i64) -> Seq<u8> {
    if op == 0x83 {
        seq![le8(v as int)]
    } else {
        le32(v as int)
    }
}

/// The forms with an immediate read back.
proof fn lemma_imm_form(w: bool, op: u8, reg: u8, head: Seq<u8>, at: Place, v: i64)
    requires
        op == 0x83 || op == 0x81 || (op == 0xC7 && reg == 0),
        reg < 8,
        op == 0x83 ==> -128 <= v <= 127,
        imm_fits(w, v),
        reads_as(head, imm_bytes(op, v), w, op, reg, at),
    ensures
        ({
            let bytes = head + imm_bytes(op, v);
            let pair = if op == 0xC7 { PairOp::Mov } else { PairOp::Alu(reg as int) };
            decode(bytes) == Some(
                (
                    Insn::Pair {
                        op: pair,
                        bits: bits_of(w),
                        dst: at,
                        src: value_of(Operand::Imm(v), bits_of(w)),
                    },
                    bytes.len() as int,
                ),
            )
        }),
{
    lemma_le_len(v as int);
    reveal(decode);
    if op == 0x83 {
        lemma_signed8(v as int);
    } else if v > 0x7fff_ffff {
        lemma_le32_mod(v as int);
        lemma_le32_mod(v - 0x1_0000_0000);
        lemma_signed32(v - 0x1_0000_0000);
    } else {
        lemma_signed32(v as int);
    }
}

/// `mov r64, imm64` reads back.
proof fn lemma_imm64_form(num: u8, v: int)
    requires
        num < 16,
        i64::MIN <= v <= i64::MAX,
    ensures
        ({
            let bytes = rex(true, false, false, num >= 8) + seq![(0xB8 + num % 8) as u8] + le64(v);
            decode(bytes) == Some(
                (
                    Insn::Pair {
                        op: PairOp::Mov,
                        bits: 64,
                        dst: Place::Reg(num as int),
                        src: Value::Imm(v),
                    },
                    10int,
                ),
            )
        }),
{
    reveal(le64);
    lemma_le_len(v);
    lemma_le_len(v / 0x1_0000_0000);
    reveal(decode);
    let op = (0xB8 + num % 8) as u8;
    let bytes = rex(true, false, false, num >= 8) + seq![op] + le64(v);
    let rest = seq![op] + le64(v);
    lemma_split_rex(true, false, false, num >= 8, rest);
    assert(bytes =~= rex(true, false, false, num >= 8) + rest);
    assert(rest.skip(1) =~= le64(v));
    assert(le64(v).skip(4) =~= le32(v / 0x1_0000_0000));
    lemma_signed32(v / 0x1_0000_0000);
    crate::bytes::lemma_from_le32(v);
    assert(from_le32(le64(v)) == from_le32(le32(v)));
}

/// `code` with the displacement `v` in its field, where it has one.
pub open spec fn filled(code: Code, v: int) -> Seq<u8> {
    if code.fixups.len() == 0 {
        code.bytes
    } else {
        overwrite(code.bytes, code.fixups[0].at, le32(v))
    }
}

/// `place`, with the displacement `v` where it is relative to RIP.
pub open spec fn aimed_place(place: Place, v: int) -> Place {
    match place {
        Place::Rip { .. } => Place::Rip { disp: v },
        _ => place,
    }
}

/// `insn`, with the displacement `v` in the branch or in the RIP-relative operand.
pub open spec fn aimed(insn: Insn, v: int) -> Insn {
    match insn {
        Insn::Branch { op, .. } => Insn::Branch { op, rel: v },
        Insn::Pair { op, bits, dst, src } => Insn::Pair {
            op,
            bits,
            dst: aimed_place(dst, v),
            src: match src {
                Value::At(p) => Value::At(aimed_place(p, v)),
                _ => src,
            },
        },
        _ => insn,
    }
}

/// A RIP-relative operand reads back from its ModRM byte and its displacement.
proof fn lemma_rip_tail(reg: u8, tail: Seq<u8>, v: int)
    requires
        -0x8000_0000 <= v <= 0x7fff_ffff,
    ensures
        ({
            let tl = seq![modrm(0, reg as int, 5)] + le32(v);
            &&& decode_rm(false, false, tl + tail) == (
                reg as int % 8,
                Place::Rip { disp: v },
                tl.len() as int,
            )
            &&& tl.len() == 5
        }),
{
    let tl = seq![modrm(0, reg as int, 5)] + le32(v);
    lemma_le_len(v);
    lemma_signed32(v);
    lemma_modrm(0, reg as int, 5);
    assert((tl + tail)[0] == tl[0]);
    let s = (tl + tail).skip(1);
    assert(s[0] == le32(v)[0] && s[1] == le32(v)[1] && s[2] == le32(v)[2] && s[3] == le32(v)[3]);
}

/// Filling the last four of `head + field`, before `tail`.
proof fn lemma_overwrite_behind(head: Seq<u8>, field: Seq<u8>, tail: Seq<u8>, v: int)
    requires
        field.len() == 4,
    ensures
        overwrite(head + field, head.len() as int, le32(v)) == head + le32(v),
        overwrite(head + field + tail, head.len() as int, le32(v)) == head + le32(v) + tail,
{
    lemma_le_len(v);
    assert(overwrite(head + field, head.len() as int, le32(v)) =~= head + le32(v));
    assert(overwrite(head + field + tail, head.len() as int, le32(v)) =~= head + le32(v) + tail);
}

/// An instruction with a RIP-relative operand reads back when its field is filled.
#[verifier::spinoff_prover]
#[verifier::rlimit(60)]
proof fn lemma_filled_rip(w: bool, op: u8, reg: u8, m: Mem, tail: Seq<u8>, v: int)
    requires
        !(0x40 <= op < 0x50),
        m.rip_sym is Some,
        mem_rm(w, seq![], seq![op], reg, m) is Ok,
        -0x8000_0000 <= v <= 0x7fff_ffff,
    ensures
        ({
            let c = mem_rm(w, seq![], seq![op], reg, m)->Ok_0;
            &&& reads_as(filled(c, v), tail, w, op, reg, Place::Rip { disp: v })
            &&& filled(c.then_bytes(tail), v) == filled(c, v) + tail
        }),
{
    let c = mem_rm(w, seq![], seq![op], reg, m)->Ok_0;
    let none = Seq::<u8>::empty();
    let head = none + rex(w, reg >= 8, false, false) + seq![op] + seq![modrm(0, reg as int, 5)];
    let zero = seq![0u8, 0u8, 0u8, 0u8];
    assert(c.bytes == head + zero);
    assert(c.fixups[0].at == head.len());
    lemma_overwrite_behind(head, zero, tail, v);
    let tl = seq![modrm(0, reg as int, 5)] + le32(v);
    lemma_rip_tail(reg, tail, v);
    lemma_reads_as(w, op, reg, false, false, tl, tail, Place::Rip { disp: v });
    assert(filled(c, v) =~= rex(w, reg >= 8, false, false) + seq![op] + tl);
}

/// An instruction with a ModRM byte reads back when its field is filled, whatever follows.
proof fn lemma_filled_rm(w: bool, op: u8, reg: u8, rm: Operand, tail: Seq<u8>, v: int)
    requires
        !(0x40 <= op < 0x50),
        reg < 16,
        reg_exists(rm),
        any_rm(w, seq![], seq![op], reg, rm) is Ok,
        -0x8000_0000 <= v <= 0x7fff_ffff,
    ensures
        ({
            let c = any_rm(w, seq![], seq![op], reg, rm)->Ok_0;
            &&& reads_as(filled(c, v), tail, w, op, reg, aimed_place(place_of(rm), v))
            &&& filled(c.then_bytes(tail), v) == filled(c, v) + tail
        }),
{
    match rm {
        Operand::Mem(m) if m.rip_sym is Some => lemma_filled_rip(w, op, reg, m, tail, v),
        _ => lemma_any_rm(w, op, reg, rm, tail),
    }
}

/// `code` reads back as `op` on `bits` bits between these operands, whatever its field is filled
/// with.
spec fn reads_filled(code: Code, op: PairOp, bits: int, dst: Operand, src: Operand, x: int) -> bool {
    decode(filled(code, x)) == Some(
        (
            aimed(
                Insn::Pair { op, bits, dst: place_of(dst), src: value_of(src, bits) },
                x,
            ),
            code.bytes.len() as int,
        ),
    )
}

/// The forms of an instruction from a register read back.
proof fn lemma_from_reg(w: bool, op: u8, dst: Operand, r: Reg, x: int)
    requires
        op == 0x89 || op == 0x85 || (op < 0x40 && op % 8 == 1),
        r.num < 16,
        reg_exists(dst),
        any_rm(w, seq![], seq![op], r.num, dst) is Ok,
        -0x8000_0000 <= x <= 0x7fff_ffff,
    ensures
        ({
            let pair = if op == 0x89 {
                PairOp::Mov
            } else if op == 0x85 {
                PairOp::Test
            } else {
                PairOp::Alu(op as int / 8)
            };
            let c = any_rm(w, seq![], seq![op], r.num, dst)->Ok_0;
            reads_filled(c, pair, bits_of(w), dst, Operand::Reg(r), x)
        }),
{
    let c = any_rm(w, seq![], seq![op], r.num, dst)->Ok_0;
    lemma_filled_rm(w, op, r.num, dst, seq![], x);
    lemma_plain_form(w, op, r.num, filled(c, x), aimed_place(place_of(dst), x));
}

/// The forms of an instruction from memory to a register read back.
proof fn lemma_from_mem(w: bool, op: u8, d: Reg, src: Operand, x: int)
    requires
        op == 0x8B || op == 0x8D || (op < 0x40 && op % 8 == 3),
        d.num < 16,
        src is Mem,
        any_rm(w, seq![], seq![op], d.num, src) is Ok,
        -0x8000_0000 <= x <= 0x7fff_ffff,
    ensures
        ({
            let pair = if op == 0x8B {
                PairOp::Mov
            } else if op == 0x8D {
                PairOp::Lea
            } else {
                PairOp::Alu(op as int / 8)
            };
            let c = any_rm(w, seq![], seq![op], d.num, src)->Ok_0;
            reads_filled(c, pair, bits_of(w), Operand::Reg(d), src, x)
        }),
{
    let c = any_rm(w, seq![], seq![op], d.num, src)->Ok_0;
    lemma_filled_rm(w, op, d.num, src, seq![], x);
    lemma_plain_form(w, op, d.num, filled(c, x), aimed_place(place_of(src), x));
}

/// The forms of an instruction with an immediate read back.
proof fn lemma_from_imm(w: bool, op: u8, reg: u8, dst: Operand, v: i64, x: int)
    requires
        op == 0x83 || op == 0x81 || (op == 0xC7 && reg == 0),
        reg < 8,
        reg_exists(dst),
        op == 0x83 ==> -128 <= v <= 127,
        imm_fits(w, v),
        any_rm(w, seq![], seq![op], reg, dst) is Ok,
        -0x8000_0000 <= x <= 0x7fff_ffff,
    ensures
        ({
            let pair = if op == 0xC7 { PairOp::Mov } else { PairOp::Alu(reg as int) };
            let c = any_rm(w, seq![], seq![op], reg, dst)->Ok_0.then_bytes(imm_bytes(op, v));
            reads_filled(c, pair, bits_of(w), dst, Operand::Imm(v), x)
        }),
{
    let head = any_rm(w, seq![], seq![op], reg, dst)->Ok_0;
    lemma_filled_rm(w, op, reg, dst, imm_bytes(op, v), x);
    lemma_imm_form(w, op, reg, filled(head, x), aimed_place(place_of(dst), x), v);
}

proof fn lemma_mov_filled(dst: Operand, src: Operand, x: int)
    requires
        mov(dst, src) is Ok,
        -0x8000_0000 <= x <= 0x7fff_ffff,
    ensures
        reads_filled(
            mov(dst, src)->Ok_0,
            PairOp::Mov,
            pair_bits(dst, src).unwrap(),
            dst,
            src,
            x,
        ),
{
    let w = pair_w(dst, src).unwrap();
    match (dst, src) {
        (_, Operand::Reg(r)) => lemma_from_reg(w, 0x89, dst, r, x),
        (Operand::Reg(d), Operand::Mem(_)) => lemma_from_mem(w, 0x8B, d, src, x),
        (Operand::Reg(d), Operand::Imm(v)) => {
            if imm_fits(true, v) {
                lemma_from_imm(true, 0xC7, 0, dst, v, x);
            } else {
                lemma_le_len(v as int);
                lemma_imm64_form(d.num, v as int);
            }
        },
        (_, Operand::Imm(v)) => lemma_from_imm(w, 0xC7, 0, dst, v, x),
        _ => {},
    }
}

proof fn lemma_alu_filled(digit: u8, dst: Operand, src: Operand, x: int)
    requires
        digit < 8,
        alu_op(digit, dst, src) is Ok,
        -0x8000_0000 <= x <= 0x7fff_ffff,
    ensures
        reads_filled(
            alu_op(digit, dst, src)->Ok_0,
            PairOp::Alu(digit as int),
            pair_bits(dst, src).unwrap(),
            dst,
            src,
            x,
        ),
{
    let w = pair_w(dst, src).unwrap();
    match (dst, src) {
        (_, Operand::Reg(r)) => lemma_from_reg(w, (8 * digit + 1) as u8, dst, r, x),
        (Operand::Reg(d), Operand::Mem(_)) => lemma_from_mem(w, (8 * digit + 3) as u8, d, src, x),
        (_, Operand::Imm(v)) => {
            if -128 <= v <= 127 {
                lemma_from_imm(w, 0x83, digit, dst, v, x);
            } else {
                lemma_from_imm(w, 0x81, digit, dst, v, x);
            }
        },
        _ => {},
    }
}

/// The instructions with two operands read back, whatever their field is filled with.
proof fn lemma_two_filled(mnemonic: Seq<char>, dst: Operand, src: Operand, x: int)
    requires
        encoding(mnemonic, seq![dst, src]) is Ok,
        -0x8000_0000 <= x <= 0x7fff_ffff,
    ensures
        ({
            let c = encoding(mnemonic, seq![dst, src])->Ok_0;
            decode(filled(c, x)) == Some(
                (aimed(meaning(mnemonic, seq![dst, src]), x), c.bytes.len() as int),
            )
        }),
{
    if mnemonic == "mov"@ {
        lemma_mov_filled(dst, src, x);
    } else if mnemonic == "lea"@ {
        match dst {
            Operand::Reg(d) => lemma_from_mem(class_bits(d.class) == 64, 0x8D, d, src, x),
            _ => {},
        }
    } else if alu_digit(mnemonic) is Some {
        lemma_alu_filled(alu_digit(mnemonic).unwrap(), dst, src, x);
    } else {
        match src {
            Operand::Reg(r) => lemma_from_reg(pair_w(dst, src).unwrap(), 0x85, dst, r, x),
            _ => {},
        }
    }
}

/// The branches read back, whatever their field is filled with.
proof fn lemma_branch_filled(mnemonic: Seq<char>, op: Operand, x: int)
    requires
        op is Sym,
        encoding(mnemonic, seq![op]) is Ok,
        -0x8000_0000 <= x <= 0x7fff_ffff,
    ensures
        ({
            let c = encoding(mnemonic, seq![op])->Ok_0;
            &&& decode(filled(c, x)) == Some(
                (aimed(meaning(mnemonic, seq![op]), x), c.bytes.len() as int),
            )
            &&& c.fixups.len() == 1
            &&& c.fixups[0].at + 4 == c.bytes.len()
        }),
{
    reveal(decode);
    let c = encoding(mnemonic, seq![op])->Ok_0;
    lemma_le_len(x);
    lemma_signed32(x);
    if mnemonic == "call"@ || mnemonic == "jmp"@ {
        assert(filled(c, x).skip(1) =~= le32(x));
    } else {
        assert(filled(c, x).skip(2) =~= le32(x));
    }
}

/// The operand names a symbol for the loader to find: the target of a branch, or a RIP-relative
/// address.
pub open spec fn names_symbol(op: Operand) -> bool {
    match op {
        Operand::Sym(_) => true,
        Operand::Mem(m) => m.rip_sym is Some,
        _ => false,
    }
}

/// The fixup is the one that `op` asks for: its target is the symbol as written, in a branch field
/// or in a RIP-relative field.
pub open spec fn refers_to(f: FixupView, op: Operand) -> bool {
    match op {
        Operand::Sym(s) => f.kind == FixupKind::Rel32 && f.target == s@,
        Operand::Mem(m) => m.rip_sym matches Some(s) && f.kind == FixupKind::RipRel32 && f.target
            == s@,
        _ => false,
    }
}

/// Each symbol that an instruction names is left as exactly one fixup with the symbol as its
/// target, and an instruction that names none has none.
pub proof fn symbols_become_fixups(mnemonic: Seq<char>, ops: Seq<Operand>)
    requires
        encoding(mnemonic, ops) is Ok,
    ensures
        ({
            let c = encoding(mnemonic, ops)->Ok_0;
            &&& forall|i: int|
                0 <= i < ops.len() && names_symbol(#[trigger] ops[i]) ==> c.fixups.len() == 1
                    && refers_to(c.fixups[0], ops[i])
            &&& (forall|i: int| 0 <= i < ops.len() ==> !names_symbol(#[trigger] ops[i]))
                ==> c.fixups.len() == 0
        }),
{
    if ops.len() == 2 {
        assert(names_symbol(ops[0]) || !names_symbol(ops[0]));
        assert(names_symbol(ops[1]) || !names_symbol(ops[1]));
    } else if ops.len() == 1 {
        assert(names_symbol(ops[0]) || !names_symbol(ops[0]));
    }
}

/// The field of a fixup is where the processor reads the displacement: with `v` put there, the
/// instruction reads back as the one that was written, going by `v`. The field of a branch comes
/// last, so that the displacement counts from its end.
pub proof fn filling_the_field_aims_the_instruction(mnemonic: Seq<char>, ops: Seq<Operand>, v: int)
    requires
        encoding(mnemonic, ops) is Ok,
        -0x8000_0000 <= v <= 0x7fff_ffff,
        exists|i: int| 0 <= i < ops.len() && names_symbol(#[trigger] ops[i]),
    ensures
        ({
            let c = encoding(mnemonic, ops)->Ok_0;
            let f = c.fixups[0];
            &&& c.fixups.len() == 1
            &&& 0 <= f.at && f.at + 4 <= c.bytes.len()
            &&& decode(overwrite(c.bytes, f.at, le32(v))) == Some(
                (aimed(meaning(mnemonic, ops), v), c.bytes.len() as int),
            )
            &&& f.kind == FixupKind::Rel32 ==> f.at + 4 == c.bytes.len()
        }),
{
    symbols_become_fixups(mnemonic, ops);
    fixups_are_zeroed_fields(mnemonic, ops);
    if ops.len() == 1 {
        assert(ops =~= seq![ops[0]]);
        lemma_branch_filled(mnemonic, ops[0], v);
    } else {
        assert(ops =~= seq![ops[0], ops[1]]);
        lemma_two_filled(mnemonic, ops[0], ops[1], v);
    }
}

/// An instruction goes somewhere by way of a displacement exactly where it names a symbol.
pub proof fn only_symbols_are_aimed(mnemonic: Seq<char>, ops: Seq<Operand>, v: int)
    requires
        encoding(mnemonic, ops) is Ok,
        forall|i: int| 0 <= i < ops.len() ==> !names_symbol(#[trigger] ops[i]),
    ensures
        aimed(meaning(mnemonic, ops), v) == meaning(mnemonic, ops),
{
    if ops.len() == 2 {
        assert(!names_symbol(ops[0]));
        assert(!names_symbol(ops[1]));
    } else if ops.len() == 1 {
        assert(!names_symbol(ops[0]));
    }
}

/// The instructions with two operands read back.
proof fn lemma_two_means(mnemonic: Seq<char>, dst: Operand, src: Operand)
    requires
        encoding(mnemonic, seq![dst, src]) is Ok,
    ensures
        ({
            let c = encoding(mnemonic, seq![dst, src])->Ok_0;
            decode(c.bytes) == Some((meaning(mnemonic, seq![dst, src]), c.bytes.len() as int))
        }),
{
    let ops = seq![dst, src];
    let c = encoding(mnemonic, ops)->Ok_0;
    lemma_two_filled(mnemonic, dst, src, 0);
    symbols_become_fixups(mnemonic, ops);
    assert(names_symbol(ops[0]) || !names_symbol(ops[0]));
    if c.fixups.len() > 0 {
        fixups_are_zeroed_fields(mnemonic, ops);
        reveal(le32);
        assert(le32(0) =~= seq![0u8, 0u8, 0u8, 0u8]);
        let at = c.fixups[0].at;
        assert forall|i: int| at <= i < at + 4 implies c.bytes[i] == le32(0)[i - at] by {
            assert(c.bytes.subrange(at, at + 4)[i - at] == c.bytes[i]);
        }
        assert(filled(c, 0) =~= c.bytes);
    }
    assert(aimed(meaning(mnemonic, ops), 0) == meaning(mnemonic, ops));
}

/// The law of the encoder: whatever it encodes, the processor reads back as the instruction that
/// was written, on the width that was written, and reads exactly those bytes.
pub proof fn encoding_means_what_was_written(mnemonic: Seq<char>, ops: Seq<Operand>)
    requires
        encoding(mnemonic, ops) is Ok,
    ensures
        ({
            let c = encoding(mnemonic, ops)->Ok_0;
            decode(c.bytes) == Some((meaning(mnemonic, ops), c.bytes.len() as int))
        }),
{
    if ops.len() == 0 {
        assert(ops =~= seq![]);
        lemma_bare_means(mnemonic);
    } else if ops.len() == 1 {
        assert(ops =~= seq![ops[0]]);
        lemma_one_means(mnemonic, ops[0]);
    } else {
        assert(ops =~= seq![ops[0], ops[1]]);
        lemma_two_means(mnemonic, ops[0], ops[1]);
    }
}

/// `c` has at most one fixup, and each refers to a four-byte field of zeros.
pub open spec fn zeroed_fields(c: Code) -> bool {
    &&& c.fixups.len() <= 1
    &&& forall|i: int|
        0 <= i < c.fixups.len() ==> {
            let at = (#[trigger] c.fixups[i]).at;
            &&& 0 < at && at + 4 <= c.bytes.len()
            &&& c.bytes.subrange(at, at + 4) == seq![0u8, 0u8, 0u8, 0u8]
        }
}

proof fn lemma_any_rm_fields(w: bool, op: u8, reg: u8, rm: Operand, tail: Seq<u8>)
    ensures
        any_rm(w, seq![], seq![op], reg, rm) matches Ok(c) ==> zeroed_fields(c) && zeroed_fields(
            c.then_bytes(tail),
        ),
{
    match any_rm(w, seq![], seq![op], reg, rm) {
        Ok(c) => {
            if c.fixups.len() == 1 {
                let at = c.fixups[0].at;
                let zero = seq![0u8, 0u8, 0u8, 0u8];
                assert(c.bytes.subrange(at, at + 4) =~= zero);
                assert(c.then_bytes(tail).bytes.subrange(at, at + 4) =~= zero);
            }
        },
        Err(_) => {},
    }
}

proof fn lemma_branch_fields(op: Seq<u8>, target: Seq<char>)
    requires
        op.len() > 0,
    ensures
        zeroed_fields(plain(op).then_field(FixupKind::Rel32, target)),
{
    let c = plain(op).then_field(FixupKind::Rel32, target);
    assert(c.bytes.subrange(op.len() as int, op.len() as int + 4) =~= seq![0u8, 0u8, 0u8, 0u8]);
}

proof fn lemma_mov_fields(dst: Operand, src: Operand)
    ensures
        mov(dst, src) matches Ok(c) ==> zeroed_fields(c),
{
    let w = pair_w(dst, src).unwrap();
    match (dst, src) {
        (_, Operand::Reg(r)) => lemma_any_rm_fields(w, 0x89, r.num, dst, seq![]),
        (Operand::Reg(d), Operand::Mem(_)) => lemma_any_rm_fields(w, 0x8B, d.num, src, seq![]),
        (Operand::Mem(_), Operand::Imm(v)) => lemma_any_rm_fields(w, 0xC7, 0, dst, le32(v as int)),
        _ => {},
    }
}

proof fn lemma_alu_fields(digit: u8, dst: Operand, src: Operand)
    ensures
        alu_op(digit, dst, src) matches Ok(c) ==> zeroed_fields(c),
{
    let w = pair_w(dst, src).unwrap();
    match (dst, src) {
        (_, Operand::Reg(r)) => lemma_any_rm_fields(w, (8 * digit + 1) as u8, r.num, dst, seq![]),
        (Operand::Reg(d), Operand::Mem(_)) => lemma_any_rm_fields(
            w,
            (8 * digit + 3) as u8,
            d.num,
            src,
            seq![],
        ),
        (_, Operand::Imm(v)) => {
            lemma_any_rm_fields(w, 0x83, digit, dst, seq![le8(v as int)]);
            lemma_any_rm_fields(w, 0x81, digit, dst, le32(v as int));
        },
        _ => {},
    }
}

/// A fixup refers to a four-byte field of zeros inside the encoded bytes, and an instruction has
/// at most one.
pub proof fn fixups_are_zeroed_fields(mnemonic: Seq<char>, ops: Seq<Operand>)
    requires
        encoding(mnemonic, ops) is Ok,
    ensures
        zeroed_fields(encoding(mnemonic, ops)->Ok_0),
{
    if ops.len() == 1 {
        match ops[0] {
            Operand::Sym(s) => {
                lemma_branch_fields(seq![0xE8u8], s@);
                lemma_branch_fields(seq![0xE9u8], s@);
                lemma_branch_fields(seq![0x0Fu8, (0x80 + condition(mnemonic).unwrap()) as u8], s@);
            },
            _ => {},
        }
    } else if ops.len() == 2 {
        if mnemonic == "mov"@ {
            lemma_mov_fields(ops[0], ops[1]);
        } else if mnemonic == "lea"@ {
            match ops[0] {
                Operand::Reg(d) => lemma_any_rm_fields(
                    class_bits(d.class) == 64,
                    0x8D,
                    d.num,
                    ops[1],
                    seq![],
                ),
                _ => {},
            }
        } else if alu_digit(mnemonic) is Some {
            lemma_alu_fields(alu_digit(mnemonic).unwrap(), ops[0], ops[1]);
        } else {
            match ops[1] {
                Operand::Reg(r) => lemma_any_rm_fields(
                    pair_w(ops[0], ops[1]).unwrap(),
                    0x85,
                    r.num,
                    ops[0],
                    seq![],
                ),
                _ => {},
            }
        }
    }
}

} // verus!
