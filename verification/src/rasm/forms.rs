//! Which instructions there are forms for, told from the instruction as it is written.
//!
//! [`has_form`] says it operand by operand, and [`what_has_a_form_is_encoded`] that the encoder
//! refuses nothing else.

use vstd::prelude::*;
use vstd::string::*;

use crate::bytes::lemma_le_len;
use crate::rasm::decode::{decode, encoding_means_what_was_written, Insn};
use crate::rasm::encode::{
    alu_digit, alu_op, any_rm, condition, encoding, every_jump_has_a_condition, imm_fits, is_rm,
    jump_names, mem_rm, mem_tail, mov, pair_w, EncodeError,
};
use crate::rasm::operand::{Mem, MemSize, Operand, Reg, RegClass};

verus! {

/// A general register of 32 or 64 bits.
pub open spec fn general(r: Reg) -> bool {
    (r.class == RegClass::R32 || r.class == RegClass::R64) && r.num < 16
}

/// A general register of 64 bits.
pub open spec fn general64(r: Reg) -> bool {
    r.class == RegClass::R64 && r.num < 16
}

/// Memory whose address the processor can form: relative to RIP with nothing besides the symbol,
/// or from 64-bit registers, of which the index is not rsp, with a displacement of 32 bits. The
/// scale is 1, 2, 4 or 8, where there is an index or the base is rsp or r12.
pub open spec fn addressable(m: Mem) -> bool {
    if m.rip_sym is Some {
        m.base is None && m.index is None && m.disp == 0
    } else {
        &&& m.base matches Some(b) ==> general64(b)
        &&& m.index matches Some(i) ==> general64(i) && i.num != 4
        &&& -0x8000_0000 <= m.disp <= 0x7fff_ffff
        &&& m.index is Some || (m.base matches Some(b) && (b.num == 4 || b.num == 12)) ==> m.scale
            == 1 || m.scale == 2 || m.scale == 4 || m.scale == 8
    }
}

/// Memory that can stand beside the register `r`: it states the width of `r` or none.
pub open spec fn fits_beside(m: Mem, r: Reg) -> bool {
    addressable(m) && general(r) && match m.size {
        None => true,
        Some(size) => size == if r.class == RegClass::R64 {
            MemSize::Qword
        } else {
            MemSize::Dword
        },
    }
}

/// A register or memory that can be combined with the register `r`.
pub open spec fn beside_reg(op: Operand, r: Reg) -> bool {
    match op {
        Operand::Reg(d) => general(d) && general(r) && d.class == r.class,
        Operand::Mem(m) => fits_beside(m, r),
        _ => false,
    }
}

/// A number that an instruction on 64 bits can hold: 32 bits, sign-extended.
pub open spec fn short64(v: i64) -> bool {
    -0x8000_0000 <= v <= 0x7fff_ffff
}

/// A number that an instruction on 32 bits can hold, signed or unsigned.
pub open spec fn short32(v: i64) -> bool {
    -0x8000_0000 <= v <= 0xffff_ffff
}

/// A register or memory that the number `v` can be combined with. Memory that states no width
/// counts as 64 bits.
pub open spec fn beside_number(op: Operand, v: i64) -> bool {
    match op {
        Operand::Reg(r) => general(r) && if r.class == RegClass::R64 {
            short64(v)
        } else {
            short32(v)
        },
        Operand::Mem(m) => addressable(m) && match m.size {
            None | Some(MemSize::Qword) => short64(v),
            Some(MemSize::Dword) => short32(v),
            _ => false,
        },
        _ => false,
    }
}

pub open spec fn is_alu(m: Seq<char>) -> bool {
    m == "add"@ || m == "or"@ || m == "adc"@ || m == "sbb"@ || m == "and"@ || m == "sub"@ || m
        == "xor"@ || m == "cmp"@
}

/// A form for two operands.
pub open spec fn has_pair_form(m: Seq<char>, dst: Operand, src: Operand) -> bool {
    if m == "mov"@ {
        match (dst, src) {
            (_, Operand::Reg(r)) => beside_reg(dst, r),
            (Operand::Reg(d), Operand::Mem(s)) => fits_beside(s, d),
            (Operand::Reg(d), Operand::Imm(_)) => general64(d),
            (Operand::Mem(_), Operand::Imm(v)) => beside_number(dst, v),
            _ => false,
        }
    } else if m == "lea"@ {
        match (dst, src) {
            (Operand::Reg(d), Operand::Mem(s)) => general(d) && addressable(s),
            _ => false,
        }
    } else if is_alu(m) {
        match (dst, src) {
            (_, Operand::Reg(r)) => beside_reg(dst, r),
            (Operand::Reg(d), Operand::Mem(s)) => fits_beside(s, d),
            (_, Operand::Imm(v)) => beside_number(dst, v),
            _ => false,
        }
    } else {
        m == "test"@ && match src {
            Operand::Reg(r) => beside_reg(dst, r),
            _ => false,
        }
    }
}

/// There is a form for the instruction.
pub open spec fn has_form(m: Seq<char>, ops: Seq<Operand>) -> bool {
    if ops.len() == 0 {
        m == "ret"@ || m == "nop"@ || m == "cqo"@ || m == "leave"@ || m == "std"@ || m == "cld"@
    } else if ops.len() == 1 {
        match ops[0] {
            Operand::Reg(r) => (m == "push"@ || m == "pop"@) && general64(r),
            Operand::Sym(_) => m == "call"@ || m == "jmp"@ || jump_names().contains(m),
            _ => false,
        }
    } else {
        ops.len() == 2 && has_pair_form(m, ops[0], ops[1])
    }
}

/// Memory has a form wherever its address can be formed.
proof fn lemma_mem(w: bool, op: u8, reg: u8, m: Mem)
    ensures
        mem_rm(w, seq![], seq![op], reg, m) is Ok <==> addressable(m),
{
}

/// Two operands have a common width where they can stand side by side.
proof fn lemma_width(dst: Operand, r: Reg)
    ensures
        pair_w(dst, Operand::Reg(r)) is Some && is_rm(dst) && (dst matches Operand::Mem(m)
            ==> addressable(m)) <==> beside_reg(dst, r),
        pair_w(Operand::Reg(r), dst) == pair_w(dst, Operand::Reg(r)),
{
}

/// A number stands beside an operand where it fits its width.
proof fn lemma_number(dst: Operand, v: i64)
    ensures
        is_rm(dst) && (pair_w(dst, Operand::Imm(v)) matches Some(w) && imm_fits(w, v)) && (
        dst matches Operand::Mem(m) ==> addressable(m)) <==> beside_number(dst, v),
{
}

proof fn lemma_mov_form(dst: Operand, src: Operand)
    ensures
        mov(dst, src) is Ok <==> has_pair_form("mov"@, dst, src),
{
    let w = pair_w(dst, src).unwrap();
    match (dst, src) {
        (_, Operand::Reg(r)) => {
            lemma_width(dst, r);
            if let Operand::Mem(m) = dst {
                lemma_mem(w, 0x89, r.num, m);
            }
        },
        (Operand::Reg(d), Operand::Mem(m)) => {
            lemma_width(src, d);
            lemma_mem(w, 0x8B, d.num, m);
        },
        (Operand::Mem(m), Operand::Imm(v)) => {
            lemma_number(dst, v);
            lemma_mem(w, 0xC7, 0, m);
        },
        _ => {},
    }
}

proof fn lemma_alu_form(digit: u8, m: Seq<char>, dst: Operand, src: Operand)
    requires
        is_alu(m),
        m != "mov"@,
        m != "lea"@,
    ensures
        alu_op(digit, dst, src) is Ok <==> has_pair_form(m, dst, src),
{
    let w = pair_w(dst, src).unwrap();
    match (dst, src) {
        (_, Operand::Reg(r)) => {
            lemma_width(dst, r);
            if let Operand::Mem(x) = dst {
                lemma_mem(w, (8 * digit + 1) as u8, r.num, x);
            }
        },
        (Operand::Reg(d), Operand::Mem(x)) => {
            lemma_width(src, d);
            lemma_mem(w, (8 * digit + 3) as u8, d.num, x);
        },
        (_, Operand::Imm(v)) => {
            lemma_number(dst, v);
            if let Operand::Mem(x) = dst {
                lemma_mem(w, 0x83, digit, x);
                lemma_mem(w, 0x81, digit, x);
            }
        },
        _ => {},
    }
}

proof fn lemma_pair_form(m: Seq<char>, dst: Operand, src: Operand)
    ensures
        encoding(m, seq![dst, src]) is Ok <==> has_pair_form(m, dst, src),
{
    if m == "mov"@ {
        lemma_mov_form(dst, src);
    } else if m == "lea"@ {
        if let (Operand::Reg(d), Operand::Mem(x)) = (dst, src) {
            lemma_mem(true, 0x8D, d.num, x);
            lemma_mem(false, 0x8D, d.num, x);
        }
    } else if alu_digit(m) is Some {
        lemma_alu_form(alu_digit(m).unwrap(), m, dst, src);
    } else if let Operand::Reg(r) = src {
        lemma_width(dst, r);
        if let Operand::Mem(x) = dst {
            lemma_mem(pair_w(dst, src).unwrap(), 0x85, r.num, x);
        }
    }
}

/// The encoder encodes exactly the instructions that there are forms for.
pub proof fn what_has_a_form_is_encoded(m: Seq<char>, ops: Seq<Operand>)
    ensures
        encoding(m, ops) is Ok <==> has_form(m, ops),
{
    if ops.len() == 2 {
        assert(ops =~= seq![ops[0], ops[1]]);
        lemma_pair_form(m, ops[0], ops[1]);
    } else {
        every_jump_has_a_condition(m);
    }
}

/// A branch or a number stands where a register or memory has to: as what a register goes to or
/// is tested against, or as what an ALU instruction works on.
pub open spec fn goes_nowhere(m: Seq<char>, ops: Seq<Operand>) -> bool {
    &&& ops.len() == 2
    &&& ops[0] is Imm || ops[0] is Sym
    &&& ops[1] is Reg && (m == "mov"@ || m == "test"@ || is_alu(m)) || ops[1] is Imm && is_alu(m)
}

/// The memory would be addressable with another scale.
pub open spec fn needs_scale(m: Mem) -> bool {
    !addressable(m) && addressable(Mem { scale: 1, ..m })
}

/// `e` says why an instruction is refused, if it is.
pub open spec fn explains(e: EncodeError, m: Seq<char>, ops: Seq<Operand>) -> bool {
    match e {
        EncodeError::BadScale(scale) => scale != 1 && scale != 2 && scale != 4 && scale != 8
            && exists|i: int|
            0 <= i < ops.len() && (#[trigger] ops[i] matches Operand::Mem(x) && x.scale == scale
                && needs_scale(x)),
        EncodeError::BadAddress => exists|i: int|
            0 <= i < ops.len() && (#[trigger] ops[i] matches Operand::Mem(x) && !addressable(x)
                && !needs_scale(x)),
        EncodeError::NotRegOrMem => goes_nowhere(m, ops),
        EncodeError::UnsupportedMov => m == "mov"@ && ops.len() == 2 && !goes_nowhere(m, ops),
        EncodeError::UnsupportedAlu => is_alu(m) && ops.len() == 2 && !goes_nowhere(m, ops),
        EncodeError::Unsupported { operands } => operands == ops.len() && (ops.len() != 2 || (m
            != "mov"@ && !is_alu(m) && !goes_nowhere(m, ops))),
    }
}

proof fn lemma_mem_refused(w: bool, op: u8, reg: u8, x: Mem, ops: Seq<Operand>, m: Seq<char>, i: int)
    requires
        0 <= i < ops.len(),
        ops[i] == Operand::Mem(x),
    ensures
        mem_rm(w, seq![], seq![op], reg, x) matches Err(e) ==> explains(e, m, ops),
{
}

/// The other names of instructions with two operands are none of the ALU group.
proof fn lemma_names(m: Seq<char>)
    ensures
        is_alu(m) ==> m != "mov"@ && m != "lea"@ && m != "test"@,
        "mov"@ != "lea"@,
        "mov"@ != "test"@,
        "lea"@ != "test"@,
{
    reveal_strlit("mov");
    reveal_strlit("lea");
    reveal_strlit("test");
    reveal_strlit("add");
    reveal_strlit("or");
    reveal_strlit("adc");
    reveal_strlit("sbb");
    reveal_strlit("and");
    reveal_strlit("sub");
    reveal_strlit("xor");
    reveal_strlit("cmp");
    assert("mov"@[0] == 'm' && "lea"@[0] == 'l' && "test"@[0] == 't');
    assert(is_alu(m) ==> m[0] == 'a' || m[0] == 'o' || m[0] == 's' || m[0] == 'x' || m[0] == 'c');
}

/// The error of a refused instruction says what is wrong with it.
pub proof fn refusals_are_explained(m: Seq<char>, ops: Seq<Operand>)
    requires
        ops.len() <= usize::MAX,
    ensures
        encoding(m, ops) matches Err(e) ==> explains(e, m, ops),
{
    lemma_names(m);
    alu_group(m);
    if ops.len() == 2 {
        let w = pair_w(ops[0], ops[1]).unwrap();
        let digit = alu_digit(m).unwrap();
        if let Operand::Mem(x) = ops[0] {
            let reg = match ops[1] {
                Operand::Reg(r) => r.num,
                _ => 0,
            };
            lemma_mem_refused(w, 0x89, reg, x, ops, m, 0);
            lemma_mem_refused(w, 0x85, reg, x, ops, m, 0);
            lemma_mem_refused(w, 0xC7, 0, x, ops, m, 0);
            lemma_mem_refused(w, (8 * digit + 1) as u8, reg, x, ops, m, 0);
            lemma_mem_refused(w, 0x83, digit, x, ops, m, 0);
            lemma_mem_refused(w, 0x81, digit, x, ops, m, 0);
        }
        if let (Operand::Reg(d), Operand::Mem(x)) = (ops[0], ops[1]) {
            lemma_mem_refused(w, 0x8B, d.num, x, ops, m, 1);
            lemma_mem_refused(true, 0x8D, d.num, x, ops, m, 1);
            lemma_mem_refused(false, 0x8D, d.num, x, ops, m, 1);
            lemma_mem_refused(w, (8 * digit + 3) as u8, d.num, x, ops, m, 1);
        }
    }
}

/// The width in bits that two operands are written with: that of a register, and else the one that
/// the memory states, or 64.
pub open spec fn written_bits(dst: Operand, src: Operand) -> int {
    match (dst, src) {
        (Operand::Reg(r), _) | (_, Operand::Reg(r)) => if r.class == RegClass::R64 {
            64
        } else {
            32
        },
        (Operand::Mem(m), _) => if m.size == Some(MemSize::Dword) {
            32
        } else {
            64
        },
        _ => 64,
    }
}

/// An instruction with two operands works on the width that it is written with.
pub proof fn instructions_have_the_written_width(m: Seq<char>, dst: Operand, src: Operand)
    requires
        encoding(m, seq![dst, src]) is Ok,
    ensures
        decode(encoding(m, seq![dst, src])->Ok_0.bytes) matches Some((Insn::Pair { bits, .. }, _))
            && bits == written_bits(dst, src),
{
    encoding_means_what_was_written(m, seq![dst, src]);
    what_has_a_form_is_encoded(m, seq![dst, src]);
}

/// The flags that conditions are made from: overflow, carry, zero, sign and parity.
pub struct Flags {
    pub o: bool,
    pub c: bool,
    pub z: bool,
    pub s: bool,
    pub p: bool,
}

/// Whether the processor takes a jump on the condition with this number: eight conditions, each
/// followed by its negation.
pub open spec fn holds_in(number: u8, f: Flags) -> bool {
    let test = match number / 2 {
        0 => f.o,
        1 => f.c,
        2 => f.z,
        3 => f.c || f.z,
        4 => f.s,
        5 => f.p,
        6 => f.s != f.o,
        _ => f.z || f.s != f.o,
    };
    if number % 2 == 0 {
        test
    } else {
        !test
    }
}

/// Whether a jump of this name is to be taken: on overflow, below, equal, below or equal, on sign,
/// on parity, less, less or equal, or not so.
pub open spec fn says_so(m: Seq<char>, f: Flags) -> bool {
    if m == "jo"@ {
        f.o
    } else if m == "jno"@ {
        !f.o
    } else if m == "jb"@ || m == "jc"@ || m == "jnae"@ {
        f.c
    } else if m == "jae"@ || m == "jnb"@ || m == "jnc"@ {
        !f.c
    } else if m == "je"@ || m == "jz"@ {
        f.z
    } else if m == "jne"@ || m == "jnz"@ {
        !f.z
    } else if m == "jbe"@ || m == "jna"@ {
        f.c || f.z
    } else if m == "ja"@ || m == "jnbe"@ {
        !f.c && !f.z
    } else if m == "js"@ {
        f.s
    } else if m == "jns"@ {
        !f.s
    } else if m == "jp"@ || m == "jpe"@ {
        f.p
    } else if m == "jnp"@ || m == "jpo"@ {
        !f.p
    } else if m == "jl"@ || m == "jnge"@ {
        f.s != f.o
    } else if m == "jge"@ || m == "jnl"@ {
        f.s == f.o
    } else if m == "jle"@ || m == "jng"@ {
        f.z || f.s != f.o
    } else {
        !f.z && f.s == f.o
    }
}

/// A conditional jump is encoded with the number of the condition that its name says.
pub proof fn jumps_test_what_their_names_say(m: Seq<char>, f: Flags)
    ensures
        condition(m) matches Some(c) ==> holds_in(c, f) == says_so(m, f),
{
}

/// The ALU instructions by their place in the group: add, or, adc, sbb, and, sub, xor, cmp.
pub proof fn alu_group(m: Seq<char>)
    ensures
        alu_digit(m) is Some <==> is_alu(m),
        alu_digit("add"@) == Some(0u8),
        alu_digit("or"@) == Some(1u8),
        alu_digit("adc"@) == Some(2u8),
        alu_digit("sbb"@) == Some(3u8),
        alu_digit("and"@) == Some(4u8),
        alu_digit("sub"@) == Some(5u8),
        alu_digit("xor"@) == Some(6u8),
        alu_digit("cmp"@) == Some(7u8),
{
    reveal_strlit("add");
    reveal_strlit("or");
    reveal_strlit("adc");
    reveal_strlit("sbb");
    reveal_strlit("and");
    reveal_strlit("sub");
    reveal_strlit("xor");
    reveal_strlit("cmp");
    assert("or"@.len() == 2);
    assert("add"@[1] == 'd' && "add"@[2] == 'd' && "adc"@[1] == 'd' && "adc"@[2] == 'c' && "and"@[1]
        == 'n');
    assert("sbb"@[1] == 'b' && "sub"@[1] == 'u' && "xor"@[0] == 'x' && "cmp"@[0] == 'c' && "sbb"@[0]
        == 's' && "sub"@[0] == 's' && "add"@[0] == 'a' && "adc"@[0] == 'a' && "and"@[0] == 'a');
    assert("add"@.len() == 3 && "adc"@.len() == 3 && "sbb"@.len() == 3 && "and"@.len() == 3
        && "sub"@.len() == 3 && "xor"@.len() == 3 && "cmp"@.len() == 3);
}

/// The bytes that a displacement takes: none where it is zero, and else one where it fits a signed
/// byte. There is always one behind rbp and r13, and always a long one where there is no base.
pub open spec fn displacement_length(m: Mem) -> int {
    match m.base {
        None => 4,
        Some(b) => if m.disp == 0 && b.num != 5 && b.num != 13 {
            0
        } else if -128 <= m.disp <= 127 {
            1
        } else {
            4
        },
    }
}

/// The bytes that memory takes behind the ModRM byte: its displacement, and a SIB byte where there
/// is an index, or no base, or the base is rsp or r12.
pub open spec fn memory_length(m: Mem) -> int {
    if m.rip_sym is Some {
        4
    } else {
        displacement_length(m) + if m.index is Some || m.base is None || (m.base matches Some(b) && (
        b.num == 4 || b.num == 12)) {
            1int
        } else {
            0
        }
    }
}

/// An operand that takes a REX prefix: one of the upper eight registers is in it.
pub open spec fn takes_prefix(op: Operand) -> bool {
    match op {
        Operand::Reg(r) => r.num >= 8,
        Operand::Mem(m) => m.rip_sym is None && ((m.base matches Some(b) && b.num >= 8) || (
        m.index matches Some(i) && i.num >= 8)),
        _ => false,
    }
}

/// The bytes of an instruction on `bits` bits up to its immediate: the opcode and the ModRM byte
/// with what belongs to it, behind a REX prefix where one is needed.
pub open spec fn form_length(bits: int, reg: Operand, rm: Operand) -> int {
    (if bits == 64 || takes_prefix(reg) || takes_prefix(rm) {
        1int
    } else {
        0
    }) + 2 + match rm {
        Operand::Mem(m) => memory_length(m),
        _ => 0,
    }
}

/// The bytes of an instruction with two operands.
pub open spec fn pair_length(m: Seq<char>, dst: Operand, src: Operand) -> int {
    let bits = written_bits(dst, src);
    match (dst, src) {
        (_, Operand::Reg(_)) => form_length(bits, src, dst),
        (_, Operand::Imm(v)) => if m == "mov"@ {
            if dst is Reg && !short64(v) {
                10
            } else {
                form_length(bits, src, dst) + 4
            }
        } else if -128 <= v <= 127 {
            form_length(bits, src, dst) + 1
        } else {
            form_length(bits, src, dst) + 4
        },
        _ => form_length(bits, dst, src),
    }
}

proof fn lemma_rm_length(w: bool, op: u8, reg: u8, rm: Operand)
    requires
        reg < 16,
        rm matches Operand::Reg(r) ==> r.num < 16,
        rm matches Operand::Mem(m) ==> addressable(m),
        any_rm(w, seq![], seq![op], reg, rm) is Ok,
    ensures
        any_rm(w, seq![], seq![op], reg, rm)->Ok_0.bytes.len() == (if w || reg >= 8 || takes_prefix(
            rm,
        ) {
            1int
        } else {
            0
        }) + 2 + match rm {
            Operand::Mem(m) => memory_length(m),
            _ => 0,
        },
{
    if let Operand::Mem(m) = rm {
        lemma_le_len(m.disp as int);
        if m.rip_sym is None {
            assert(mem_tail(reg, m).len() == 1 + memory_length(m));
        }
    }
}

/// An instruction is no longer than it has to be: prefixes, SIB bytes, displacements and
/// immediates take no more bytes than their values need.
pub proof fn instructions_are_short(m: Seq<char>, dst: Operand, src: Operand)
    requires
        encoding(m, seq![dst, src]) is Ok,
    ensures
        encoding(m, seq![dst, src])->Ok_0.bytes.len() == pair_length(m, dst, src),
{
    lemma_pair_form(m, dst, src);
    if m == "mov"@ {
        lemma_mov_length(dst, src);
    } else if m == "lea"@ {
        if let (Operand::Reg(d), Operand::Mem(_)) = (dst, src) {
            lemma_rm_length(d.class == RegClass::R64, 0x8D, d.num, src);
        }
    } else if alu_digit(m) is Some {
        lemma_alu_length(alu_digit(m).unwrap(), m, dst, src);
    } else if let Operand::Reg(r) = src {
        lemma_width(dst, r);
        lemma_rm_length(pair_w(dst, src).unwrap(), 0x85, r.num, dst);
    }
}

proof fn lemma_mov_length(dst: Operand, src: Operand)
    requires
        mov(dst, src) is Ok,
    ensures
        mov(dst, src)->Ok_0.bytes.len() == pair_length("mov"@, dst, src),
{
    lemma_mov_form(dst, src);
    let w = pair_w(dst, src).unwrap();
    match (dst, src) {
        (_, Operand::Reg(r)) => {
            lemma_width(dst, r);
            lemma_rm_length(w, 0x89, r.num, dst);
        },
        (Operand::Reg(d), Operand::Mem(_)) => {
            lemma_width(src, d);
            lemma_rm_length(w, 0x8B, d.num, src);
        },
        (_, Operand::Imm(v)) => {
            lemma_le_len(v as int);
            if dst is Mem {
                lemma_number(dst, v);
            }
            if dst is Mem || short64(v) {
                lemma_rm_length(w, 0xC7, 0, dst);
            }
        },
        _ => {},
    }
}

proof fn lemma_alu_length(digit: u8, m: Seq<char>, dst: Operand, src: Operand)
    requires
        digit < 8,
        is_alu(m),
        m != "mov"@,
        m != "lea"@,
        alu_op(digit, dst, src) is Ok,
    ensures
        alu_op(digit, dst, src)->Ok_0.bytes.len() == pair_length(m, dst, src),
{
    lemma_alu_form(digit, m, dst, src);
    let w = pair_w(dst, src).unwrap();
    match (dst, src) {
        (_, Operand::Reg(r)) => {
            lemma_width(dst, r);
            lemma_rm_length(w, (8 * digit + 1) as u8, r.num, dst);
        },
        (Operand::Reg(d), Operand::Mem(_)) => {
            lemma_width(src, d);
            lemma_rm_length(w, (8 * digit + 3) as u8, d.num, src);
        },
        (_, Operand::Imm(v)) => {
            lemma_le_len(v as int);
            lemma_number(dst, v);
            lemma_rm_length(w, 0x83, digit, dst);
            lemma_rm_length(w, 0x81, digit, dst);
        },
        _ => {},
    }
}

} // verus!
