use iced_x86::{Decoder, DecoderOptions, Formatter, Instruction, IntelFormatter};
use wfasm::rasm::encode::jcc_code;
use wfasm::rasm::{encode, EncodeError, Encoded, FixupKind, Mem, MemSize, Operand, Reg, RegClass};

const REGS64: [&str; 16] = [
    "rax", "rcx", "rdx", "rbx", "rsp", "rbp", "rsi", "rdi", "r8", "r9", "r10", "r11", "r12", "r13",
    "r14", "r15",
];
const REGS32: [&str; 16] = [
    "eax", "ecx", "edx", "ebx", "esp", "ebp", "esi", "edi", "r8d", "r9d", "r10d", "r11d", "r12d",
    "r13d", "r14d", "r15d",
];

fn reg(name: &str) -> Option<Reg> {
    if let Some(i) = REGS64.iter().position(|r| *r == name) {
        return Some(Reg { class: RegClass::R64, num: i as u8 });
    }
    if let Some(i) = REGS32.iter().position(|r| *r == name) {
        return Some(Reg { class: RegClass::R32, num: i as u8 });
    }
    let narrow = |class, names: [&str; 4]| {
        names.iter().position(|r| *r == name).map(|i| Reg { class, num: i as u8 })
    };
    narrow(RegClass::R16, ["ax", "cx", "dx", "bx"])
        .or(narrow(RegClass::R8, ["al", "cl", "dl", "bl"]))
        .or(narrow(RegClass::Xmm, ["xmm0", "xmm1", "xmm2", "xmm3"]))
}

fn number(s: &str) -> Option<i64> {
    match s.strip_prefix("0x") {
        Some(h) => u64::from_str_radix(h, 16).ok().map(|v| v as i64),
        None => s.parse().ok(),
    }
}

fn mem(size: Option<MemSize>, text: &str) -> Mem {
    let inner = text.trim().trim_start_matches('[').trim_end_matches(']').replace('-', "+ -");
    let mut m = Mem { size, base: None, index: None, scale: 1, disp: 0, rip_sym: None };
    for part in inner.split('+') {
        let part = part.trim().replace("- ", "-");
        if part == "rip" {
            m.rip_sym = Some(String::new());
        } else if let Some((r, k)) = part.split_once('*') {
            m.index = reg(r.trim());
            m.scale = k.trim().parse().unwrap();
        } else if let Some(r) = reg(&part) {
            m.base = Some(r);
        } else if let Some(n) = number(&part) {
            m.disp += n;
        } else {
            m.rip_sym = Some(part);
        }
    }
    m
}

fn operand(text: &str) -> Operand {
    let t = text.trim();
    if let Some(rest) = t.strip_prefix("qword ptr") {
        return Operand::Mem(mem(Some(MemSize::Qword), rest));
    }
    if let Some(rest) = t.strip_prefix("dword ptr") {
        return Operand::Mem(mem(Some(MemSize::Dword), rest));
    }
    if let Some(rest) = t.strip_prefix("byte ptr") {
        return Operand::Mem(mem(Some(MemSize::Byte), rest));
    }
    if let Some(rest) = t.strip_prefix("word ptr") {
        return Operand::Mem(mem(Some(MemSize::Word), rest));
    }
    if t.starts_with('[') {
        return Operand::Mem(mem(None, t));
    }
    if let Some(r) = reg(t) {
        return Operand::Reg(r);
    }
    match number(t) {
        Some(n) => Operand::Imm(n),
        None => Operand::Sym(t.to_string()),
    }
}

fn parse(line: &str) -> (String, Vec<Operand>) {
    match line.split_once(' ') {
        Some((m, rest)) => (m.to_string(), rest.split(',').map(operand).collect()),
        None => (line.to_string(), Vec::new()),
    }
}

fn enc(line: &str) -> Encoded {
    let (mnemonic, ops) = parse(line);
    encode(&mnemonic, &ops).unwrap()
}

fn refused(line: &str) -> EncodeError {
    let (mnemonic, ops) = parse(line);
    encode(&mnemonic, &ops).unwrap_err()
}

fn bytes(line: &str) -> Vec<u8> {
    enc(line).bytes
}

/// Decodes the bytes with another decoder and formats them back to Intel syntax.
fn roundtrip(line: &str) -> String {
    let b = bytes(line);
    let mut dec = Decoder::with_ip(64, &b, 0x1000, DecoderOptions::NONE);
    let insn: Instruction = dec.decode();
    assert!(!insn.is_invalid(), "iced could not decode `{line}` -> {b:02x?}");
    assert_eq!(dec.position(), b.len(), "trailing bytes after `{line}`: {b:02x?}");
    let mut f = IntelFormatter::new();
    let mut s = String::new();
    f.format(&insn, &mut s);
    s
}

#[test]
fn exact_bytes_match_golden_leaves() {
    // dup: mov [rbp-8], rax ; sub rbp, 8 ; ret
    assert_eq!(bytes("mov [rbp - 8], rax"), vec![0x48, 0x89, 0x45, 0xF8]);
    assert_eq!(bytes("sub rbp, 8"), vec![0x48, 0x83, 0xED, 0x08]);
    assert_eq!(bytes("ret"), vec![0xC3]);
    // plus: add rax, [rbp] ; add rbp, 8 ; ret
    assert_eq!(bytes("add rax, [rbp]"), vec![0x48, 0x03, 0x45, 0x00]);
    assert_eq!(bytes("add rbp, 8"), vec![0x48, 0x83, 0xC5, 0x08]);
}

#[test]
fn mov_forms() {
    assert_eq!(roundtrip("mov rax, rcx"), "mov rax,rcx");
    assert_eq!(roundtrip("mov rcx, [rbx + 4632]"), "mov rcx,[rbx+1218h]");
    assert_eq!(roundtrip("mov [rbx + 4632], rcx"), "mov [rbx+1218h],rcx");
    assert_eq!(roundtrip("mov rax, 0xDEADBEEF"), "mov rax,0DEADBEEFh");
    assert_eq!(roundtrip("mov r8, [rsp]"), "mov r8,[rsp]");
    assert_eq!(roundtrip("mov rax, 0x4010000000000000"), "mov rax,4010000000000000h");
}

#[test]
fn alu_forms() {
    assert_eq!(roundtrip("add rax, rcx"), "add rax,rcx");
    assert_eq!(roundtrip("sub rbp, 8"), "sub rbp,8");
    assert_eq!(roundtrip("cmp rax, [rbp]"), "cmp rax,[rbp]");
    assert_eq!(roundtrip("and rax, 0x1FF"), "and rax,1FFh");
    assert_eq!(roundtrip("xor r10, r11"), "xor r10,r11");
    assert_eq!(roundtrip("add qword ptr [rsp], 8"), "add qword ptr [rsp],8");
}

#[test]
fn push_pop_lea_test() {
    assert_eq!(bytes("push rbx"), vec![0x53]);
    assert_eq!(bytes("push r15"), vec![0x41, 0x57]);
    assert_eq!(bytes("pop rbp"), vec![0x5D]);
    assert_eq!(roundtrip("lea r8, [rax + rax*1]"), "lea r8,[rax+rax]");
    assert_eq!(roundtrip("test rax, rax"), "test rax,rax");
}

#[test]
fn rbp_r13_rsp_r12_modrm_traps() {
    // [rbp] forces disp8=0 (mod=01).
    assert_eq!(bytes("mov rax, [rbp]"), vec![0x48, 0x8B, 0x45, 0x00]);
    // [rsp] forces a SIB byte.
    assert_eq!(bytes("mov rax, [rsp]"), vec![0x48, 0x8B, 0x04, 0x24]);
    // [r13] forces disp8=0 + REX.B.
    assert_eq!(bytes("mov rax, [r13]"), vec![0x49, 0x8B, 0x45, 0x00]);
    // [r12] forces SIB + REX.B.
    assert_eq!(bytes("mov rax, [r12]"), vec![0x49, 0x8B, 0x04, 0x24]);
}

#[test]
fn every_addressing_form_reads_back() {
    assert_eq!(roundtrip("mov rax, [rbp + rcx*4]"), "mov rax,[rbp+rcx*4]");
    assert_eq!(roundtrip("mov rax, [r13 + r12*8]"), "mov rax,[r13+r12*8]");
    assert_eq!(roundtrip("mov rax, [r12 + r13*2 + 100]"), "mov rax,[r12+r13*2+64h]");
    assert_eq!(roundtrip("mov rax, [rsp + r15*1 - 300]"), "mov rax,[rsp+r15-12Ch]");
    assert_eq!(roundtrip("mov eax, [rsi - 128]"), "mov eax,[rsi-80h]");
    assert_eq!(roundtrip("mov eax, [rsi + 128]"), "mov eax,[rsi+80h]");
    assert_eq!(roundtrip("lea r9, [rdx*8 + 16]"), "lea r9,[rdx*8+10h]");
    assert_eq!(roundtrip("mov rax, [4096]"), "mov rax,[1000h]");
    assert_eq!(bytes("mov rax, [4096]"), vec![0x48, 0x8B, 0x04, 0x25, 0x00, 0x10, 0x00, 0x00]);
}

#[test]
fn immediates_take_the_shortest_field() {
    assert_eq!(bytes("add rax, 127"), vec![0x48, 0x83, 0xC0, 0x7F]);
    assert_eq!(bytes("add rax, 128"), vec![0x48, 0x81, 0xC0, 0x80, 0x00, 0x00, 0x00]);
    assert_eq!(bytes("cmp rcx, -128"), vec![0x48, 0x83, 0xF9, 0x80]);
    assert_eq!(roundtrip("sbb r9, -129"), "sbb r9,0FFFFFFFFFFFFFF7Fh");
    assert_eq!(roundtrip("adc ecx, 5"), "adc ecx,5");
    assert_eq!(roundtrip("or rdx, [rbp + 8]"), "or rdx,[rbp+8]");
    assert_eq!(roundtrip("mov dword ptr [rdi], 7"), "mov dword ptr [rdi],7");
    assert_eq!(bytes("mov r10, -1"), vec![0x49, 0xC7, 0xC2, 0xFF, 0xFF, 0xFF, 0xFF]);
    assert_eq!(
        bytes("mov r10, 0x123456789A"),
        vec![0x49, 0xBA, 0x9A, 0x78, 0x56, 0x34, 0x12, 0x00, 0x00, 0x00]
    );
}

#[test]
fn bare_instructions() {
    assert_eq!(bytes("nop"), vec![0x90]);
    assert_eq!(bytes("cqo"), vec![0x48, 0x99]);
    assert_eq!(bytes("leave"), vec![0xC9]);
    assert_eq!(bytes("std"), vec![0xFD]);
    assert_eq!(bytes("cld"), vec![0xFC]);
    assert_eq!(Encoded::default(), Encoded { bytes: vec![], fixups: vec![] });
}

#[test]
fn branches_leave_a_fixup() {
    let call = enc("call rt_emit");
    assert_eq!(call.bytes, vec![0xE8, 0, 0, 0, 0]);
    assert_eq!(call.fixups.len(), 1);
    assert_eq!(call.fixups[0].at, 1);
    assert_eq!(call.fixups[0].kind, FixupKind::Rel32);
    assert_eq!(call.fixups[0].target, "rt_emit");
    assert_eq!(bytes("jmp done"), vec![0xE9, 0, 0, 0, 0]);
    let codes = [
        ("jo", 0x80), ("jno", 0x81), ("jc", 0x82), ("jnc", 0x83), ("jz", 0x84), ("jnz", 0x85),
        ("jna", 0x86), ("ja", 0x87), ("js", 0x88), ("jns", 0x89), ("jpe", 0x8A), ("jpo", 0x8B),
        ("jl", 0x8C), ("jge", 0x8D), ("jng", 0x8E), ("jnle", 0x8F),
    ];
    for (m, code) in codes {
        let e = encode(m, &[Operand::Sym("l".to_string())]).unwrap();
        assert_eq!(e.bytes, vec![0x0F, code, 0, 0, 0, 0], "{m}");
        assert_eq!(e.fixups[0].at, 2);
    }
    let code = |m: &str| encode(m, &[Operand::Sym("l".to_string())]).unwrap().bytes[1];
    for (a, b) in [("jb", "jae"), ("jbe", "ja"), ("jle", "jg"), ("jp", "jnp"), ("jge", "jnge")] {
        assert_eq!(code(a) ^ 1, code(b));
    }
    assert_eq!(code("jnae"), code("jc"));
    let lea = enc("lea rcx, [rip + table]");
    assert_eq!(lea.bytes, vec![0x48, 0x8D, 0x0D, 0, 0, 0, 0]);
    assert_eq!(lea.fixups[0].kind, FixupKind::RipRel32);
    assert_eq!(lea.fixups[0].at, 3);
    assert_eq!(lea.fixups[0].target, "table");
    // The field of a RIP-relative store comes before the immediate.
    let store = enc("mov qword ptr [rip + cell], 1");
    assert_eq!(store.bytes, vec![0x48, 0xC7, 0x05, 0, 0, 0, 0, 1, 0, 0, 0]);
    assert_eq!(store.fixups[0].at, 3);
}

#[test]
fn what_cannot_be_encoded_is_refused() {
    assert_eq!(refused("frobnicate"), EncodeError::Unsupported { operands: 0 });
    assert_eq!(refused("push eax"), EncodeError::Unsupported { operands: 1 });
    assert_eq!(refused("push 5"), EncodeError::Unsupported { operands: 1 });
    assert_eq!(refused("jxx l"), EncodeError::Unsupported { operands: 1 });
    assert_eq!(refused("imul rax, rcx, 3"), EncodeError::Unsupported { operands: 3 });
    assert_eq!(refused("lea rax, rcx"), EncodeError::Unsupported { operands: 2 });
    assert_eq!(refused("test rax, 1"), EncodeError::Unsupported { operands: 2 });
    assert_eq!(refused("mov eax, 5"), EncodeError::UnsupportedMov);
    assert_eq!(refused("mov [rax], [rcx]"), EncodeError::UnsupportedMov);
    assert_eq!(refused("mov 5, rax"), EncodeError::NotRegOrMem);
    assert_eq!(refused("add [rax], [rcx]"), EncodeError::UnsupportedAlu);
    assert_eq!(refused("add 1, 2"), EncodeError::NotRegOrMem);
    assert_eq!(refused("mov rax, [rcx + rdx*3]"), EncodeError::BadScale(3));
    // A scale without an index or a SIB byte is not looked at.
    let odd = Mem {
        size: None,
        base: reg("rcx"),
        index: None,
        scale: 3,
        disp: 0,
        rip_sym: None,
    };
    let ops = [Operand::Reg(reg("rax").unwrap()), Operand::Mem(odd)];
    assert_eq!(encode("mov", &ops).unwrap().bytes, vec![0x48, 0x8B, 0x01]);
}

#[test]
fn only_32_and_64_bits_have_forms() {
    assert_eq!(refused("mov byte ptr [rbp], 1"), EncodeError::UnsupportedMov);
    assert_eq!(refused("mov word ptr [rbp], 1"), EncodeError::UnsupportedMov);
    assert_eq!(refused("mov al, cl"), EncodeError::UnsupportedMov);
    assert_eq!(refused("mov ax, [rbx]"), EncodeError::UnsupportedMov);
    assert_eq!(refused("mov xmm0, xmm1"), EncodeError::UnsupportedMov);
    assert_eq!(refused("add byte ptr [rsp], 8"), EncodeError::UnsupportedAlu);
    assert_eq!(refused("cmp ax, cx"), EncodeError::UnsupportedAlu);
    assert_eq!(refused("xor dl, [rbx]"), EncodeError::UnsupportedAlu);
    assert_eq!(refused("lea cx, [rbx]"), EncodeError::Unsupported { operands: 2 });
    assert_eq!(refused("test bl, bl"), EncodeError::Unsupported { operands: 2 });
    assert_eq!(refused("push cx"), EncodeError::Unsupported { operands: 1 });
    // The operands have to agree.
    assert_eq!(refused("mov rax, ecx"), EncodeError::UnsupportedMov);
    assert_eq!(refused("mov eax, qword ptr [rbx]"), EncodeError::UnsupportedMov);
    assert_eq!(refused("add dword ptr [rbx], rcx"), EncodeError::UnsupportedAlu);
    assert_eq!(roundtrip("mov eax, ecx"), "mov eax,ecx");
    assert_eq!(roundtrip("add dword ptr [rbx], ecx"), "add [rbx],ecx");
    // A `lea` does not access memory.
    assert_eq!(roundtrip("lea eax, byte ptr [rbx + 8]"), "lea eax,[rbx+8]");
    // There are sixteen registers.
    let none = Operand::Reg(Reg { class: RegClass::R64, num: 16 });
    assert_eq!(encode("push", &[none.clone()]).unwrap_err(), EncodeError::Unsupported { operands: 1 });
    let ops = [none, Operand::Imm(1)];
    assert_eq!(encode("mov", &ops).unwrap_err(), EncodeError::UnsupportedMov);
    assert_eq!(encode("add", &ops).unwrap_err(), EncodeError::UnsupportedAlu);
}

#[test]
fn immediates_that_do_not_fit_are_refused() {
    assert_eq!(refused("cmp rax, 0x80000000"), EncodeError::UnsupportedAlu);
    assert_eq!(refused("add rax, -2147483649"), EncodeError::UnsupportedAlu);
    assert_eq!(refused("mov qword ptr [rax], 0x80000000"), EncodeError::UnsupportedMov);
    assert_eq!(refused("mov [rax], 0x123456789A"), EncodeError::UnsupportedMov);
    assert_eq!(refused("add ecx, 0x100000000"), EncodeError::UnsupportedAlu);
    assert_eq!(refused("mov dword ptr [rax], -2147483649"), EncodeError::UnsupportedMov);
    assert_eq!(roundtrip("add rax, -2147483648"), "add rax,0FFFFFFFF80000000h");
    assert_eq!(roundtrip("add rax, 0x7FFFFFFF"), "add rax,7FFFFFFFh");
    assert_eq!(roundtrip("add ecx, 0xFFFFFFFF"), "add ecx,0FFFFFFFFh");
    assert_eq!(bytes("add ecx, 0x80000000"), vec![0x81, 0xC1, 0x00, 0x00, 0x00, 0x80]);
    assert_eq!(roundtrip("mov dword ptr [rax], 0x80000000"), "mov dword ptr [rax],80000000h");
}

#[test]
fn addresses_that_cannot_be_formed_are_refused() {
    assert_eq!(refused("mov rax, [rcx + rsp*1]"), EncodeError::BadAddress);
    assert_eq!(refused("mov rax, [rcx + 0x80000000]"), EncodeError::BadAddress);
    assert_eq!(refused("mov rax, [rcx - 2147483649]"), EncodeError::BadAddress);
    assert_eq!(refused("mov rax, [ecx]"), EncodeError::BadAddress);
    assert_eq!(refused("lea rax, [rcx + edx*2]"), EncodeError::BadAddress);
    assert_eq!(refused("lea rax, [rip + table + 8]"), EncodeError::BadAddress);
    assert_eq!(roundtrip("mov rax, [rcx + r12*1]"), "mov rax,[rcx+r12]");
    assert_eq!(roundtrip("mov rax, [rcx - 2147483648]"), "mov rax,[rcx-80000000h]");
    // Without an index the scale of an absolute address is not looked at, that of rsp is.
    let at = |base, scale| {
        let m = Mem { size: None, base, index: None, scale, disp: 4096, rip_sym: None };
        encode("mov", &[Operand::Reg(reg("rax").unwrap()), Operand::Mem(m)])
    };
    assert_eq!(at(None, 0).unwrap().bytes, bytes("mov rax, [4096]"));
    assert_eq!(at(reg("rsp"), 3).unwrap_err(), EncodeError::BadScale(3));
}

#[test]
fn encode_messages() {
    let message = |line: &str| {
        let (mnemonic, ops) = parse(line);
        encode(&mnemonic, &ops).unwrap_err().message(&mnemonic, &ops)
    };
    assert_eq!(
        message("imul rax, rcx, 3"),
        "rasm: unsupported instruction `imul` with 3 operand(s)"
    );
    assert_eq!(message("mov rax, [rcx + rdx*3]"), "bad scale 3");
    assert_eq!(message("mov rax, [ecx]"), "rasm: unsupported address in `mov`");
    assert_eq!(message("add 1, 2"), "expected reg/mem r/m, got Imm(1)");
    for line in [
        "mov eax, 5",
        "mov [r9d + rcx*4 - 300], foo",
        "mov byte ptr [rip + a\"b], -1",
        "mov word ptr [rsp], xmm1",
        "mov al, ax",
    ] {
        let ops = parse(line).1;
        assert_eq!(message(line), format!("rasm: unsupported mov form {:?} <- {:?}", ops[0], ops[1]));
    }
    for line in ["add rax, foo", "or qword ptr [rax], dword ptr [rcx]"] {
        let ops = parse(line).1;
        assert_eq!(message(line), format!("rasm: unsupported alu form {:?}, {:?}", ops[0], ops[1]));
    }
    assert_eq!(EncodeError::NotRegOrMem.message("mov", &[]), "expected reg/mem r/m, got ");
}

#[test]
fn jump_conditions_are_numbered_in_opposite_pairs() {
    let names: [&[&str]; 16] = [
        &["jo"],
        &["jno"],
        &["jb", "jc", "jnae"],
        &["jae", "jnb", "jnc"],
        &["je", "jz"],
        &["jne", "jnz"],
        &["jbe", "jna"],
        &["ja", "jnbe"],
        &["js"],
        &["jns"],
        &["jp", "jpe"],
        &["jnp", "jpo"],
        &["jl", "jnge"],
        &["jge", "jnl"],
        &["jle", "jng"],
        &["jg", "jnle"],
    ];
    for (code, synonyms) in names.iter().enumerate() {
        for name in synonyms.iter() {
            assert_eq!(jcc_code(name), Some(code as u8));
            if let Some(opposite) = jcc_code(&format!("jn{}", &name[1..])) {
                assert_eq!(opposite, code as u8 ^ 1);
            }
        }
    }
    for other in ["", "j", "jmp", "jcxz", "JZ", "jz ", "jnn", "call"] {
        assert_eq!(jcc_code(other), None);
    }
}
