use iced_x86::{Decoder, DecoderOptions, Instruction, Mnemonic, Register};
use wfasm::load::{CodeSpace, LoadError};
use wfasm::names::NameMap;
use wfasm::native::{near_window, FinalizeStep};
use wfasm::native_macos::{abs_veneer, PAGE, VENEER_LEN};
use wfasm::{EncodedModule, MacJit, NativeJit, Reloc, RelocKind};

fn symbols(list: &[(&str, usize)]) -> NameMap<usize> {
    let mut m = NameMap::new();
    for (name, off) in list {
        m.insert(name.to_string(), *off);
    }
    m
}

fn reloc(at: usize, kind: RelocKind, target: &str, addend: i64) -> Reloc {
    let size = if kind == RelocKind::Abs64 { 8 } else { 4 };
    Reloc { at, size, kind, target: target.to_string(), addend }
}

fn module(code: Vec<u8>, syms: &[(&str, usize)], relocs: Vec<Reloc>) -> EncodedModule {
    EncodedModule { code, symbols: symbols(syms), relocs, externs: Vec::new() }
}

/// Runs the code at `entry` with `rcx` as its argument, up to the return. A call of `host` adds
/// one.
fn run_x86(space: &CodeSpace, entry: u64, arg: u64, host: u64) -> u64 {
    let (mut rax, mut rcx, mut ip) = (0u64, arg, entry);
    let mut returns = Vec::new();
    loop {
        let at = (ip - space.base) as usize;
        let mut dec = Decoder::with_ip(64, &space.image[at..], ip, DecoderOptions::NONE);
        let insn: Instruction = dec.decode();
        assert!(!insn.is_invalid());
        ip = insn.next_ip();
        match insn.mnemonic() {
            Mnemonic::Lea => rax = rcx.wrapping_add(rcx),
            Mnemonic::Sub | Mnemonic::Add => assert_eq!(insn.op0_register(), Register::RSP),
            Mnemonic::Mov => rcx = rax,
            Mnemonic::Call if insn.near_branch_target() == host => rax = rcx + 1,
            Mnemonic::Call => {
                returns.push(ip);
                ip = insn.near_branch_target();
            }
            Mnemonic::Ret => match returns.pop() {
                Some(back) => ip = back,
                None => return rax,
            },
            other => panic!("unexpected {other:?}"),
        }
    }
}

#[test]
fn load_relocate_execute_with_host_callback() {
    // helper(x) = x + x   (lea rax,[rcx+rcx] ; ret)
    // entry(x)  = helper(host_inc(x)) = (x+1)*2
    //   sub rsp,40 ; call host_inc ; mov rcx,rax ; call helper ; add rsp,40 ; ret
    let mut code: Vec<u8> = Vec::new();
    code.extend_from_slice(&[0x48, 0x8D, 0x04, 0x09]); // lea rax,[rcx+rcx]
    code.push(0xC3); // ret
    let helper_off = 0usize;
    let entry_off = code.len();
    code.extend_from_slice(&[0x48, 0x83, 0xEC, 0x28]); // sub rsp,40
    let call_host_at = code.len() + 1; // rel32 follows the E8
    code.extend_from_slice(&[0xE8, 0, 0, 0, 0]); // call host_inc
    code.extend_from_slice(&[0x48, 0x89, 0xC1]); // mov rcx,rax
    let call_helper_at = code.len() + 1;
    code.extend_from_slice(&[0xE8, 0, 0, 0, 0]); // call helper
    code.extend_from_slice(&[0x48, 0x83, 0xC4, 0x28]); // add rsp,40
    code.push(0xC3); // ret

    let module = EncodedModule {
        code,
        symbols: symbols(&[("helper", helper_off), ("entry", entry_off)]),
        relocs: vec![
            reloc(call_host_at, RelocKind::BranchRel32, "host_inc", 0),
            reloc(call_helper_at, RelocKind::BranchRel32, "helper", 0),
        ],
        externs: vec!["host_inc".to_string()],
    };

    let host_inc = 0x7FF6_1234_5678u64;
    let (low, high) = near_window(host_inc);
    for region in [low, high + 1 - 0x1000] {
        let mut jit = NativeJit::new_near(host_inc, region, 0x1000, 0).expect("alloc near host");
        jit.define_extern("host_inc", host_inc);
        jit.load_module(&module).expect("load module");
        assert_eq!(jit.finalize().expect("finalize"), FinalizeStep::Protect);
        jit.protected(true, 0).expect("finalize");

        let entry_addr = jit.lookup("entry").expect("entry symbol");
        let entry = |x| run_x86(&jit.space, entry_addr, x, host_inc);
        assert_eq!(entry(10), 22, "(10+1)*2 via host callback + internal call");
        assert_eq!(entry(0), 2, "(0+1)*2");
    }
}

#[test]
fn windows_around_an_anchor() {
    assert_eq!(near_window(0x1_4000_0000), (0xD000_0000, 0x1_AFFF_FFFF));
    assert_eq!(near_window(0x1_4000_0001), (0xD001_0000, 0x1_AFFF_FFFF));
    // Close to the bottom and to the top of memory.
    assert_eq!(near_window(0x1000), (0x1_0000, 0x6FFF_FFFF));
    assert_eq!(near_window(u64::MAX), (0xFFFF_FFFF_9000_0000, 0xFFFF_FFFF_FFFE_FFFF));
}

#[test]
fn modules_are_placed_one_behind_the_other() {
    let mut jit = NativeJit::new_near(0, 0x10_0000, 48, 0).unwrap();
    let first = module(vec![1, 2, 3], &[("a", 1), ("b", 3)], vec![]);
    assert!(jit.space.can_measure(&first));
    assert_eq!(jit.load_module(&first), Ok(0x10_0000));
    assert_eq!(jit.load_module(&module(vec![4; 16], &[("b", 0)], vec![])), Ok(0x10_0010));
    assert_eq!(jit.lookup("a"), Some(0x10_0001));
    // The later definition holds.
    assert_eq!(jit.lookup("b"), Some(0x10_0010));
    assert_eq!(&jit.space.image[0..5], &[1, 2, 3, 0, 0]);
    assert_eq!(jit.space.used, 32);
    let full = jit.load_module(&module(vec![0; 17], &[], vec![]));
    assert_eq!(full, Err(LoadError::Exhausted { need: 49, cap: 48 }));
    assert_eq!(
        full.unwrap_err().message(),
        "code region exhausted: need 49 bytes, cap 48"
    );
    assert!(jit.has_symbol("a") && !jit.has_symbol("c"));
    assert_eq!(jit.lookup("c"), None);
    // Symbols come before externs of the same name.
    jit.define_extern("a", 5);
    jit.define_extern("x", 6);
    assert_eq!(jit.space.resolve("a"), Some(0x10_0001));
    assert_eq!(jit.space.resolve("x"), Some(6));
    assert_eq!(jit.space.resolve("y"), None);
    let far = module(vec![], &[("far", usize::MAX)], vec![]);
    assert!(!jit.space.can_measure(&far));
}

#[test]
fn fields_of_x86_relocations() {
    let relocs = vec![
        reloc(0, RelocKind::RipRel32, "data", -4),
        reloc(4, RelocKind::Abs64, "data", 8),
        reloc(12, RelocKind::BranchRel32, "back", 0),
    ];
    let m = module(vec![0xAA; 20], &[("back", 0)], relocs);
    let mut jit = NativeJit::new_near(0, 0x5000, 64, 0).unwrap();
    jit.define_extern("data", 0x5100);
    jit.load_module(&m).unwrap();
    assert_eq!(jit.finalize(), Ok(FinalizeStep::Protect));
    assert_eq!(&jit.space.image[0..4], &0xF8i32.to_le_bytes());
    assert_eq!(&jit.space.image[4..12], &0x5108u64.to_le_bytes());
    assert_eq!(&jit.space.image[12..16], &(-16i32).to_le_bytes());
    // Nothing else changes.
    assert_eq!(&jit.space.image[16..21], &[0xAA, 0xAA, 0xAA, 0xAA, 0]);
}

#[test]
fn a_field_reaches_two_gigabytes() {
    let finalize = |target: u64| {
        let mut jit = NativeJit::new_near(0, 0x1_0000_0000, 16, 0).unwrap();
        jit.define_extern("t", target);
        jit.load_module(&module(vec![0; 4], &[], vec![reloc(0, RelocKind::BranchRel32, "t", 0)]))
            .unwrap();
        (jit.finalize(), jit.space.image[0..4].to_vec())
    };
    assert_eq!(finalize(0x1_8000_0003).1, vec![0xFF, 0xFF, 0xFF, 0x7F]);
    assert_eq!(finalize(0x8000_0004).1, vec![0x00, 0x00, 0x00, 0x80]);
    let over = finalize(0x1_8000_0004).0.unwrap_err();
    assert_eq!(
        over,
        LoadError::Rel32Range {
            name: "t".to_string(),
            rel: 0x8000_0000,
            target: 0x1_8000_0004,
            site: 0x1_0000_0000,
        }
    );
    assert_eq!(
        over.message(),
        "rel32 out of range for `t`: 2147483648 (target 0x180000004, site 0x100000000)"
    );
    let under = finalize(0x8000_0003).0.unwrap_err();
    assert_eq!(
        under.message(),
        "rel32 out of range for `t`: -2147483649 (target 0x80000003, site 0x100000000)"
    );
}

#[test]
fn native_loader_refusals() {
    let none = NativeJit::new_near(0x1234, 0, 16, 8).err().unwrap();
    assert_eq!(none, LoadError::NoRegion { anchor: 0x1234, last_error: 8 });
    assert_eq!(
        none.message(),
        "VirtualAlloc2 near 0x0000000000001234 returned null (GetLastError = 8)"
    );
    let mut jit = NativeJit::new_near(0, 0x1000, 16, 0).unwrap();
    let m = module(vec![0; 8], &[], vec![reloc(0, RelocKind::BranchRel32, "gone", 0)]);
    jit.load_module(&m).unwrap();
    let e = jit.finalize().unwrap_err();
    assert_eq!(e, LoadError::Unresolved { target: "gone".to_string() });
    assert_eq!(e.message(), "unresolved reloc target `gone`");
    // Once the name is bound the loader can be finalized after all.
    jit.define_extern("gone", 0x2000);
    assert_eq!(jit.finalize(), Ok(FinalizeStep::Protect));
    let e = jit.protected(false, 5).unwrap_err();
    assert_eq!(e.message(), "VirtualProtect RX failed (GetLastError = 5)");
    assert!(!jit.finalized);
    assert_eq!(jit.protected(true, 0), Ok(()));
    // Finalizing again does nothing, and nothing more can be placed.
    let image = jit.space.image.clone();
    assert_eq!(jit.finalize(), Ok(FinalizeStep::Done));
    assert_eq!(jit.space.image, image);
    let e = jit.load_module(&m).unwrap_err();
    assert_eq!(e.message(), "NativeJit already finalized");
    let mut jit = NativeJit::new_near(0, 0x1000, 16, 0).unwrap();
    jit.define_extern("t", 0);
    jit.load_module(&module(vec![0; 4], &[], vec![reloc(0, RelocKind::Branch26, "t", 0)])).unwrap();
    let e = jit.finalize().unwrap_err();
    assert_eq!(e.message(), "AArch64 relocation kind Branch26 in an x86 module");
}

// ── AArch64 ──

const ADD1: u32 = 0x9100_0400; // add x0, x0, #1
const DOUBLE: u32 = 0x8B00_0000; // add x0, x0, x0
const RET: u32 = 0xD65F_03C0;
const STP: u32 = 0xA9BF_7BFD; // stp x29, x30, [sp, #-16]!
const LDP: u32 = 0xA8C1_7BFD; // ldp x29, x30, [sp], #16
const BL: u32 = 0x9400_0000;

fn words(list: &[u32]) -> Vec<u8> {
    list.iter().flat_map(|w| w.to_le_bytes()).collect()
}

fn word(space: &CodeSpace, addr: u64) -> u32 {
    let at = (addr - space.base) as usize;
    u32::from_le_bytes(space.image[at..at + 4].try_into().unwrap())
}

/// Runs the code at `entry` with `x0` as its argument, up to the return. Reaching `host` adds one
/// and returns.
fn run_a64(space: &CodeSpace, entry: u64, arg: u64, host: u64) -> u64 {
    let (mut x0, mut x16, mut lr, mut pc) = (arg, 0u64, 0u64, entry);
    let mut saved = Vec::new();
    loop {
        if pc == host {
            x0 += 1;
            pc = lr;
        } else if pc == 0 {
            return x0;
        }
        let w = word(space, pc);
        pc += 4;
        let imm16 = ((w >> 5) & 0xFFFF) as u64;
        match w {
            ADD1 => x0 += 1,
            DOUBLE => x0 += x0,
            STP => saved.push(lr),
            LDP => lr = saved.pop().unwrap(),
            RET => pc = lr,
            0xD61F_0200 => pc = x16,
            _ if w >> 26 == BL >> 26 => {
                lr = pc;
                let disp = ((w << 6) as i32 >> 6) as i64 * 4;
                pc = (pc - 4).wrapping_add(disp as u64);
            }
            _ if w & 0xFF80_001F == 0xD280_0010 => x16 = imm16,
            _ if w & 0xFF80_001F == 0xF280_0010 => x16 |= imm16 << (16 * ((w >> 21) & 3)),
            other => panic!("unexpected {other:#x}"),
        }
    }
}

fn place(m: &EncodedModule, host: u64) -> MacJit {
    let mut jit = MacJit::with_capacity(m.code.len() + PAGE, 0x1_0000_0000).expect("mmap");
    jit.define_extern("host_inc", host);
    jit.load_module(m).expect("load");
    assert_eq!(jit.finalize().expect("finalize"), FinalizeStep::Protect);
    jit
}

#[test]
fn leaf_executes() {
    let m = module(words(&[ADD1, DOUBLE, RET]), &[("entry", 0)], vec![]);
    let jit = place(&m, 1);
    let f = |x| run_a64(&jit.space, jit.lookup("entry").unwrap(), x, 1);
    assert_eq!(f(10), 22);
    assert_eq!(f(0), 2);
    assert_eq!(f(100), 202);
}

#[test]
fn internal_call_executes() {
    let code = words(&[STP, BL, LDP, RET, DOUBLE, RET]);
    let relocs = vec![reloc(4, RelocKind::Branch26, "dbl", 0)];
    let jit = place(&module(code, &[("entry", 0), ("dbl", 16)], relocs), 1);
    // In range: no veneer.
    assert_eq!(jit.space.used, 24);
    let f = |x| run_a64(&jit.space, jit.lookup("entry").unwrap(), x, 1);
    assert_eq!(f(21), 42);
}

#[test]
fn host_callback_executes() {
    let code = words(&[STP, BL, DOUBLE, LDP, RET]);
    let relocs = vec![reloc(4, RelocKind::Branch26, "host_inc", 0)];
    let m = module(code, &[("entry", 0)], relocs);
    for host in [0x7FFF_1234_5678, 0x1_0100_0000] {
        let jit = place(&m, host);
        let far = host != 0x1_0100_0000;
        assert_eq!(jit.space.used, 20 + if far { VENEER_LEN } else { 0 });
        let f = |x| run_a64(&jit.space, jit.lookup("entry").unwrap(), x, host);
        assert_eq!(f(10), 22, "(10+1)*2 via host callback");
        assert_eq!(f(0), 2);
    }
}

#[test]
fn abs_veneer_encoding() {
    // movz/movk x16, 0x1122_3344_5566_7788 ; br x16
    let v = abs_veneer(0x1122_3344_5566_7788);
    assert_eq!(v[0], 0xD2800000 | (0x7788 << 5) | 16);
    assert_eq!(v[4], 0xD61F0000 | (16 << 5));
    assert_eq!(v[1], 0xF2A00000 | (0x5566 << 5) | 16);
    assert_eq!(v[2], 0xF2C00000 | (0x3344 << 5) | 16);
    assert_eq!(v[3], 0xF2E00000 | (0x1122 << 5) | 16);
}

#[test]
fn one_veneer_for_each_far_target() {
    let code = words(&[BL, BL, BL, RET]);
    let relocs = vec![
        reloc(0, RelocKind::Branch26, "f", 0),
        reloc(4, RelocKind::Branch26, "g", 0),
        reloc(8, RelocKind::Branch26, "f", 0),
    ];
    let mut jit = MacJit::with_capacity(1, 0x1_0000_0000).unwrap();
    jit.define_extern("f", 0x9_0000_0000);
    jit.define_extern("g", 0xA_0000_0000);
    jit.load_module(&module(code, &[], relocs)).unwrap();
    jit.finalize().unwrap();
    assert_eq!(jit.space.used, 16 + 2 * VENEER_LEN);
    let base = jit.space.base;
    assert_eq!(word(&jit.space, base), BL | 4);
    assert_eq!(word(&jit.space, base + 4), BL | 8);
    assert_eq!(word(&jit.space, base + 8), BL | 2);
    assert_eq!(word(&jit.space, base + 16), 0xD280_0010);
    assert!(jit.finalized && !jit.writable);
}

#[test]
fn page_addresses() {
    // adrp x0, data ; add x0, x0, data ; .quad data+16
    let code = words(&[0x9000_0000, 0x9100_0000, 0, 0]);
    let relocs = vec![
        reloc(0, RelocKind::AdrpPage21, "data", 0),
        reloc(4, RelocKind::AddPageOff12, "data", 0),
        reloc(8, RelocKind::Abs64, "data", 16),
    ];
    let m = module(code, &[], relocs);
    let build = |data: u64| {
        let mut jit = MacJit::with_capacity(1, 0x1_0000_0000).unwrap();
        jit.define_extern("data", data);
        jit.load_module(&m).unwrap();
        (jit.finalize(), jit)
    };
    let (r, jit) = build(0x1_2345_6789);
    assert_eq!(r, Ok(FinalizeStep::Protect));
    let adrp = word(&jit.space, jit.space.base);
    let pages = ((adrp >> 5) & 0x7_FFFF) << 2 | (adrp >> 29) & 3;
    assert_eq!(pages, 0x2_3456);
    assert_eq!(word(&jit.space, jit.space.base + 4), 0x9100_0000 | 0x789 << 10);
    assert_eq!(&jit.space.image[8..16], &0x1_2345_6799u64.to_le_bytes());
    // One page back.
    let adrp = word(&build(0xFFFF_F000).1.space, 0x1_0000_0000);
    assert_eq!(adrp, 0x9000_0000 | 3 << 29 | 0x7_FFFF << 5);
    let (r, _) = build(0x2_0000_0000);
    assert_eq!(r, Err(LoadError::AdrpRange));
    assert_eq!(r.unwrap_err().message(), "adrp page offset out of ±4 GB range");
}

#[test]
fn mac_loader_refusals() {
    assert_eq!(MacJit::capacity(1), PAGE);
    assert_eq!(MacJit::capacity(PAGE + 1), 2 * PAGE);
    let e = MacJit::with_capacity(1, 0).err().unwrap();
    assert_eq!(e.message(), "mmap(MAP_JIT) failed — JIT memory unavailable");
    assert_eq!(MacJit::with_capacity(1, u64::MAX).err(), Some(LoadError::NoJitMemory));
    // A region that is full of code has no room for a veneer.
    let mut code = words(&[BL]);
    code.resize(PAGE - 8, 0);
    let mut jit = MacJit::with_capacity(PAGE, 0x1_0000_0000).unwrap();
    jit.define_extern("far", 1 << 40);
    jit.load_module(&module(code, &[], vec![reloc(0, RelocKind::Branch26, "far", 0)])).unwrap();
    let e = jit.finalize().unwrap_err();
    assert_eq!(e.message(), "veneer region exhausted");
    assert!(!jit.finalized);
    let mut jit = MacJit::with_capacity(1, 0x1_0000_0000).unwrap();
    jit.load_module(&module(vec![0; 8], &[], vec![reloc(0, RelocKind::Abs64, "no", 0)])).unwrap();
    assert_eq!(jit.finalize(), Err(LoadError::Unresolved { target: "no".to_string() }));
    jit.define_extern("no", 1);
    jit.load_module(&module(vec![0; 4], &[], vec![reloc(0, RelocKind::RipRel32, "no", 0)])).unwrap();
    let e = jit.finalize().unwrap_err();
    assert_eq!(e.message(), "x86 relocation kind RipRel32 in an AArch64 module");
}

#[test]
fn building_on_the_first_lookup() {
    let mut jit = MacJit::new();
    jit.add_asm(".globl entry");
    jit.add_asm("ret");
    assert_eq!(jit.pending_text, ".globl entry\nret\n");
    jit.define_extern("host", 1 << 40);
    assert!(jit.needs_build());
    let mut m = module(words(&[BL, RET]), &[("entry", 4)], vec![reloc(0, RelocKind::Branch26, "host", 0)]);
    m.externs.push("host".to_string());
    let cap = MacJit::build_capacity(&m);
    assert_eq!(cap, 8 + VENEER_LEN + PAGE);
    assert_eq!(jit.build_if_needed(&m, 0x1_0000_0000), Ok(FinalizeStep::Protect));
    assert_eq!(jit.space.image.len(), 2 * PAGE);
    assert!(!jit.needs_build());
    assert_eq!(jit.lookup_addr("entry"), Ok(0x1_0000_0004));
    assert_eq!(jit.build_if_needed(&m, 0), Ok(FinalizeStep::Done));
    let e = jit.lookup_addr("other").unwrap_err();
    assert_eq!(e.message(), "macos loader: symbol `other` not found");
    assert_eq!(jit.load_module(&m).unwrap_err().message(), "MacJit already finalized");

    // Without memory the externs are lost, and the text stays.
    let mut jit = MacJit::default();
    jit.define_extern("host", 5);
    jit.add_asm("nop");
    assert_eq!(jit.build_if_needed(&m, u64::MAX), Err(LoadError::NoJitMemory));
    assert_eq!(jit.space.resolve("host"), None);
    assert_eq!(jit.pending_text, "nop\n");
}
