use wfasm::seh::symbols::SymbolTable;
use wfasm::seh::{
    access_info, clear_code_ranges, dump_addresses, exception_kind, format_forth_dump,
    handler_added, install, is_code, is_installed, on_exception, page_readable, read_qword,
    register, register_code_range, register_jit_procs, register_many, register_procs,
    set_forth_dump_info, symbol_count, symbolize, Cell, CrashRegs, Dumper, ForthDumpInfo, ForthVar,
    InstallStep, EXCEPTION_CONTINUE_EXECUTION, EXCEPTION_CONTINUE_SEARCH, STATUS_ACCESS_VIOLATION,
    STATUS_BREAKPOINT, STATUS_ILLEGAL_INSTRUCTION, STATUS_INTEGER_DIVIDE_BY_ZERO,
    STATUS_INTEGER_OVERFLOW, STATUS_PRIVILEGED_INSTRUCTION, STATUS_SINGLE_STEP,
    STATUS_STACK_OVERFLOW,
};
use wfasm::Loader;

#[test]
fn nearest_predecessor_resolution() {
    let mut t = SymbolTable::new();
    t.add("foo".into(), 0x1000, "test");
    t.add("bar".into(), 0x2000, "test");
    t.add("baz".into(), 0x3000, "test");
    t.ensure_sorted();

    // Exact hit on foo.
    let (s, off) = t.resolve(0x1000).unwrap();
    assert_eq!(s.name, "foo");
    assert_eq!(off, 0);

    // Mid-foo.
    let (s, off) = t.resolve(0x1500).unwrap();
    assert_eq!(s.name, "foo");
    assert_eq!(off, 0x500);

    // Right at bar.
    let (s, off) = t.resolve(0x2000).unwrap();
    assert_eq!(s.name, "bar");
    assert_eq!(off, 0);

    // Mid-baz.
    let (s, off) = t.resolve(0x3010).unwrap();
    assert_eq!(s.name, "baz");
    assert_eq!(off, 0x10);

    // Below all symbols.
    assert!(t.resolve(0x500).is_none());
}

#[test]
fn resolve_rejects_implausible_distance() {
    let mut t = SymbolTable::new();
    t.add("foo".into(), 0x1000, "test");
    t.ensure_sorted();
    // 128 KiB away: past the 64 KiB plausibility window.
    assert!(t.resolve(0x1000 + 128 * 1024).is_none());
    assert!(t.resolve(0x1000 + 64 * 1024).is_none());
    assert!(t.resolve(0x1000 + 64 * 1024 - 1).is_some());
}

#[test]
fn extent_bounds_offset_to_successor() {
    let mut t = SymbolTable::new();
    t.add("foo".into(), 0x1000, "test");
    t.add("bar".into(), 0x1100, "test"); // 0x100 after foo
    t.ensure_sorted();
    // 0x80 into foo: within [foo, bar).
    let (s, off) = t.resolve(0x1080).unwrap();
    assert_eq!((s.name.as_str(), off), ("foo", 0x80));
    // resolve_nearest never rejects.
    let (s, off, next) = t.resolve_nearest(0x1FFF).unwrap();
    assert_eq!((s.name.as_str(), off, next), ("bar", 0xEFF, None));
}

#[test]
fn sorting_is_stable_and_late_symbols_win() {
    let mut t = SymbolTable::new();
    t.add("high".into(), 0x900, "test");
    t.add("first".into(), 0x100, "test");
    t.add("low".into(), 0x10, "test");
    t.add("second".into(), 0x100, "test");
    t.ensure_sorted();
    assert_eq!(t.len(), 4);
    let (s, off, next) = t.resolve_nearest(0x140).unwrap();
    assert_eq!((s.name.as_str(), off, next), ("second", 0x40, Some(0x900)));
    t.add("third".into(), 0x100, "test");
    t.ensure_sorted();
    // In order already: a second time changes nothing.
    t.ensure_sorted();
    assert_eq!(t.len(), 5);
    assert_eq!(t.resolve(0x100).unwrap().0.name, "third");
    assert_eq!(t.resolve_nearest(0x20).unwrap().2, Some(0x100));
    assert!(t.resolve_nearest(0xF).is_none());
}

#[test]
fn code_range_membership_and_uncapped_symbolize() {
    let mut d = Dumper::new();
    let base = 0x5000_0000_0000u64;
    register(&mut d, "__seh_rng_word", base, "test");
    register_code_range(&mut d, base, base + 0x4000, "test");
    assert!(is_code(&d, base + 0x10));
    assert!(!is_code(&d, base + 0x4000)); // end is exclusive
    // Within range, symbolize attributes even at a large offset (uncapped).
    let s = symbolize(&mut d, base + 0x3FF0).unwrap();
    assert!(s.contains("__seh_rng_word+0x3ff0"), "got {s}");
}

#[test]
fn symbol_text_is_exact() {
    let mut d = Dumper::new();
    register(&mut d, "word", 0x1000, "jit_proc");
    assert_eq!(symbolize(&mut d, 0x1000).unwrap(), "<word> [jit_proc]");
    assert_eq!(symbolize(&mut d, 0x10AB).unwrap(), "<word+0xab> [jit_proc]");
    assert_eq!(symbolize(&mut d, 0x2_0000), None);
    assert_eq!(symbolize(&mut d, 0xFFF), None);
    register_code_range(&mut d, 0x1000, 0x10_0000, "kernel");
    assert_eq!(symbolize(&mut d, 0x2_0000).unwrap(), "<word+0x1f000> [jit_proc]");
    clear_code_ranges(&mut d);
    assert_eq!(symbolize(&mut d, 0x2_0000), None);
    // An empty range is no range.
    register_code_range(&mut d, 0x50, 0x50, "user");
    assert!(!is_code(&d, 0x50));
}

#[test]
fn symbol_count_tracks_registration() {
    let mut d = Dumper::new();
    let before = symbol_count(&d);
    register(&mut d, "__seh_test_alpha", 0xAABBCC00, "test");
    register(&mut d, "__seh_test_beta", 0xAABBCC10, "test");
    let after = symbol_count(&d);
    assert!(after >= before + 2);
    register_many(&mut d, vec![("a".to_string(), 1, "win32"), ("b".to_string(), 2, "win32")]);
    assert_eq!(symbol_count(&d), after + 2);
    assert_eq!(symbolize(&mut d, 2).unwrap(), "<b> [win32]");
}

/// The memory that holds `values` from `base` up.
fn cells(base: u64, values: &[u64]) -> Vec<Cell> {
    values
        .iter()
        .enumerate()
        .map(|(i, v)| Cell { addr: base + 8 * i as u64, value: *v })
        .collect()
}

#[test]
fn forth_dump_renders_sp_rp_trace_and_vars() {
    let mut d = Dumper::new();
    let code_base = 0x6000_0000_0000u64;
    register(&mut d, "fake_wordA", code_base, "test");
    register(&mut d, "fake_wordB", code_base + 0x40, "test");
    register_code_range(&mut d, code_base, code_base + 0x100, "test");

    let dstack: Vec<u64> = vec![0x1111, 0x2222, 0x3333, 0x4444];
    let dlo = 0x7000_0000_1000u64;
    let dtop = dlo + (dstack.len() as u64) * 8;

    // Return stack: a frame, a data cell, another frame.
    let rstack: Vec<u64> = vec![code_base + 0x10, 0xDEAD_BEEF, code_base + 0x50];
    let rlo = 0x7000_0000_2000u64;
    let rtop = rlo + (rstack.len() as u64) * 8;

    let uarea: Vec<u64> = vec![0xAA, 0xBB];
    let ubase = 0x7000_0000_3000u64;

    set_forth_dump_info(
        &mut d,
        ForthDumpInfo {
            user_base: ubase,
            dstack_low: dlo,
            dstack_top: dtop,
            rstack_low: rlo,
            rstack_top: rtop,
            vars: vec![
                ForthVar { name: "V0", offset: 0 },
                ForthVar { name: "V1", offset: 8 },
            ],
        },
    );

    let regs = CrashRegs {
        rax: 0x7705,
        rbx: ubase,
        rbp: dlo,
        rsp: rlo,
        rip: code_base + 0x20,
        ..Default::default()
    };
    let mut memory = cells(dlo, &dstack);
    memory.extend(cells(rlo, &rstack));
    memory.extend(cells(ubase, &uarea));
    // The dump asks for exactly this memory.
    assert_eq!(
        dump_addresses(&d, &regs),
        memory.iter().map(|c| c.addr).collect::<Vec<u64>>()
    );
    let out = format_forth_dump(&mut d, &regs, STATUS_ACCESS_VIOLATION, Some((1, 0xBAD)), &memory);

    // Faulting word symbolicated from RIP.
    assert!(out.contains("fake_wordA+0x20"), "rip sym missing:\n{out}");
    // Data stack: TOS in rax + the four cells.
    assert!(out.contains("DATA STACK"), "{out}");
    assert!(out.contains("7705") && out.contains("0000000000001111"), "{out}");
    // Return-stack trace: two code frames + one data cell.
    assert!(out.contains("#0") && out.contains("fake_wordA+0x10"), "{out}");
    assert!(out.contains("#1") && out.contains("fake_wordB+0x10"), "{out}");
    assert!(out.contains("(data)"), "data cell not flagged:\n{out}");
    // Key user vars (uppercase hex).
    assert!(out.contains("V0") && out.contains("00000000000000AA"), "{out}");
    // CPU register block comes after the Forth view.
    let cpu = out.find("CPU").unwrap();
    let ds = out.find("DATA STACK").unwrap();
    assert!(ds < cpu, "Forth view must precede CPU registers");

    let expected = "\
┌─── WF64 Forth crash dump ──────────────────────────────────────────────
│ exception : 0xC0000005  ACCESS_VIOLATION
│ at word   : 0000600000000020  <fake_wordA+0x20> [test]
│ access    : write at 0000000000000BAD  
│
│ DATA STACK  rbp=0000700000001000  depth=5
│   TOS   0000000000007705   (rax)
│   NOS+0  0000000000001111
│   NOS+1  0000000000002222
│   NOS+2  0000000000003333
│   NOS+3  0000000000004444
│
│ RETURN STACK  rsp=0000700000002000  top=0000700000002018
│   #0  0000600000000010  <fake_wordA+0x10> [test]   @ rp+0
│        00000000DEADBEEF  (data)        @ rp+8
│   #1  0000600000000050  <fake_wordB+0x10> [test]   @ rp+16
│
│ USER VARS  up=0000700000003000
│   V0         = 00000000000000AA
│   V1         = 00000000000000BB
│
│ CPU  rax=0000000000007705 rbx=0000700000003000 rcx=0000000000000000
│      rdx=0000000000000000 rsi=0000000000000000 rdi=0000000000000000
│      rbp=0000700000001000 rsp=0000700000002000 rip=0000600000000020
│      r8 =0000000000000000 r9 =0000000000000000 r10=0000000000000000
│      r11=0000000000000000 r12=0000000000000000 r13=0000000000000000
│      r14=0000000000000000 r15=0000000000000000 flags=00000000
└───────────────────────────────────────────────────────────────────────
";
    assert_eq!(out, expected);
}

#[test]
fn dump_degrades_to_notes() {
    let mut d = Dumper::new();
    set_forth_dump_info(
        &mut d,
        ForthDumpInfo {
            user_base: 0x9000,
            dstack_low: 0x1000,
            dstack_top: 0x1200,
            rstack_low: 0x3000,
            rstack_top: 0x3100,
            vars: vec![ForthVar { name: "HERE", offset: 16 }],
        },
    );
    // The first data cell can be read, the second cannot; the return stack holds no frame.
    let regs = CrashRegs {
        rbp: 0x1000,
        rsp: 0x30F0,
        rbx: 0x9000,
        ..Default::default()
    };
    let memory = [
        Cell { addr: 0x1000, value: 7 },
        Cell { addr: 0x30F0, value: 1 },
        Cell { addr: 0x30F8, value: 2 },
    ];
    let out = format_forth_dump(&mut d, &regs, STATUS_BREAKPOINT, None, &memory);
    assert!(out.contains("│ exception : 0x80000003  BREAKPOINT (int 3)\n"), "{out}");
    assert!(out.contains("│ at word   : 0000000000000000  <?>\n"), "{out}");
    assert!(!out.contains("access"), "{out}");
    assert!(out.contains("depth=65\n"), "{out}");
    assert!(out.contains("│   <unreadable @ 0000000000001008>\n│   … 63 more\n"), "{out}");
    assert!(out.contains("│   (no Forth return addresses found)\n"), "{out}");
    assert!(out.contains("│   HERE       = <unreadable>\n"), "{out}");

    // Sixteen cells at most, and a note on the rest.
    let deep: Vec<Cell> = (0..64).map(|i| Cell { addr: 0x1000 + 8 * i, value: i }).collect();
    let out = format_forth_dump(&mut d, &regs, STATUS_BREAKPOINT, None, &deep);
    assert!(out.contains("│   NOS+15 000000000000000F\n│   … 48 more\n"), "{out}");

    // An empty stack leaves rbp one cell above the top.
    let empty = CrashRegs { rbp: 0x1208, rsp: 0x2000, rbx: 1, ..Default::default() };
    let out = format_forth_dump(&mut d, &empty, 5, None, &[]);
    assert!(out.contains("│ DATA STACK  rbp=0000000000001208  depth=0\n│\n"), "{out}");
    assert!(out.contains("rsp=0000000000002000  (not in return-stack region)\n"), "{out}");
    assert!(
        out.contains("│ USER VARS  rbx=0000000000000001  (≠ user base 0000000000009000; skipped)\n"),
        "{out}"
    );
    let outside = CrashRegs { rbp: 0x1209, ..Default::default() };
    let out = format_forth_dump(&mut d, &outside, 5, None, &[]);
    assert!(out.contains("rbp=0000000000001209  (not in data-stack region)\n"), "{out}");
    assert!(out.contains("0x00000005  (see Windows status codes for hex)"), "{out}");
}

#[test]
fn raw_stack_without_a_forth_view() {
    let mut d = Dumper::new();
    register(&mut d, "w", 0x40, "user");
    let regs = CrashRegs { rsp: 0x100, eflags: 0x246, ..Default::default() };
    assert_eq!(dump_addresses(&d, &regs).len(), 32);
    assert_eq!(dump_addresses(&d, &regs)[31], 0x100 + 31 * 8);
    let memory: Vec<Cell> = (0..32).map(|i| Cell { addr: 0x100 + 8 * i, value: 0x44 }).collect();
    let out = format_forth_dump(&mut d, &regs, STATUS_STACK_OVERFLOW, Some((8, 0x44)), &memory);
    assert!(out.contains("│ access    : execute at 0000000000000044  <w+0x4> [user]\n"), "{out}");
    assert!(out.contains("flags=00000246\n│\n│ raw stack (32 qwords from rsp):\n"), "{out}");
    assert!(out.contains("│   [rsp+  0] 0000000000000044  <w+0x4> [user]\n"), "{out}");
    assert!(out.contains("│   [rsp+ 16] 0000000000000044  <w+0x4> [user]\n"), "{out}");
    assert!(out.contains("│   [rsp+248] 0000000000000044  <w+0x4> [user]\n└"), "{out}");
    // A misaligned stack pointer reads nothing.
    let odd = CrashRegs { rsp: 0x101, ..Default::default() };
    let out = format_forth_dump(&mut d, &odd, STATUS_STACK_OVERFLOW, Some((2, 0)), &memory);
    assert!(out.contains("│   [rsp+  0] <unreadable>\n└"), "{out}");
    assert!(out.contains("│ access    : ? at 0000000000000000  \n"), "{out}");
    assert_eq!(read_qword(&memory, 0x101), None);
    assert_eq!(read_qword(&memory, 0x108), Some(0x44));
    assert_eq!(read_qword(&memory, 0x98), None);
}

#[test]
fn only_planned_addresses_matter() {
    let mut d = Dumper::new();
    let regs = CrashRegs { rsp: 0x100, ..Default::default() };
    let a = [Cell { addr: 0x100, value: 1 }];
    let b = [Cell { addr: 0x100, value: 1 }, Cell { addr: 0x900, value: 2 }];
    assert!(!dump_addresses(&d, &regs).contains(&0x900));
    assert_eq!(
        format_forth_dump(&mut d, &regs, 0, None, &a),
        format_forth_dump(&mut d, &regs, 0, None, &b)
    );
}

#[test]
fn exception_verdicts() {
    let step = on_exception(STATUS_SINGLE_STEP, 100);
    assert!(!step.dump);
    assert_eq!((step.rip, step.disposition), (100, EXCEPTION_CONTINUE_SEARCH));
    let brk = on_exception(STATUS_BREAKPOINT, 100);
    assert!(brk.dump);
    assert_eq!((brk.rip, brk.disposition), (101, EXCEPTION_CONTINUE_EXECUTION));
    let av = on_exception(STATUS_ACCESS_VIOLATION, 100);
    assert!(av.dump);
    assert_eq!((av.rip, av.disposition), (100, EXCEPTION_CONTINUE_SEARCH));
    assert_eq!(EXCEPTION_CONTINUE_EXECUTION, -1);
}

#[test]
fn exception_names() {
    assert_eq!(exception_kind(STATUS_ACCESS_VIOLATION), "ACCESS_VIOLATION");
    assert_eq!(exception_kind(STATUS_BREAKPOINT), "BREAKPOINT (int 3)");
    assert_eq!(exception_kind(STATUS_ILLEGAL_INSTRUCTION), "ILLEGAL_INSTRUCTION");
    assert_eq!(exception_kind(STATUS_PRIVILEGED_INSTRUCTION), "PRIVILEGED_INSTRUCTION");
    assert_eq!(exception_kind(STATUS_STACK_OVERFLOW), "STACK_OVERFLOW");
    assert_eq!(exception_kind(STATUS_INTEGER_DIVIDE_BY_ZERO), "INTEGER_DIVIDE_BY_ZERO");
    assert_eq!(exception_kind(STATUS_INTEGER_OVERFLOW), "INTEGER_OVERFLOW");
    assert_eq!(exception_kind(0), "(see Windows status codes for hex)");
}

#[test]
fn access_and_page_decisions() {
    assert_eq!(access_info(STATUS_ACCESS_VIOLATION, 2, 0x1_0000_0001, 9), Some((1, 9)));
    assert_eq!(access_info(STATUS_ACCESS_VIOLATION, 1, 1, 9), None);
    assert_eq!(access_info(STATUS_BREAKPOINT, 2, 1, 9), None);
    assert!(page_readable(true, 0x1000, 0x04));
    assert!(page_readable(true, 0x1000, 0x20));
    assert!(!page_readable(true, 0x1000, 0x104)); // guard page
    assert!(!page_readable(true, 0x1000, 0x10)); // execute only
    assert!(!page_readable(true, 0x1000, 0x01)); // no access
    assert!(!page_readable(true, 0x2000, 0x04)); // not committed
    assert!(!page_readable(false, 0x1000, 0x04));
}

#[test]
fn the_handler_is_installed_once() {
    let mut d = Dumper::new();
    assert!(!is_installed(&d));
    assert_eq!(install(&d), InstallStep::AddHandler);
    assert_eq!(handler_added(&mut d, 0), Err("AddVectoredExceptionHandler returned null"));
    assert!(!is_installed(&d));
    assert_eq!(handler_added(&mut d, 7), Ok(()));
    assert!(is_installed(&d));
    assert_eq!(install(&d), InstallStep::Done);
}

/// A loader that knows one name.
struct OneName;

impl Loader for OneName {
    type Error = String;

    fn add_asm(&mut self, _text: &str) -> Result<(), String> {
        Ok(())
    }

    fn declare_fn(&mut self, _name: &str, _arg_count: usize) -> Result<(), String> {
        Ok(())
    }

    fn define_extern_fn(&mut self, _name: &str, _args: usize, _addr: u64) -> Result<(), String> {
        Ok(())
    }

    fn lookup_addr(&mut self, name: &str) -> Result<u64, String> {
        if name == "known" {
            Ok(0x4000)
        } else {
            Err(format!("no {name}"))
        }
    }
}

#[test]
fn jit_procs_are_registered_together_or_not_at_all() {
    let mut d = Dumper::new();
    assert_eq!(register_jit_procs(&mut d, &mut OneName, &["known", "other"]), Err("no other".to_string()));
    assert_eq!(symbol_count(&d), 0);
    assert_eq!(register_jit_procs(&mut d, &mut OneName, &["known"]), Ok(()));
    assert_eq!(symbolize(&mut d, 0x4001).unwrap(), "<known+0x1> [jit_proc]");
    register_procs(&mut d, &["a", "b"], &vec![0x10, 0x20]);
    assert_eq!(symbolize(&mut d, 0x10).unwrap(), "<a> [jit_proc]");
    assert_eq!(symbolize(&mut d, 0x25).unwrap(), "<b+0x5> [jit_proc]");
}
