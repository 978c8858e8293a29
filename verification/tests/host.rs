use wfasm::jit::{c_string, nul_message, on_diagnostic, EngineStep, Leftover, Severity};
use wfasm::kernel::{
    host_entry, initial_dsp, runtime_fn, user_area, Accept, HostFn, NoHostFn, DATA_STACK_CELLS,
    TIB_SIZE, UP_BASE, UP_DP, UP_HANDLER, UP_LATEST, UP_NTIB, UP_SIZE, UP_TIB,
};
use wfasm::win32::{BindAction, BindError, BindReport, Binder, Extern};
use wfasm::{Jit, JitError};

// ── MCJIT ──

#[test]
fn a_module_is_built_handed_over_and_looked_up() {
    let mut jit = Jit::new("kernel", 7).unwrap();
    assert_eq!(jit.add_asm(&vec![]), Ok(7));
    assert_eq!(jit.declare_fn("forth_entry"), Ok(7));
    assert_eq!(jit.define_extern_fn("f", 0, 100, 0x1000), Ok(()));
    assert_eq!(jit.define_extern_fn("g", 1, 101, 0x2000), Ok(()));
    assert_eq!(jit.finalize(), Ok(EngineStep::Create { module: 7 }));
    // On its way to the engine the module is with nobody here.
    assert_eq!(jit.require_module(), Err(JitError::AlreadyFinalized));
    assert_eq!(jit.created(7, 0, 9, None), Ok(vec![(100, 0x1000), (101, 0x2000)]));
    assert_eq!(jit.finalize(), Ok(EngineStep::Ready { engine: 9 }));
    assert_eq!(jit.finalize(), Ok(EngineStep::Ready { engine: 9 }));
    assert!(jit.pending_mappings.is_empty());
    assert_eq!(jit.add_asm(&vec![]), Err(JitError::AlreadyFinalized));
    assert_eq!(jit.declare_fn("late"), Err(JitError::AlreadyFinalized));
    assert_eq!(jit.define_extern_fn("h", 2, 102, 0x3000), Err(JitError::AlreadyFinalized));
    assert!(jit.pending_mappings.is_empty());
    assert!(!jit.arg_counts.contains_key("h"));
    assert_eq!(jit.begin_lookup("forth_entry"), Ok(()));
    assert_eq!(jit.end_lookup("forth_entry", 0xABC), Ok(0xABC));
    assert_eq!(jit.end_lookup("gone", 0), Err(JitError::NotFound("gone".to_string())));
    assert_eq!(jit.release(), Leftover::Engine { engine: 9 });
    assert_eq!(jit.release(), Leftover::Nothing);
    assert_eq!(jit.finalize(), Err(JitError::AlreadyFinalized));
}

#[test]
fn a_failed_handover_gives_the_module_back() {
    for (rc, engine) in [(1, 9), (0, 0)] {
        let mut jit = Jit::new("m", 7).unwrap();
        assert_eq!(jit.define_extern_fn("f", 0, 1, 2), Ok(()));
        assert_eq!(jit.finalize(), Ok(EngineStep::Create { module: 7 }));
        let failed = jit.created(7, rc, engine, Some("bad".to_string()));
        assert_eq!(failed, Err(JitError::Llvm("bad".to_string())));
        assert_eq!(jit.require_module(), Ok(7));
        assert_eq!(jit.pending_mappings, vec![(1, 2)]);
        assert_eq!(jit.finalize(), Ok(EngineStep::Create { module: 7 }));
        let silent = "LLVMCreateMCJITCompilerForModule failed with no message".to_string();
        assert_eq!(jit.created(7, 1, 0, None), Err(JitError::Llvm(silent)));
        assert_eq!(jit.release(), Leftover::Module { module: 7 });
    }
}

#[test]
fn declared_and_defined_argument_counts_have_to_agree() {
    let mut jit = Jit::new("m", 7).unwrap();
    let dll = Some("kernel32.dll");
    let declared = vec![
        decl("unbound", 9, None),
        decl("rt_emit", 1, None),
        decl("Sleep", 1, dll),
        decl("rt_accept", 2, None),
    ];
    // Nothing is defined yet, so nothing disagrees.
    assert_eq!(jit.add_asm(&declared), Ok(7));
    assert_eq!(jit.define_extern_fn("rt_emit", 1, 1, 0x10), Ok(()));
    assert_eq!(jit.define_extern_fn("rt_accept", 2, 2, 0x20), Ok(()));
    assert_eq!(jit.define_extern_fn("undeclared", 5, 3, 0x30), Ok(()));
    assert_eq!(jit.add_asm(&declared), Ok(7));
    // The first that disagrees is reported, whether it is the host's or a library's.
    let off = |name: &str, declared: usize, defined: usize| {
        Err(JitError::ArgCount { name: name.to_string(), declared, defined })
    };
    assert_eq!(jit.define_extern_fn("rt_accept", 0, 4, 0x40), Ok(()));
    assert_eq!(jit.add_asm(&declared), off("rt_accept", 2, 0));
    assert_eq!(jit.define_extern_fn("Sleep", 12, 5, 0x50), Ok(()));
    assert_eq!(jit.add_asm(&declared), off("Sleep", 1, 12));
    assert_eq!(
        jit.add_asm(&declared).unwrap_err().message(),
        "@extern `Sleep` declares 1 argument(s), but define_extern_fn gave it 12"
    );
    // Other text is not held to these declarations, and what is defined last counts.
    assert_eq!(jit.add_asm(&vec![]), Ok(7));
    assert_eq!(jit.define_extern_fn("Sleep", 1, 6, 0x60), Ok(()));
    assert_eq!(jit.define_extern_fn("rt_accept", 2, 7, 0x70), Ok(()));
    assert_eq!(jit.add_asm(&declared), Ok(7));
    // A module that was handed over is reported first.
    assert_eq!(jit.define_extern_fn("Sleep", 0, 8, 0x80), Ok(()));
    assert_eq!(jit.finalize(), Ok(EngineStep::Create { module: 7 }));
    assert_eq!(jit.add_asm(&declared), Err(JitError::AlreadyFinalized));
}

#[test]
fn diagnostics_come_before_answers() {
    let mut jit = Jit::new("m", 1).unwrap();
    let say = |s: &str| Some(s.to_string());
    on_diagnostic(&mut jit.diag_errors, Severity::Warning, say("w"));
    on_diagnostic(&mut jit.diag_errors, Severity::Remark, say("r"));
    on_diagnostic(&mut jit.diag_errors, Severity::Note, say("n"));
    on_diagnostic(&mut jit.diag_errors, Severity::Error, None);
    assert_eq!(jit.begin_lookup("f"), Ok(()));
    on_diagnostic(&mut jit.diag_errors, Severity::Error, say("one"));
    on_diagnostic(&mut jit.diag_errors, Severity::Error, say("two"));
    assert_eq!(jit.begin_lookup("f"), Err(JitError::Llvm("one\ntwo".to_string())));
    // They are reported once.
    assert_eq!(jit.begin_lookup("f"), Ok(()));
    on_diagnostic(&mut jit.diag_errors, Severity::Error, say("three"));
    assert_eq!(jit.end_lookup("f", 5), Err(JitError::Llvm("three".to_string())));
    assert_eq!(jit.end_lookup("f", 5), Ok(5));
    on_diagnostic(&mut jit.diag_errors, Severity::Error, say("four"));
    assert_eq!(jit.take_errors(), vec!["four".to_string()]);
    assert!(jit.take_errors().is_empty());
}

#[test]
fn names_with_a_nul() {
    let nul = JitError::Nul("a\0b".to_string());
    assert_eq!(c_string("a\0b"), Err(nul.clone()));
    assert_eq!(c_string("ab"), Ok(()));
    assert!(Jit::new("a\0b", 1).is_err());
    let mut jit = Jit::new("m", 1).unwrap();
    assert_eq!(jit.declare_fn("a\0b"), Err(nul.clone()));
    assert_eq!(jit.begin_lookup("a\0b"), Err(nul.clone()));
    assert_eq!(nul.message(), "string \"a\\0b\" contained an interior NUL");
    assert_eq!(nul_message("X"), "string X contained an interior NUL");
}

#[test]
fn jit_messages() {
    assert_eq!(JitError::Llvm("x".to_string()).message(), "LLVM error: x");
    assert_eq!(JitError::NotFound("f".to_string()).message(), "symbol `f` not found");
    assert_eq!(
        JitError::AlreadyFinalized.message(),
        "JIT module already finalized; further add_asm/define_extern_fn not allowed"
    );
}

// ── Binding ──

fn decl(name: &str, arg_count: usize, dll: Option<&str>) -> Extern {
    Extern { name: name.to_string(), arg_count, dll: dll.map(|d| d.to_string()) }
}

fn get(module: u64, name: &str) -> Result<BindAction, BindError> {
    Ok(BindAction::GetProc { module, name: name.to_string() })
}

fn define(name: &str, arg_count: usize, addr: u64) -> Result<BindAction, BindError> {
    Ok(BindAction::Define { name: name.to_string(), arg_count, addr })
}

#[test]
fn libraries_are_loaded_once_and_missing_functions_skipped() {
    let mut b = Binder::new(vec![
        decl("Beep", 2, Some("K.dll")),
        decl("rt_emit", 1, None),
        decl("Gone", 0, Some("K.dll")),
        decl("Other", 1, Some("U.dll")),
    ]);
    assert_eq!(b.action(), Ok(BindAction::Load { dll: "K.dll".to_string() }));
    assert_eq!(b.library_loaded(0x10, 0), get(0x10, "Beep"));
    assert_eq!(b.proc_found(0x111, 0), define("Beep", 2, 0x111));
    assert_eq!(b.defined(Ok(())), Ok(BindAction::AskHost { name: "rt_emit".to_string() }));
    assert_eq!(b.host_answered(Some(0x222)), define("rt_emit", 1, 0x222));
    // K.dll is there already.
    assert_eq!(b.defined(Ok(())), get(0x10, "Gone"));
    assert_eq!(b.proc_found(0, 127), Ok(BindAction::Load { dll: "U.dll".to_string() }));
    assert_eq!(b.library_loaded(0x20, 0), get(0x20, "Other"));
    assert_eq!(b.proc_found(0x333, 0), define("Other", 1, 0x333));
    assert_eq!(b.defined(Ok(())), Ok(BindAction::Done));
    assert_eq!(b.report.bound, 3);
    assert_eq!(b.report.missing_proc, vec![("Gone".to_string(), "K.dll".to_string(), 127)]);
    assert_eq!(b.report.bound + b.report.missing_proc.len(), b.externs.len());
    assert_eq!(Binder::new(vec![]).action(), Ok(BindAction::Done));
    assert_eq!(BindReport::default().bound, 0);
}

#[test]
fn what_binding_fails_on() {
    let mut b = Binder::new(vec![decl("f", 0, Some("K.dll"))]);
    let e = b.library_loaded(0, 126).unwrap_err();
    assert_eq!(e.message(), "LoadLibraryW(\"K.dll\") failed (GetLastError = 126)");
    let mut b = Binder::new(vec![decl("a\0b", 0, Some("K.dll"))]);
    let e = b.library_loaded(1, 0).unwrap_err();
    assert_eq!(e, BindError::Cstring("a\0b".to_string()));
    assert_eq!(e.message(), "name `a\0b` contains an interior NUL");
    assert_eq!(b.action(), Err(e));
    let mut b = Binder::new(vec![decl("rt_x", 0, None)]);
    let e = b.host_answered(None).unwrap_err();
    assert_eq!(
        e.message(),
        "@extern `rt_x` has no DLL string and the resolver returned None"
    );
    let e = b.defined(Err("full".to_string())).unwrap_err();
    assert_eq!(e, BindError::Loader("full".to_string()));
    assert_eq!(e.message(), "loader bind failed: full");
    let e = BindError::GetProcAddress {
        dll: "K.dll".to_string(),
        name: "f".to_string(),
        win_error: 127,
    };
    assert_eq!(e.message(), "GetProcAddress(\"f\") in \"K.dll\" failed (GetLastError = 127)");
}

// ── Kernel ──

#[test]
fn the_user_area_at_the_start() {
    let cells = user_area(0x1000, 0x2000, 0x3000);
    assert_eq!(cells.len(), UP_SIZE / 8);
    let mut expected = vec![0u64; 16];
    expected[UP_DP / 8] = 0x1000;
    expected[UP_BASE / 8] = 10;
    expected[UP_LATEST / 8] = 0x2000;
    expected[UP_TIB / 8] = 0x3000;
    expected[UP_NTIB / 8] = TIB_SIZE as u64;
    assert_eq!(cells, expected);
    assert_eq!(UP_HANDLER, 80);
    assert_eq!(initial_dsp(0x10000), 0x10000 + 8 * DATA_STACK_CELLS as u64);
}

#[test]
fn host_functions_by_name() {
    assert_eq!(runtime_fn("rt_emit"), Some(HostFn::Emit));
    assert_eq!(runtime_fn("rt_key"), Some(HostFn::Key));
    assert_eq!(runtime_fn("rt_accept"), Some(HostFn::Accept));
    assert_eq!(runtime_fn("rt_bye"), Some(HostFn::Bye));
    assert_eq!(runtime_fn("rt_by"), None);
    assert_eq!(runtime_fn(""), None);
    assert_eq!(HostFn::Emit.arg_count(), 1);
    assert_eq!(HostFn::Key.arg_count(), 0);
    assert_eq!(HostFn::Accept.arg_count(), 2);
    assert_eq!(HostFn::Bye.arg_count(), 0);
}

#[test]
fn a_host_function_is_defined_with_its_own_arguments() {
    // What the kernel declares does not count here: the two are compared when text is added.
    let e = decl("rt_accept", 7, None);
    assert_eq!(host_entry(&e), Ok(Some((HostFn::Accept, 2))));
    assert_eq!(host_entry(&decl("rt_accept", 2, Some("k.dll"))), Ok(None));
    assert_eq!(host_entry(&decl("Sleep", 1, Some("k.dll"))), Ok(None));
    let none = host_entry(&decl("rt_beep", 1, None)).unwrap_err();
    assert_eq!(none, NoHostFn { name: "rt_beep".to_string() });
    assert_eq!(
        none.message(),
        "kernel declares @extern `rt_beep` but runtime has no entry for it"
    );
    let mut jit = Jit::new("m", 7).unwrap();
    assert_eq!(jit.define_extern_fn("rt_accept", 2, 1, 0x10), Ok(()));
    let off = JitError::ArgCount { name: "rt_accept".to_string(), declared: 7, defined: 2 };
    assert_eq!(jit.add_asm(&vec![e]), Err(off));
}

fn accept(input: &[u8], max: usize) -> (Vec<u8>, usize) {
    let mut a = Accept::new(max);
    let mut read = 0;
    while !a.done {
        a.feed(input.get(read).copied());
        read += 1;
    }
    (a.line, read)
}

#[test]
fn lines_for_accept() {
    assert_eq!(accept(b"words\nmore", 80), (b"words".to_vec(), 6));
    assert_eq!(accept(b"words\rmore", 80), (b"words".to_vec(), 6));
    // The line is full: the newline stays unread.
    assert_eq!(accept(b"words\n", 5), (b"words".to_vec(), 5));
    assert_eq!(accept(b"ab", 5), (b"ab".to_vec(), 3));
    assert_eq!(accept(b"ab", 0), (vec![], 0));
    assert_eq!(accept(b"\nab", 5), (vec![], 1));
}
