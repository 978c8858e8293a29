use object::write::{Mangling, Object, Relocation, StandardSection, Symbol, SymbolSection};
use object::{
    Architecture, BinaryFormat, Endianness, RelocationEncoding, RelocationFlags, RelocationKind,
    SectionKind, SymbolFlags, SymbolKind, SymbolScope,
};
use wfasm::jit::{on_diagnostic, Severity};
use wfasm::oracle::{
    assembly_for, build_module, cpu_features, emitted, ensure_intel, ensure_trailing_newline,
    map_reloc, parse_object, triple_is_x86, OracleError, RawFlags, RawKind, RawReloc, RawSection,
    RawSymbol, Unmapped,
};
use wfasm::{LlvmMcEncoder, RelocKind};

fn object(format: BinaryFormat, arch: Architecture) -> Object<'static> {
    let mut o = Object::new(format, arch, Endianness::Little);
    o.set_mangling(Mangling::None);
    o
}

fn symbol(name: &str, value: u64, scope: SymbolScope, section: SymbolSection) -> Symbol {
    Symbol {
        name: name.as_bytes().to_vec(),
        value,
        size: 0,
        kind: SymbolKind::Text,
        scope,
        weak: false,
        section,
        flags: SymbolFlags::None,
    }
}

const CALL: RelocationFlags = RelocationFlags::Generic {
    kind: RelocationKind::Relative,
    encoding: RelocationEncoding::X86Branch,
    size: 32,
};

#[test]
fn extracts_globl_symbol_and_extern_reloc() {
    // .globl w
    // w: call rt_emit
    //    ret
    let mut o = object(BinaryFormat::Coff, Architecture::X86_64);
    let text = o.section_id(StandardSection::Text);
    o.append_section_data(text, &[0xE8, 0, 0, 0, 0, 0xC3], 16);
    o.add_symbol(symbol("w", 0, SymbolScope::Linkage, SymbolSection::Section(text)));
    let rt = o.add_symbol(symbol("rt_emit", 0, SymbolScope::Unknown, SymbolSection::Undefined));
    o.add_relocation(text, Relocation { offset: 1, symbol: rt, addend: -4, flags: CALL }).unwrap();
    let o = parse_object(&o.write().unwrap()).expect("oracle");
    assert_eq!(o.symbols.get("w"), Some(&0), "w must be exported at offset 0");
    assert_eq!(o.externs, vec!["rt_emit".to_string()]);
    assert_eq!(o.relocs.len(), 1, "one reloc, got {:?}", o.relocs);
    assert_eq!(o.relocs[0].kind, RelocKind::BranchRel32);
    assert_eq!(o.relocs[0].target, "rt_emit");
    assert_eq!(o.code[0], 0xE8, "call rel32 opcode");
    assert_eq!((o.relocs[0].at, o.relocs[0].size), (1, 4));
    assert!(o.fields_fit());
}

#[test]
fn rejects_garbage_via_diagnostics_not_abort() {
    let text = assembly_for("x86_64-pc-windows-msvc", "this_is_not_an_instruction foo\n");
    assert_eq!(text, ".intel_syntax noprefix\nthis_is_not_an_instruction foo\n");
    let mut errors = Vec::new();
    let found = Some("invalid instruction mnemonic 'this_is_not_an_instruction'".to_string());
    on_diagnostic(&mut errors, Severity::Error, found);
    let err = emitted(&errors, 0, Some(vec![0]), String::new());
    assert!(err.is_err(), "bad asm must return Err, not abort");
    assert_eq!(
        err.unwrap_err().message(),
        "LLVM-MC rejected asm: invalid instruction mnemonic 'this_is_not_an_instruction'"
    );
}

#[test]
fn externs_are_sorted_and_locals_are_not_exported() {
    let mut o = object(BinaryFormat::Elf, Architecture::X86_64);
    let text = o.section_id(StandardSection::Text);
    let data = o.section_id(StandardSection::Data);
    o.append_section_data(text, &[0x90; 32], 16);
    o.append_section_data(data, &[0; 8], 8);
    o.add_symbol(symbol("entry", 8, SymbolScope::Linkage, SymbolSection::Section(text)));
    o.add_symbol(symbol("local", 4, SymbolScope::Compilation, SymbolSection::Section(text)));
    o.add_symbol(symbol("elsewhere", 0, SymbolScope::Linkage, SymbolSection::Section(data)));
    let zed = o.add_symbol(symbol("zed", 0, SymbolScope::Unknown, SymbolSection::Undefined));
    let abc = o.add_symbol(symbol("abc", 0, SymbolScope::Unknown, SymbolSection::Undefined));
    for (offset, symbol) in [(0, zed), (8, abc), (16, zed)] {
        o.add_relocation(text, Relocation { offset, symbol, addend: 0, flags: CALL }).unwrap();
    }
    let m = parse_object(&o.write().unwrap()).unwrap();
    assert_eq!(m.code, vec![0x90; 32]);
    assert_eq!(m.symbols.len(), 1);
    assert_eq!(m.symbols.get("entry"), Some(&8));
    assert_eq!(m.symbols.get("local"), None);
    assert_eq!(m.externs, vec!["abc".to_string(), "zed".to_string()]);
    assert_eq!(m.relocs.iter().map(|r| r.at).collect::<Vec<_>>(), vec![0, 8, 16]);
}

#[test]
fn mach_o_relocations_of_aarch64() {
    let mut o = object(BinaryFormat::MachO, Architecture::Aarch64);
    let text = o.section_id(StandardSection::Text);
    o.append_section_data(text, &[0; 32], 16);
    o.add_symbol(symbol("_w", 4, SymbolScope::Linkage, SymbolSection::Section(text)));
    let ext = o.add_symbol(symbol("ext", 0, SymbolScope::Unknown, SymbolSection::Undefined));
    let kinds = [(2u8, true, 2u8), (3, true, 2), (4, false, 2), (0, false, 3)];
    for (i, (r_type, r_pcrel, r_length)) in kinds.into_iter().enumerate() {
        let flags = RelocationFlags::MachO { r_type, r_pcrel, r_length };
        let reloc = Relocation { offset: 8 * i as u64, symbol: ext, addend: 0, flags };
        o.add_relocation(text, reloc).unwrap();
    }
    let m = parse_object(&o.write().unwrap()).unwrap();
    let mut found: Vec<(usize, RelocKind)> = m.relocs.iter().map(|r| (r.at, r.kind)).collect();
    found.sort_by_key(|f| f.0);
    assert_eq!(
        found,
        vec![
            (0, RelocKind::Branch26),
            (8, RelocKind::AdrpPage21),
            (16, RelocKind::AddPageOff12),
            (24, RelocKind::Abs64),
        ]
    );
    // Names stay as they are written.
    assert_eq!(m.symbols.get("_w"), Some(&4));
    assert_eq!(m.externs, vec!["ext".to_string()]);
}

#[test]
fn a_text_section_of_another_name() {
    let mut o = object(BinaryFormat::Elf, Architecture::X86_64);
    let other = o.add_section(Vec::new(), b"code".to_vec(), SectionKind::Text);
    o.append_section_data(other, &[0xC3], 1);
    assert_eq!(parse_object(&o.write().unwrap()).unwrap().code, vec![0xC3]);
    let mut o = object(BinaryFormat::Elf, Architecture::X86_64);
    let named = o.add_section(Vec::new(), b"__text".to_vec(), SectionKind::Data);
    o.append_section_data(named, &[7], 1);
    assert_eq!(parse_object(&o.write().unwrap()).unwrap().code, vec![7]);
    let empty = object(BinaryFormat::Elf, Architecture::X86_64);
    let r = parse_object(&empty.write().unwrap());
    assert_eq!(r.unwrap_err().message(), "emitted object has no .text section");
}

#[test]
fn what_is_no_object_is_refused() {
    let r = parse_object(&[1, 2, 3]);
    assert!(matches!(r, Err(OracleError::Parse(_))));
    assert_eq!(r.unwrap_err().message(), "parse emitted object");
}

#[test]
fn an_unmapped_relocation_is_refused() {
    let mut o = object(BinaryFormat::Coff, Architecture::X86_64);
    let text = o.section_id(StandardSection::Text);
    o.append_section_data(text, &[0; 8], 16);
    let ext = o.add_symbol(symbol("ext", 0, SymbolScope::Unknown, SymbolSection::Undefined));
    let flags = RelocationFlags::Coff { typ: 0x000B };
    o.add_relocation(text, Relocation { offset: 2, symbol: ext, addend: 0, flags }).unwrap();
    let e = parse_object(&o.write().unwrap()).unwrap_err();
    assert_eq!(e.message(), "reloc at 0x2 targeting ext: unmapped COFF reloc type 0x000b");
}

#[test]
fn relocations_are_shown_in_messages() {
    let mut o = object(BinaryFormat::Elf, Architecture::X86_64);
    let text = o.section_id(StandardSection::Text);
    o.append_section_data(text, &[0; 8], 16);
    let ext = o.add_symbol(symbol("ext", 0, SymbolScope::Unknown, SymbolSection::Undefined));
    let flags = RelocationFlags::Elf { r_type: 12 };
    o.add_relocation(text, Relocation { offset: 2, symbol: ext, addend: 0, flags }).unwrap();
    let e = parse_object(&o.write().unwrap()).unwrap_err();
    assert_eq!(
        e.message(),
        "reloc at 0x2 targeting ext: unmapped reloc Elf { r_type: 12 } size 16"
    );

    let mut o = object(BinaryFormat::MachO, Architecture::X86_64);
    let text = o.section_id(StandardSection::Text);
    o.append_section_data(text, &[0; 8], 16);
    let section = o.section_symbol(text);
    let flags = RelocationFlags::MachO { r_type: 0, r_pcrel: false, r_length: 3 };
    o.add_relocation(text, Relocation { offset: 0, symbol: section, addend: 0, flags }).unwrap();
    let e = parse_object(&o.write().unwrap()).unwrap_err();
    assert_eq!(e.message(), "unsupported relocation target Section(SectionIndex(1))");
}

#[test]
fn images_are_refused() {
    let mut image = b"MZ".to_vec();
    assert_eq!(parse_object(&image).unwrap_err(), OracleError::Image);
    image.resize(0x400, 0);
    let e = parse_object(&image).unwrap_err();
    assert_eq!(e, OracleError::Image);
    assert_eq!(e.message(), "emitted bytes are an image, not an object");
    assert!(matches!(parse_object(b"M"), Err(OracleError::Parse(_))));
}

fn raw(kind: RawKind, size: u8, flags: RawFlags) -> RawReloc {
    RawReloc {
        offset: 4,
        target: Some(0),
        target_text: "Symbol(SymbolIndex(0))".to_string(),
        kind,
        size,
        addend: -4,
        flags,
        flags_text: "Elf { r_type: 12 }".to_string(),
    }
}

#[test]
fn relocation_kinds() {
    let none = RawFlags::Other;
    assert_eq!(map_reloc(false, &raw(RawKind::Absolute, 64, none)), Ok(RelocKind::Abs64));
    assert_eq!(map_reloc(false, &raw(RawKind::Relative, 32, none)), Ok(RelocKind::BranchRel32));
    assert_eq!(map_reloc(false, &raw(RawKind::PltRelative, 32, none)), Ok(RelocKind::BranchRel32));
    assert_eq!(
        map_reloc(false, &raw(RawKind::Absolute, 32, none)),
        Err(Unmapped::Other { size: 32 })
    );
    let coff = |typ| map_reloc(false, &raw(RawKind::Other, 0, RawFlags::Coff { typ }));
    assert_eq!(coff(1), Ok(RelocKind::Abs64));
    for typ in 4..=9 {
        assert_eq!(coff(typ), Ok(RelocKind::BranchRel32));
    }
    assert_eq!(coff(3), Err(Unmapped::Coff { typ: 3 }));
    assert_eq!(coff(10), Err(Unmapped::Coff { typ: 10 }));
    let mach = |arm, r_type, r_length| {
        map_reloc(arm, &raw(RawKind::Relative, 32, RawFlags::MachO { r_type, r_length }))
    };
    assert_eq!(mach(true, 2, 2), Ok(RelocKind::Branch26));
    assert_eq!(mach(true, 3, 2), Ok(RelocKind::AdrpPage21));
    assert_eq!(mach(true, 4, 2), Ok(RelocKind::AddPageOff12));
    assert_eq!(mach(true, 0, 3), Ok(RelocKind::Abs64));
    assert_eq!(mach(true, 0, 2), Err(Unmapped::MachO { r_type: 0 }));
    // SUBTRACTOR, GOT loads and ADDEND are refused.
    for r_type in [1, 5, 6, 10] {
        assert_eq!(mach(true, r_type, 2), Err(Unmapped::MachO { r_type }));
    }
    // On another machine the types mean something else.
    assert_eq!(mach(false, 2, 2), Ok(RelocKind::BranchRel32));
}

fn sym(name: Option<&str>, section: Option<usize>, address: u64) -> RawSymbol {
    RawSymbol {
        section_symbol: false,
        definition: section.is_some(),
        global: true,
        undefined: section.is_none(),
        section,
        address,
        name: name.map(|n| n.to_string()),
    }
}

#[test]
fn modules_from_plain_facts() {
    let text = RawSection { index: 3, address: 0x100, text: true, data: Some(vec![1, 2, 3]) };
    let syms = vec![
        sym(Some("a"), Some(3), 0x102),
        sym(Some("below"), Some(3), 0x50),
        sym(Some("far"), Some(4), 0x102),
        sym(Some(""), Some(3), 0x101),
        RawSymbol { section_symbol: true, ..sym(None, Some(3), 0x100) },
        RawSymbol { global: false, ..sym(None, Some(3), 0x100) },
        RawSymbol { definition: false, ..sym(None, Some(3), 0x100) },
    ];
    let relocs = vec![raw(RawKind::Absolute, 64, RawFlags::Other)];
    let good = vec![Some(sym(Some("x"), None, 0))];
    let m = build_module(&text, &syms, &relocs, &good, false).unwrap();
    assert_eq!(m.code, vec![1, 2, 3]);
    assert_eq!(m.symbols.len(), 2);
    assert_eq!(m.symbols.get("a"), Some(&2));
    assert_eq!(m.symbols.get("below"), Some(&0));
    assert_eq!((m.relocs[0].size, m.relocs[0].addend), (8, -4));
    assert_eq!(m.externs, vec!["x".to_string()]);
    assert!(!m.fields_fit());
    // A defined target is no extern, and a width below a byte counts as one.
    let narrow = vec![raw(RawKind::Other, 4, RawFlags::Coff { typ: 4 })];
    let here = vec![Some(sym(Some("a"), Some(3), 0x102))];
    let m = build_module(&text, &syms, &narrow, &here, false).unwrap();
    assert_eq!(m.externs, Vec::<String>::new());
    assert_eq!(m.relocs[0].size, 1);
}

#[test]
fn what_modules_cannot_be_built_from() {
    let text = RawSection { index: 1, address: 0, text: true, data: Some(vec![0; 16]) };
    let no_data = RawSection { data: None, ..text.clone() };
    let none: Vec<RawSymbol> = Vec::new();
    let err = |t: &RawSection, s: &Vec<RawSymbol>, r: RawReloc, g: Option<RawSymbol>| {
        build_module(t, s, &vec![r], &vec![g], false).unwrap_err()
    };
    let r = || raw(RawKind::Relative, 32, RawFlags::Other);
    let x = Some(sym(Some("x"), None, 0));
    assert_eq!(err(&no_data, &none, r(), x.clone()), OracleError::TextData);
    let nameless = vec![sym(None, Some(1), 0)];
    assert_eq!(err(&text, &nameless, r(), x.clone()), OracleError::SymbolName);
    let absolute = RawReloc { target: None, target_text: "Absolute".to_string(), ..r() };
    let bad = err(&text, &none, absolute, None);
    assert_eq!(bad, OracleError::BadTarget { what: "Absolute".to_string() });
    assert_eq!(bad.message(), "unsupported relocation target Absolute");
    assert_eq!(err(&text, &none, r(), None), OracleError::TargetSymbol);
    assert_eq!(err(&text, &none, r(), Some(sym(None, None, 0))), OracleError::TargetName);
    let e = err(&text, &none, raw(RawKind::Relative, 16, RawFlags::Other), x);
    assert_eq!(e.message(), "reloc at 0x4 targeting x: unmapped reloc Elf { r_type: 12 } size 16");
    assert_eq!(OracleError::TextData.message(), "read .text data");
    assert_eq!(OracleError::SymbolName.message(), "symbol name not UTF-8");
    assert_eq!(OracleError::TargetSymbol.message(), "reloc target symbol");
    assert_eq!(OracleError::TargetName.message(), "reloc symbol name");
}

#[test]
fn assembly_texts() {
    assert_eq!(ensure_intel("ret"), ".intel_syntax noprefix\nret\n");
    assert_eq!(ensure_intel("ret\n"), ".intel_syntax noprefix\nret\n");
    assert_eq!(ensure_intel("\t.intel_syntax noprefix\nret"), "\t.intel_syntax noprefix\nret\n");
    assert_eq!(ensure_intel(""), ".intel_syntax noprefix\n");
    let once = ensure_intel("nop\nret");
    assert_eq!(ensure_intel(&once), once);
    assert_eq!(ensure_trailing_newline("ret"), "ret\n");
    assert_eq!(ensure_trailing_newline(""), "\n");
    assert_eq!(assembly_for("aarch64-apple-darwin", "ret"), "ret\n");
    assert_eq!(assembly_for("x86_64-pc-windows-msvc", "ret"), ".intel_syntax noprefix\nret\n");
}

#[test]
fn triples_and_features() {
    assert!(triple_is_x86("x86_64-unknown-linux-gnu"));
    assert!(triple_is_x86("i686-pc-windows-msvc"));
    assert!(!triple_is_x86("aarch64-apple-darwin"));
    assert!(!triple_is_x86(""));
    assert_eq!(cpu_features("x86_64-x"), "+avx512f,+avx512vl,+avx512dq,+avx512bw");
    assert_eq!(cpu_features("aarch64-x"), "+lse,+crc,+fullfp16,+rcpc,+rdm,+dotprod");
    assert_eq!(cpu_features("riscv64"), "");
    let host = || Some("host-triple".to_string());
    assert_eq!(LlvmMcEncoder::new().resolve_triple(host()).unwrap(), "host-triple");
    assert_eq!(LlvmMcEncoder::default().resolve_triple(None), Err(OracleError::NoHostTriple));
    assert_eq!(LlvmMcEncoder::x86_64().resolve_triple(None).unwrap(), "x86_64-pc-windows-msvc");
    assert_eq!(
        LlvmMcEncoder::aarch64_macos().resolve_triple(host()).unwrap(),
        "aarch64-apple-darwin"
    );
    let bad = LlvmMcEncoder::with_triple("a\0b".to_string());
    assert_eq!(bad.resolve_triple(host()), Err(OracleError::TripleNul));
    assert_eq!(OracleError::TripleNul.message(), "triple has interior NUL");
    assert_eq!(OracleError::NoHostTriple.message(), "LLVMGetDefaultTargetTriple returned null");
}

#[test]
fn emissions() {
    assert_eq!(emitted(&vec![], 0, Some(vec![1, 2]), "m".to_string()), Ok(vec![1, 2]));
    let failed = emitted(&vec![], 1, Some(vec![1]), "m".to_string());
    assert_eq!(failed, Err(OracleError::EmitFailed { message: "m".to_string() }));
    assert!(emitted(&vec![], 0, None, String::new()).is_err());
    assert_eq!(
        failed.unwrap_err().message(),
        "LLVMTargetMachineEmitToMemoryBuffer failed: m"
    );
    let two = vec!["one".to_string(), "two".to_string()];
    let r = emitted(&two, 1, None, String::new());
    assert_eq!(r, Err(OracleError::Rejected { diagnostics: "one; two".to_string() }));
}
