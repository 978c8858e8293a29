//! The LLVM-MC oracle: machine code for assembly text, by way of a relocatable object.
//!
//! The host hands the text to LLVM-MC and gets an object file back. [`parse_object`] turns the
//! object into an [`EncodedModule`]: the bytes of the text section, the global symbols, and a
//! relocation table. The `object` crate reads COFF, ELF and Mach-O alike; the one part that
//! depends on the machine is [`map_reloc`].

use object::RelocationFlags::{Coff, MachO};
use object::RelocationKind::{Absolute, PltRelative, Relative};
use object::RelocationTarget::Symbol;
use object::{File, Object, ObjectSection, ObjectSymbol, SectionIndex};
use vstd::prelude::*;
use vstd::string::*;

use crate::backend::{EncodedModule, Reloc, RelocKind, RelocView};
use crate::names::{precedes, NameMap};
use crate::text::{
    contains, decimal, ends_with_newline, has_nul, has_part, hex, hex_digits, holds_nul, join,
    joined, part_at, push_decimal, push_hex, push_hex_digits, starts_with,
};

verus! {

/// The error type of the `object` crate.
#[verifier::external_type_specification]
#[verifier::external_body]
pub struct ExObjectError(object::Error);

/// A section of an object file.
#[derive(Debug, Clone, PartialEq, Eq)]
pub struct RawSection {
    pub index: usize,
    pub address: u64,
    /// It holds executable code.
    pub text: bool,
    /// Its bytes, where they can be read.
    pub data: Option<Vec<u8>>,
}

/// A symbol of an object file.
#[derive(Debug, Clone, PartialEq, Eq)]
pub struct RawSymbol {
    /// It stands for a section.
    pub section_symbol: bool,
    pub definition: bool,
    pub global: bool,
    pub undefined: bool,
    /// The index of the section that it is defined in.
    pub section: Option<usize>,
    pub address: u64,
    /// Its name, where that is UTF-8.
    pub name: Option<String>,
}

/// How the value of a relocation is computed.
#[derive(Debug, Clone, Copy, PartialEq, Eq, Structural)]
pub enum RawKind {
    Absolute,
    Relative,
    PltRelative,
    Other,
}

/// What the file format itself says of a relocation.
#[derive(Debug, Clone, Copy, PartialEq, Eq, Structural)]
pub enum RawFlags {
    Coff { typ: u16 },
    MachO { r_type: u8, r_length: u8 },
    Other,
}

/// A relocation of an object file.
#[derive(Debug, Clone, PartialEq, Eq)]
pub struct RawReloc {
    pub offset: u64,
    /// The index of its symbol; none where it does not refer to a symbol.
    pub target: Option<usize>,
    /// How the `object` crate shows what it refers to.
    pub target_text: String,
    pub kind: RawKind,
    /// Width of the field in bits.
    pub size: u8,
    pub addend: i64,
    pub flags: RawFlags,
    /// How the `object` crate shows the flags.
    pub flags_text: String,
}

/// A [`RawReloc`], with its texts as characters.
pub struct RelocEntry {
    pub offset: u64,
    pub target: Option<usize>,
    pub target_text: Seq<char>,
    pub kind: RawKind,
    pub size: u8,
    pub addend: i64,
    pub flags: RawFlags,
    pub flags_text: Seq<char>,
}

pub struct SectionView {
    pub index: usize,
    pub address: u64,
    pub text: bool,
    pub data: Option<Seq<u8>>,
}

pub struct SymbolView {
    pub section_symbol: bool,
    pub definition: bool,
    pub global: bool,
    pub undefined: bool,
    pub section: Option<usize>,
    pub address: u64,
    pub name: Option<Seq<char>>,
}

impl RawSection {
    pub open spec fn view(&self) -> SectionView {
        SectionView {
            index: self.index,
            address: self.address,
            text: self.text,
            data: match self.data {
                Some(d) => Some(d@),
                None => None,
            },
        }
    }
}

impl RawSymbol {
    pub open spec fn view(&self) -> SymbolView {
        SymbolView {
            section_symbol: self.section_symbol,
            definition: self.definition,
            global: self.global,
            undefined: self.undefined,
            section: self.section,
            address: self.address,
            name: match self.name {
                Some(n) => Some(n@),
                None => None,
            },
        }
    }
}

impl RawReloc {
    pub open spec fn view(&self) -> RelocEntry {
        RelocEntry {
            offset: self.offset,
            target: self.target,
            target_text: self.target_text@,
            kind: self.kind,
            size: self.size,
            addend: self.addend,
            flags: self.flags,
            flags_text: self.flags_text@,
        }
    }
}

pub open spec fn reloc_entries(v: Seq<RawReloc>) -> Seq<RelocEntry> {
    v.map_values(|r: RawReloc| r@)
}

/// A file that starts as an executable image does, where an object file is wanted.
pub open spec fn is_image(bytes: Seq<u8>) -> bool {
    bytes.len() >= 2 && bytes[0] == 0x4D && bytes[1] == 0x5A
}

pub open spec fn section_views(v: Seq<RawSection>) -> Seq<SectionView> {
    v.map_values(|s: RawSection| s@)
}

pub open spec fn symbol_views(v: Seq<RawSymbol>) -> Seq<SymbolView> {
    v.map_values(|s: RawSymbol| s@)
}

/// What `object::Object::section_by_name` finds in the object file `bytes`; an error where they
/// are no object file.
pub uninterp spec fn named_section(bytes: Seq<u8>, name: Seq<char>) -> Result<
    Option<SectionView>,
    (),
>;

/// What `object::Object::sections` lists.
pub uninterp spec fn listed_sections(bytes: Seq<u8>) -> Result<Seq<SectionView>, ()>;

/// What `object::Object::symbols` lists.
pub uninterp spec fn listed_symbols(bytes: Seq<u8>) -> Result<Seq<SymbolView>, ()>;

/// What `object::Object::symbol_by_index` finds.
pub uninterp spec fn indexed_symbol(bytes: Seq<u8>, index: usize) -> Result<SymbolView, ()>;

/// What `object::ObjectSection::relocations` lists for the section with this index.
pub uninterp spec fn listed_relocs(bytes: Seq<u8>, section: usize) -> Result<
    Seq<RelocEntry>,
    (),
>;

/// Whether `object::Object::architecture` says that the file is for AArch64.
pub uninterp spec fn says_aarch64(bytes: Seq<u8>) -> Result<bool, ()>;

/// `object::Object::section_by_name` on the parsed file: the section is that of the name
/// [`named_section`]. Which error comes where the bytes are no object file is left open.
#[verifier::external_body]
fn section_by_name(bytes: &[u8], name: &str) -> (r: Result<Option<RawSection>, object::Error>)
    ensures
        match r {
            Ok(Some(s)) => named_section(bytes@, name@) == Ok::<Option<SectionView>, ()>(Some(s@)),
            Ok(None) => named_section(bytes@, name@) == Ok::<Option<SectionView>, ()>(None),
            Err(_) => named_section(bytes@, name@) is Err,
        },
{
    let file = File::parse(bytes)?;
    Ok(
        file.section_by_name(name).map(
            |s| RawSection {
                index: s.index().0,
                address: s.address(),
                text: s.kind() == object::SectionKind::Text,
                data: s.data().ok().map(|d| d.to_vec()),
            },
        ),
    )
}

/// `object::Object::sections` on the parsed file: the list is [`listed_sections`]. Which error
/// comes where the bytes are no object file is left open.
#[verifier::external_body]
fn sections(bytes: &[u8]) -> (r: Result<Vec<RawSection>, object::Error>)
    ensures
        match r {
            Ok(v) => listed_sections(bytes@) == Ok::<Seq<SectionView>, ()>(section_views(v@)),
            Err(_) => listed_sections(bytes@) is Err,
        },
{
    let file = File::parse(bytes)?;
    let list = file.sections().map(
        |s| RawSection {
            index: s.index().0,
            address: s.address(),
            text: s.kind() == object::SectionKind::Text,
            data: s.data().ok().map(|d| d.to_vec()),
        },
    );
    Ok(list.collect())
}

/// `object::Object::symbols` on the parsed file: the list is [`listed_symbols`]. Which error
/// comes where the bytes are no object file is left open. Images are left out: the address of a
/// symbol there is a sum that may not be a `u64`.
#[verifier::external_body]
fn symbols(bytes: &[u8]) -> (r: Result<Vec<RawSymbol>, object::Error>)
    requires
        !is_image(bytes@),
    ensures
        match r {
            Ok(v) => listed_symbols(bytes@) == Ok::<Seq<SymbolView>, ()>(symbol_views(v@)),
            Err(_) => listed_symbols(bytes@) is Err,
        },
{
    let file = File::parse(bytes)?;
    let list = file.symbols().map(
        |s| RawSymbol {
            section_symbol: s.kind() == object::SymbolKind::Section,
            definition: s.is_definition(),
            global: s.is_global(),
            undefined: s.is_undefined(),
            section: s.section_index().map(|i| i.0),
            address: s.address(),
            name: s.name().ok().map(|n| n.to_string()),
        },
    );
    Ok(list.collect())
}

/// `object::Object::symbol_by_index` on the parsed file: the symbol is [`indexed_symbol`]. Which
/// error comes where there is none is left open. Images are left out, as for [`symbols`].
#[verifier::external_body]
fn symbol_by_index(bytes: &[u8], index: usize) -> (r: Result<RawSymbol, object::Error>)
    requires
        !is_image(bytes@),
    ensures
        match r {
            Ok(s) => indexed_symbol(bytes@, index) == Ok::<SymbolView, ()>(s@),
            Err(_) => indexed_symbol(bytes@, index) is Err,
        },
{
    let file = File::parse(bytes)?;
    let s = file.symbol_by_index(object::SymbolIndex(index))?;
    Ok(
        RawSymbol {
            section_symbol: s.kind() == object::SymbolKind::Section,
            definition: s.is_definition(),
            global: s.is_global(),
            undefined: s.is_undefined(),
            section: s.section_index().map(|i| i.0),
            address: s.address(),
            name: s.name().ok().map(|n| n.to_string()),
        },
    )
}

/// `object::ObjectSection::relocations` on the section with this index of the parsed file: the
/// list is [`listed_relocs`], with the texts that `{:?}` writes for a target and for flags. Which
/// error comes where there is no such section is left open.
#[verifier::external_body]
fn relocations(bytes: &[u8], section: usize) -> (r: Result<Vec<RawReloc>, object::Error>)
    ensures
        match r {
            Ok(v) => listed_relocs(bytes@, section) == Ok::<Seq<RelocEntry>, ()>(reloc_entries(v@)),
            Err(_) => listed_relocs(bytes@, section) is Err,
        },
{
    let file = File::parse(bytes)?;
    let found = file.section_by_index(SectionIndex(section))?;
    Ok(found.relocations().map(|(offset, r)| RawReloc {
        offset,
        target: match r.target() { Symbol(i) => Some(i.0), _ => None },
        target_text: format!("{:?}", r.target()),
        kind: match r.kind() {
            Absolute => RawKind::Absolute, Relative => RawKind::Relative,
            PltRelative => RawKind::PltRelative, _ => RawKind::Other },
        size: r.size(), addend: r.addend(), flags: match r.flags() {
            Coff { typ } => RawFlags::Coff { typ },
            MachO { r_type, r_length, .. } => RawFlags::MachO { r_type, r_length },
            _ => RawFlags::Other },
        flags_text: format!("{:?}", r.flags()) }).collect())
}

/// `object::Object::architecture` of the parsed file: the answer is [`says_aarch64`]. Which error
/// comes where the bytes are no object file is left open.
#[verifier::external_body]
fn is_aarch64(bytes: &[u8]) -> (r: Result<bool, object::Error>)
    ensures
        match r {
            Ok(b) => says_aarch64(bytes@) == Ok::<bool, ()>(b),
            Err(_) => says_aarch64(bytes@) is Err,
        },
{
    let file = File::parse(bytes)?;
    Ok(file.architecture() == object::Architecture::Aarch64)
}

/// A relocation that has no [`RelocKind`], by what is told of it.
#[derive(Debug, Clone, Copy, PartialEq, Eq, Structural)]
pub enum Unmapped {
    Coff { typ: u16 },
    MachO { r_type: u8 },
    Other { size: u8 },
}

/// Why there is no module for an assembly text.
#[derive(Debug, PartialEq, Eq)]
pub enum OracleError {
    /// The emitted bytes are no object file.
    Parse(object::Error),
    /// The emitted bytes are an executable image, not an object file.
    Image,
    /// The object has no text section.
    NoText,
    /// The text section cannot be read.
    TextData,
    /// The name of an exported symbol is not UTF-8.
    SymbolName,
    /// A relocation does not refer to a symbol.
    BadTarget { what: String },
    /// A relocation refers to a symbol that is not there.
    TargetSymbol,
    /// The name of a relocation's symbol is not UTF-8.
    TargetName,
    /// A relocation of no known kind.
    UnmappedReloc { at: u64, target: String, flags: String, what: Unmapped },
    /// The triple holds a NUL.
    TripleNul,
    /// LLVM has no default triple.
    NoHostTriple,
    /// LLVM-MC reported errors.
    Rejected { diagnostics: String },
    /// LLVM-MC emitted nothing.
    EmitFailed { message: String },
}

/// An [`OracleError`], with its texts as characters.
pub enum Fault {
    Parse,
    Image,
    NoText,
    TextData,
    SymbolName,
    BadTarget { what: Seq<char> },
    TargetSymbol,
    TargetName,
    UnmappedReloc { at: u64, target: Seq<char>, flags: Seq<char>, what: Unmapped },
    TripleNul,
    NoHostTriple,
    Rejected { diagnostics: Seq<char> },
    EmitFailed { message: Seq<char> },
}

impl OracleError {
    pub open spec fn view(&self) -> Fault {
        match *self {
            OracleError::Parse(_) => Fault::Parse,
            OracleError::Image => Fault::Image,
            OracleError::NoText => Fault::NoText,
            OracleError::TextData => Fault::TextData,
            OracleError::SymbolName => Fault::SymbolName,
            OracleError::BadTarget { what } => Fault::BadTarget { what: what@ },
            OracleError::TargetSymbol => Fault::TargetSymbol,
            OracleError::TargetName => Fault::TargetName,
            OracleError::UnmappedReloc { at, target, flags, what } => Fault::UnmappedReloc {
                at,
                target: target@,
                flags: flags@,
                what,
            },
            OracleError::TripleNul => Fault::TripleNul,
            OracleError::NoHostTriple => Fault::NoHostTriple,
            OracleError::Rejected { diagnostics } => Fault::Rejected { diagnostics: diagnostics@ },
            OracleError::EmitFailed { message } => Fault::EmitFailed { message: message@ },
        }
    }
}

impl Unmapped {
    /// What there is to say, with the flags of the relocation as they are shown.
    pub open spec fn text(self, flags: Seq<char>) -> Seq<char> {
        match self {
            Unmapped::Coff { typ } => "unmapped COFF reloc type 0x"@ + hex_digits(
                typ as nat,
                4,
                false,
            ),
            Unmapped::MachO { r_type } => "unmapped Mach-O reloc type "@ + decimal(r_type as nat),
            Unmapped::Other { size } => "unmapped reloc "@ + flags + " size "@ + decimal(
                size as nat,
            ),
        }
    }

    fn push_to(&self, flags: &str, out: &mut String)
        ensures
            final(out)@ == old(out)@ + self.text(flags@),
    {
        match self {
            Unmapped::Coff { typ } => {
                out.append("unmapped COFF reloc type 0x");
                push_hex_digits(out, *typ as u64, 4, false);
            },
            Unmapped::MachO { r_type } => {
                out.append("unmapped Mach-O reloc type ");
                push_decimal(out, *r_type as u64);
            },
            Unmapped::Other { size } => {
                out.append("unmapped reloc ");
                out.append(flags);
                out.append(" size ");
                push_decimal(out, *size as u64);
            },
        }
        assert(out@ =~= old(out)@ + self.text(flags@));
    }
}

impl Fault {
    /// What the error says.
    pub open spec fn text(self) -> Seq<char> {
        match self {
            Fault::Parse => "parse emitted object"@,
            Fault::Image => "emitted bytes are an image, not an object"@,
            Fault::NoText => "emitted object has no .text section"@,
            Fault::TextData => "read .text data"@,
            Fault::SymbolName => "symbol name not UTF-8"@,
            Fault::BadTarget { what } => "unsupported relocation target "@ + what,
            Fault::TargetSymbol => "reloc target symbol"@,
            Fault::TargetName => "reloc symbol name"@,
            Fault::UnmappedReloc { at, target, flags, what } => "reloc at 0x"@ + hex(at as nat)
                + " targeting "@ + target + ": "@ + what.text(flags),
            Fault::TripleNul => "triple has interior NUL"@,
            Fault::NoHostTriple => "LLVMGetDefaultTargetTriple returned null"@,
            Fault::Rejected { diagnostics } => "LLVM-MC rejected asm: "@ + diagnostics,
            Fault::EmitFailed { message } => "LLVMTargetMachineEmitToMemoryBuffer failed: "@
                + message,
        }
    }
}

impl OracleError {
    pub fn message(&self) -> (s: String)
        ensures
            s@ == self@.text(),
    {
        let mut out = String::new();
        match self {
            OracleError::Parse(_) => out.append("parse emitted object"),
            OracleError::Image => out.append("emitted bytes are an image, not an object"),
            OracleError::NoText => out.append("emitted object has no .text section"),
            OracleError::TextData => out.append("read .text data"),
            OracleError::SymbolName => out.append("symbol name not UTF-8"),
            OracleError::BadTarget { what } => {
                out.append("unsupported relocation target ");
                out.append(what.as_str());
            },
            OracleError::TargetSymbol => out.append("reloc target symbol"),
            OracleError::TargetName => out.append("reloc symbol name"),
            OracleError::UnmappedReloc { at, target, flags, what } => {
                out.append("reloc at 0x");
                push_hex(&mut out, *at);
                out.append(" targeting ");
                out.append(target.as_str());
                out.append(": ");
                what.push_to(flags.as_str(), &mut out);
            },
            OracleError::TripleNul => out.append("triple has interior NUL"),
            OracleError::NoHostTriple => out.append("LLVMGetDefaultTargetTriple returned null"),
            OracleError::Rejected { diagnostics } => {
                out.append("LLVM-MC rejected asm: ");
                out.append(diagnostics.as_str());
            },
            OracleError::EmitFailed { message } => {
                out.append("LLVMTargetMachineEmitToMemoryBuffer failed: ");
                out.append(message.as_str());
            },
        }
        assert(out@ =~= self@.text());
        out
    }
}

pub const ARM64_RELOC_UNSIGNED: u8 = 0;

pub const ARM64_RELOC_BRANCH26: u8 = 2;

pub const ARM64_RELOC_PAGE21: u8 = 3;

pub const ARM64_RELOC_PAGEOFF12: u8 = 4;

pub const IMAGE_REL_AMD64_ADDR64: u16 = 1;

/// `IMAGE_REL_AMD64_REL32`, the first of six in a row.
pub const IMAGE_REL_AMD64_REL32: u16 = 4;

pub const IMAGE_REL_AMD64_REL32_5: u16 = 9;

/// The kind of a relocation, in a file for AArch64 or not. Mach-O types of AArch64 come first:
/// branches, page addresses, page offsets, and eight-byte pointers. Branch and RIP-relative
/// fields of x86-64 have one relocation type, so both are [`RelocKind::BranchRel32`].
pub open spec fn reloc_kind(arm: bool, r: RelocEntry) -> Result<RelocKind, Unmapped> {
    match r.flags {
        RawFlags::MachO { r_type, r_length } if arm => if r_type == ARM64_RELOC_BRANCH26 {
            Ok(RelocKind::Branch26)
        } else if r_type == ARM64_RELOC_PAGE21 {
            Ok(RelocKind::AdrpPage21)
        } else if r_type == ARM64_RELOC_PAGEOFF12 {
            Ok(RelocKind::AddPageOff12)
        } else if r_type == ARM64_RELOC_UNSIGNED && r_length == 3 {
            Ok(RelocKind::Abs64)
        } else {
            Err(Unmapped::MachO { r_type })
        },
        flags => if r.kind == RawKind::Absolute && r.size == 64 {
            Ok(RelocKind::Abs64)
        } else if (r.kind == RawKind::Relative || r.kind == RawKind::PltRelative) && r.size == 32 {
            Ok(RelocKind::BranchRel32)
        } else {
            match flags {
                RawFlags::Coff { typ } => if typ == IMAGE_REL_AMD64_ADDR64 {
                    Ok(RelocKind::Abs64)
                } else if IMAGE_REL_AMD64_REL32 <= typ <= IMAGE_REL_AMD64_REL32_5 {
                    Ok(RelocKind::BranchRel32)
                } else {
                    Err(Unmapped::Coff { typ })
                },
                _ => Err(Unmapped::Other { size: r.size }),
            }
        },
    }
}

/// The kind of a relocation.
pub fn map_reloc(arm: bool, r: &RawReloc) -> (k: Result<RelocKind, Unmapped>)
    ensures
        k == reloc_kind(arm, r@),
{
    if let RawFlags::MachO { r_type, r_length } = r.flags {
        if arm {
            return match r_type {
                ARM64_RELOC_BRANCH26 => Ok(RelocKind::Branch26),
                ARM64_RELOC_PAGE21 => Ok(RelocKind::AdrpPage21),
                ARM64_RELOC_PAGEOFF12 => Ok(RelocKind::AddPageOff12),
                _ => if r_type == ARM64_RELOC_UNSIGNED && r_length == 3 {
                    Ok(RelocKind::Abs64)
                } else {
                    Err(Unmapped::MachO { r_type })
                },
            };
        }
    }
    match (r.kind, r.size) {
        (RawKind::Absolute, 64) => {
            return Ok(RelocKind::Abs64);
        },
        (RawKind::Relative, 32) | (RawKind::PltRelative, 32) => {
            return Ok(RelocKind::BranchRel32);
        },
        _ => {},
    }
    // The file format's own type, where the kind says nothing.
    match r.flags {
        RawFlags::Coff { typ } => if typ == IMAGE_REL_AMD64_ADDR64 {
            Ok(RelocKind::Abs64)
        } else if IMAGE_REL_AMD64_REL32 <= typ && typ <= IMAGE_REL_AMD64_REL32_5 {
            Ok(RelocKind::BranchRel32)
        } else {
            Err(Unmapped::Coff { typ })
        },
        _ => Err(Unmapped::Other { size: r.size }),
    }
}

/// A global symbol that is defined in the section with index `text`.
pub open spec fn is_export(s: SymbolView, text: usize) -> bool {
    !s.section_symbol && s.definition && s.global && s.section == Some(text)
}

/// The distance of a symbol from the start of its section.
pub open spec fn symbol_offset(s: SymbolView, base: u64) -> usize {
    if s.address < base {
        0
    } else {
        (s.address - base) as usize
    }
}

/// The exports among the first `n` symbols, with their offsets.
pub open spec fn exports(syms: Seq<SymbolView>, text: usize, base: u64, n: int) -> Result<
    Map<Seq<char>, usize>,
    Fault,
>
    decreases n,
{
    if n <= 0 {
        Ok(Map::empty())
    } else {
        match exports(syms, text, base, n - 1) {
            Err(e) => Err(e),
            Ok(map) => {
                let s = syms[n - 1];
                if !is_export(s, text) {
                    Ok(map)
                } else {
                    match s.name {
                        None => Err(Fault::SymbolName),
                        Some(name) => if name.len() == 0 {
                            Ok(map)
                        } else {
                            Ok(map.insert(name, symbol_offset(s, base)))
                        },
                    }
                }
            },
        }
    }
}

/// The relocation that `r` stands for, with its symbol.
pub open spec fn lower_reloc(arm: bool, r: RelocEntry, target: Option<SymbolView>) -> Result<
    RelocView,
    Fault,
> {
    if r.target is None {
        Err(Fault::BadTarget { what: r.target_text })
    } else {
        match target {
            None => Err(Fault::TargetSymbol),
            Some(s) => match s.name {
                None => Err(Fault::TargetName),
                Some(name) => match reloc_kind(arm, r) {
                    Err(what) => Err(
                        Fault::UnmappedReloc {
                            at: r.offset,
                            target: name,
                            flags: r.flags_text,
                            what,
                        },
                    ),
                    Ok(kind) => Ok(
                        RelocView {
                            at: r.offset as usize,
                            size: if r.size / 8 == 0 {
                                1
                            } else {
                                r.size / 8
                            },
                            kind,
                            target: name,
                            addend: r.addend,
                        },
                    ),
                },
            },
        }
    }
}

/// The first `n` relocations, with the names that are referred to and not defined.
pub open spec fn lower_relocs(
    arm: bool,
    relocs: Seq<RelocEntry>,
    targets: Seq<Option<SymbolView>>,
    n: int,
) -> Result<(Seq<RelocView>, Set<Seq<char>>), Fault>
    decreases n,
{
    if n <= 0 {
        Ok((Seq::empty(), Set::empty()))
    } else {
        match lower_relocs(arm, relocs, targets, n - 1) {
            Err(e) => Err(e),
            Ok((list, open)) => match lower_reloc(arm, relocs[n - 1], targets[n - 1]) {
                Err(e) => Err(e),
                Ok(v) => Ok(
                    (
                        list.push(v),
                        if targets[n - 1].unwrap().undefined {
                            open.insert(v.target)
                        } else {
                            open
                        },
                    ),
                ),
            },
        }
    }
}

/// What a module holds.
pub struct Lowered {
    pub code: Seq<u8>,
    pub symbols: Map<Seq<char>, usize>,
    pub relocs: Seq<RelocView>,
    pub externs: Set<Seq<char>>,
}

/// The module that an object stands for: the bytes of its text section, its exports, its
/// relocations and the names they leave open.
pub open spec fn lowered(
    text: SectionView,
    syms: Seq<SymbolView>,
    relocs: Seq<RelocEntry>,
    targets: Seq<Option<SymbolView>>,
    arm: bool,
) -> Result<Lowered, Fault> {
    match text.data {
        None => Err(Fault::TextData),
        Some(code) => match exports(syms, text.index, text.address, syms.len() as int) {
            Err(e) => Err(e),
            Ok(symbols) => match lower_relocs(arm, relocs, targets, relocs.len() as int) {
                Err(e) => Err(e),
                Ok((list, open)) => Ok(Lowered { code, symbols, relocs: list, externs: open }),
            },
        },
    }
}

pub open spec fn reloc_views(v: Seq<Reloc>) -> Seq<RelocView> {
    v.map_values(|r: Reloc| r@)
}

/// `m` holds `l`. The externs stand in order, each once.
pub open spec fn holds(m: EncodedModule, l: Lowered) -> bool {
    &&& m.code@ == l.code
    &&& m.symbols.wf()
    &&& m.symbols@ == l.symbols
    &&& reloc_views(m.relocs@) == l.relocs
    &&& lists(m.externs@, l.externs)
}

/// `v` holds the names of a set, in order, each once.
pub open spec fn lists(v: Seq<String>, names: Set<Seq<char>>) -> bool {
    &&& forall|i: int, j: int|
        0 <= i < j < v.len() ==> precedes(#[trigger] v[i]@, #[trigger] v[j]@)
    &&& forall|name: Seq<char>| #[trigger]
        names.contains(name) <==> exists|i: int| 0 <= i < v.len() && (#[trigger] v[i])@ == name
}

pub open spec fn target_views(v: Seq<Option<RawSymbol>>) -> Seq<Option<SymbolView>> {
    v.map_values(
        |t: Option<RawSymbol>|
            match t {
                Some(s) => Some(s@),
                None => None,
            },
    )
}

fn export_symbols(syms: &Vec<RawSymbol>, text: usize, base: u64) -> (r: Result<
    NameMap<usize>,
    OracleError,
>)
    ensures
        match exports(symbol_views(syms@), text, base, syms@.len() as int) {
            Ok(map) => r matches Ok(m) && m.wf() && m@ == map,
            Err(e) => r matches Err(err) && err@ == e,
        },
{
    let ghost views = symbol_views(syms@);
    let mut map: NameMap<usize> = NameMap::new();
    let mut i: usize = 0;
    while i < syms.len()
        invariant
            i <= syms@.len(),
            views == symbol_views(syms@),
            map.wf(),
            exports(views, text, base, i as int) == Ok::<Map<Seq<char>, usize>, Fault>(map@),
        decreases syms@.len() - i,
    {
        let s: &RawSymbol = &syms[i];
        assert(views[i as int] == s@);
        let here = match s.section {
            Some(k) => k == text,
            None => false,
        };
        if !s.section_symbol && s.definition && s.global && here {
            match &s.name {
                Some(name) => {
                    if name.as_str().unicode_len() > 0 {
                        let off: usize = s.address.saturating_sub(base) as usize;
                        map.insert(name.clone(), off);
                    }
                },
                None => {
                    proof {
                        lemma_exports_stopped(views, text, base, i + 1, syms@.len() as int);
                    }
                    return Err(OracleError::SymbolName);
                },
            }
        }
        i += 1;
    }
    Ok(map)
}

proof fn lemma_exports_stopped(syms: Seq<SymbolView>, text: usize, base: u64, n: int, m: int)
    requires
        0 <= n <= m,
        exports(syms, text, base, n) is Err,
    ensures
        exports(syms, text, base, m) == exports(syms, text, base, n),
    decreases m,
{
    if n < m {
        lemma_exports_stopped(syms, text, base, n, m - 1);
    }
}

proof fn lemma_relocs_stopped(
    arm: bool,
    relocs: Seq<RelocEntry>,
    targets: Seq<Option<SymbolView>>,
    n: int,
    m: int,
)
    requires
        0 <= n <= m,
        lower_relocs(arm, relocs, targets, n) is Err,
    ensures
        lower_relocs(arm, relocs, targets, m) == lower_relocs(arm, relocs, targets, n),
    decreases m,
{
    if n < m {
        lemma_relocs_stopped(arm, relocs, targets, n, m - 1);
    }
}

/// The relocation that `r` stands for, with its symbol.
fn reloc_for(arm: bool, r: &RawReloc, target: &Option<RawSymbol>) -> (v: Result<Reloc, OracleError>)
    ensures
        match lower_reloc(
            arm,
            r@,
            match *target {
                Some(s) => Some(s@),
                None => None,
            },
        ) {
            Ok(w) => v matches Ok(x) && x@ == w,
            Err(e) => v matches Err(err) && err@ == e,
        },
{
    if r.target.is_none() {
        return Err(OracleError::BadTarget { what: r.target_text.clone() });
    }
    match target {
        None => Err(OracleError::TargetSymbol),
        Some(s) => match &s.name {
            None => Err(OracleError::TargetName),
            Some(name) => match map_reloc(arm, r) {
                Err(what) => Err(
                    OracleError::UnmappedReloc {
                        at: r.offset,
                        target: name.clone(),
                        flags: r.flags_text.clone(),
                        what,
                    },
                ),
                Ok(kind) => {
                    let size: u8 = if r.size / 8 == 0 {
                        1
                    } else {
                        r.size / 8
                    };
                    Ok(
                        Reloc {
                            at: r.offset as usize,
                            size,
                            kind,
                            target: name.clone(),
                            addend: r.addend,
                        },
                    )
                },
            },
        },
    }
}

/// The names of a map, in order.
fn names_in_order(map: &NameMap<bool>) -> (v: Vec<String>)
    requires
        map.wf(),
    ensures
        lists(v@, map@.dom()),
{
    let mut v: Vec<String> = Vec::new();
    let mut i: usize = 0;
    while i < map.len()
        invariant
            i <= map.entries().len(),
            v@.len() == i,
            forall|k: int| 0 <= k < i ==> #[trigger] v@[k] == map.entries()[k].0,
        decreases map.entries().len() - i,
    {
        v.push(map.name(i).clone());
        i += 1;
    }
    proof {
        assert forall|a: int, b: int| 0 <= a < b < v@.len() implies precedes(
            #[trigger] v@[a]@,
            #[trigger] v@[b]@,
        ) by {
            assert(v@[a] == map.entries()[a].0);
            assert(v@[b] == map.entries()[b].0);
        }
        assert forall|name: Seq<char>| #[trigger] map@.dom().contains(name) <==> exists|k: int|
            0 <= k < v@.len() && (#[trigger] v@[k])@ == name by {
            if map@.dom().contains(name) {
                let k = choose|k: int| crate::names::entry_is(map.entries(), name, k);
                assert(v@[k]@ == name);
            }
            if exists|k: int| 0 <= k < v@.len() && (#[trigger] v@[k])@ == name {
                let k = choose|k: int| 0 <= k < v@.len() && (#[trigger] v@[k])@ == name;
                assert(crate::names::entry_is(map.entries(), name, k));
            }
        }
    }
    v
}

/// Builds the module of an object from what it holds: its text section, its symbols, the
/// relocations of the text section and, for each, the symbol that it refers to.
pub fn build_module(
    text: &RawSection,
    syms: &Vec<RawSymbol>,
    relocs: &Vec<RawReloc>,
    targets: &Vec<Option<RawSymbol>>,
    arm: bool,
) -> (r: Result<EncodedModule, OracleError>)
    requires
        targets@.len() == relocs@.len(),
    ensures
        match lowered(
            text@,
            symbol_views(syms@),
            reloc_entries(relocs@),
            target_views(targets@),
            arm,
        ) {
            Ok(l) => r matches Ok(m) && holds(m, l),
            Err(e) => r matches Err(err) && err@ == e,
        },
{
    let code: Vec<u8> = match &text.data {
        Some(d) => d.clone(),
        None => {
            return Err(OracleError::TextData);
        },
    };
    assert(code@ =~= text.data->Some_0@);
    let symbols: NameMap<usize> = match export_symbols(syms, text.index, text.address) {
        Ok(m) => m,
        Err(e) => {
            return Err(e);
        },
    };
    let ghost views = target_views(targets@);
    let ghost entries = reloc_entries(relocs@);
    let mut list: Vec<Reloc> = Vec::new();
    let mut externs: NameMap<bool> = NameMap::new();
    assert(externs@.dom() =~= Set::<Seq<char>>::empty());
    assert(reloc_views(list@) =~= Seq::empty());
    let mut i: usize = 0;
    while i < relocs.len()
        invariant
            i <= relocs@.len(),
            targets@.len() == relocs@.len(),
            views == target_views(targets@),
            entries == reloc_entries(relocs@),
            externs.wf(),
            lower_relocs(arm, entries, views, i as int) == Ok::<
                (Seq<RelocView>, Set<Seq<char>>),
                Fault,
            >((reloc_views(list@), externs@.dom())),
            text.data is Some,
            exports(symbol_views(syms@), text.index, text.address, syms@.len() as int) is Ok,
        decreases relocs@.len() - i,
    {
        assert(entries[i as int] == relocs@[i as int]@);
        assert(views[i as int] == match targets@[i as int] {
            Some(s) => Some(s@),
            None => None,
        });
        let v = match reloc_for(arm, &relocs[i], &targets[i]) {
            Ok(v) => v,
            Err(e) => {
                proof {
                    lemma_relocs_stopped(arm, entries, views, i + 1, relocs@.len() as int);
                }
                return Err(e);
            },
        };
        let ghost before = list@;
        if let Some(s) = &targets[i] {
            if s.undefined {
                externs.insert(v.target.clone(), true);
            }
        }
        list.push(v);
        assert(reloc_views(list@) =~= reloc_views(before).push(v@));
        i += 1;
    }
    Ok(EncodedModule { code, symbols, relocs: list, externs: names_in_order(&externs) })
}

/// The first section that holds executable code.
pub open spec fn first_text(list: Seq<SectionView>) -> Option<SectionView>
    decreases list.len(),
{
    if list.len() == 0 {
        None
    } else if list[0].text {
        Some(list[0])
    } else {
        first_text(list.skip(1))
    }
}

/// The text section of an object: `.text`, or else `__text`, or else the first that holds
/// executable code.
pub open spec fn text_section(bytes: Seq<u8>) -> Result<SectionView, Fault> {
    match named_section(bytes, ".text"@) {
        Err(_) => Err(Fault::Parse),
        Ok(Some(s)) => Ok(s),
        Ok(None) => match named_section(bytes, "__text"@) {
            Err(_) => Err(Fault::Parse),
            Ok(Some(s)) => Ok(s),
            Ok(None) => match listed_sections(bytes) {
                Err(_) => Err(Fault::Parse),
                Ok(list) => match first_text(list) {
                    Some(s) => Ok(s),
                    None => Err(Fault::NoText),
                },
            },
        },
    }
}

/// The symbol that a relocation refers to, if there is one.
pub open spec fn target_of(bytes: Seq<u8>, r: RelocEntry) -> Option<SymbolView> {
    match r.target {
        None => None,
        Some(i) => match indexed_symbol(bytes, i) {
            Ok(s) => Some(s),
            Err(_) => None,
        },
    }
}

/// The module that the object file `bytes` stands for. An image stands for none.
pub open spec fn object_module(bytes: Seq<u8>) -> Result<Lowered, Fault> {
    if is_image(bytes) {
        Err(Fault::Image)
    } else {
        match text_section(bytes) {
            Err(e) => Err(e),
            Ok(text) => match (
                says_aarch64(bytes),
                listed_symbols(bytes),
                listed_relocs(bytes, text.index),
            ) {
                (Ok(arm), Ok(syms), Ok(relocs)) => lowered(
                    text,
                    syms,
                    relocs,
                    relocs.map_values(|r: RelocEntry| target_of(bytes, r)),
                    arm,
                ),
                _ => Err(Fault::Parse),
            },
        }
    }
}

fn find_text(bytes: &[u8]) -> (r: Result<RawSection, OracleError>)
    ensures
        match text_section(bytes@) {
            Ok(s) => r matches Ok(t) && t@ == s,
            Err(e) => r matches Err(err) && err@ == e,
        },
{
    match section_by_name(bytes, ".text") {
        Ok(Some(s)) => {
            return Ok(s);
        },
        Ok(None) => {},
        Err(e) => {
            return Err(OracleError::Parse(e));
        },
    }
    match section_by_name(bytes, "__text") {
        Ok(Some(s)) => {
            return Ok(s);
        },
        Ok(None) => {},
        Err(e) => {
            return Err(OracleError::Parse(e));
        },
    }
    match sections(bytes) {
        Ok(list) => match take_first_text(list) {
            Some(s) => Ok(s),
            None => Err(OracleError::NoText),
        },
        Err(e) => Err(OracleError::Parse(e)),
    }
}

#[verifier::loop_isolation(false)]
fn take_first_text(list: Vec<RawSection>) -> (r: Option<RawSection>)
    ensures
        match r {
            Some(s) => first_text(section_views(list@)) == Some(s@),
            None => first_text(section_views(list@)) is None,
        },
{
    let ghost views = section_views(list@);
    let mut rest = list;
    let mut i: usize = 0;
    assert(views.skip(0) =~= views);
    while i < rest.len()
        invariant
            i <= rest@.len(),
            views == section_views(rest@),
            first_text(views) == first_text(views.skip(i as int)),
        decreases rest@.len() - i,
    {
        assert(views.skip(i as int)[0] == views[i as int]);
        assert(views.skip(i as int).skip(1) =~= views.skip(i + 1));
        if rest[i].text {
            return Some(rest.swap_remove(i));
        }
        i += 1;
    }
    None
}

/// Parses an emitted object file. Every fact about the file is what the `object` crate says of it
/// ([`object_module`]); what is made of these facts is [`build_module`]'s.
pub fn parse_object(bytes: &[u8]) -> (r: Result<EncodedModule, OracleError>)
    ensures
        match object_module(bytes@) {
            Ok(l) => r matches Ok(m) && holds(m, l),
            Err(e) => r matches Err(err) && err@ == e,
        },
{
    if bytes.len() >= 2 && bytes[0] == 0x4D && bytes[1] == 0x5A {
        return Err(OracleError::Image);
    }
    let text: RawSection = match find_text(bytes) {
        Ok(s) => s,
        Err(e) => {
            return Err(e);
        },
    };
    let arm = match is_aarch64(bytes) {
        Ok(b) => b,
        Err(e) => {
            return Err(OracleError::Parse(e));
        },
    };
    let syms: Vec<RawSymbol> = match symbols(bytes) {
        Ok(v) => v,
        Err(e) => {
            return Err(OracleError::Parse(e));
        },
    };
    let relocs: Vec<RawReloc> = match relocations(bytes, text.index) {
        Ok(v) => v,
        Err(e) => {
            return Err(OracleError::Parse(e));
        },
    };
    let ghost entries = reloc_entries(relocs@);
    let ghost wanted = entries.map_values(|r: RelocEntry| target_of(bytes@, r));
    let mut targets: Vec<Option<RawSymbol>> = Vec::new();
    let mut i: usize = 0;
    while i < relocs.len()
        invariant
            i <= relocs@.len(),
            targets@.len() == i,
            !is_image(bytes@),
            entries == reloc_entries(relocs@),
            wanted == entries.map_values(|r: RelocEntry| target_of(bytes@, r)),
            forall|k: int| 0 <= k < i ==> #[trigger] target_views(targets@)[k] == wanted[k],
        decreases relocs@.len() - i,
    {
        let target: Option<RawSymbol> = match relocs[i].target {
            Some(index) => match symbol_by_index(bytes, index) {
                Ok(s) => Some(s),
                Err(_) => None,
            },
            None => None,
        };
        let ghost before = target_views(targets@);
        targets.push(target);
        assert(target_views(targets@) =~= before.push(
            match target {
                Some(s) => Some(s@),
                None => None,
            },
        ));
        i += 1;
    }
    assert(target_views(targets@) =~= wanted);
    build_module(&text, &syms, &relocs, &targets, arm)
}

/// `s`, with a newline behind it where there is none.
pub open spec fn ended(s: Seq<char>) -> Seq<char> {
    if s.len() > 0 && s.last() == '\n' {
        s
    } else {
        s + "\n"@
    }
}

/// `source` in Intel syntax: the directive comes first unless the text has it somewhere, and the
/// last line ends.
pub open spec fn intel_text(source: Seq<char>) -> Seq<char> {
    ended(
        if has_part(source, ".intel_syntax"@) {
            source
        } else {
            ".intel_syntax noprefix\n"@ + source
        },
    )
}

/// The directive is put in once: what has been prepared does not change again.
pub proof fn intel_text_is_stable(source: Seq<char>)
    ensures
        intel_text(intel_text(source)) == intel_text(source),
{
    let directive = ".intel_syntax"@;
    let s = if has_part(source, directive) {
        source
    } else {
        ".intel_syntax noprefix\n"@ + source
    };
    let t = ended(s);
    reveal_strlit("\n");
    reveal_strlit(".intel_syntax");
    reveal_strlit(".intel_syntax noprefix\n");
    if has_part(source, directive) {
        let i = choose|i: int| part_at(source, directive, i);
        assert(t.subrange(i, i + directive.len()) =~= directive);
        assert(part_at(t, directive, i));
    } else {
        assert(t.subrange(0, directive.len() as int) =~= directive);
        assert(part_at(t, directive, 0));
    }
}

/// Guarantees a newline at the end, so that the last line parses.
pub fn ensure_trailing_newline(source: &str) -> (s: String)
    ensures
        s@ == ended(source@),
{
    let mut s: String = source.to_owned();
    if !ends_with_newline(source) {
        s.append("\n");
    }
    s
}

/// Prepends `.intel_syntax noprefix` unless the text already selects it, and guarantees a newline
/// at the end.
pub fn ensure_intel(source: &str) -> (s: String)
    ensures
        s@ == intel_text(source@),
{
    let mut s = String::new();
    if !contains(source, ".intel_syntax") {
        s.append(".intel_syntax noprefix\n");
    }
    s.append(source);
    assert(s@ =~= if has_part(source@, ".intel_syntax"@) {
        source@
    } else {
        ".intel_syntax noprefix\n"@ + source@
    });
    ensure_trailing_newline(s.as_str())
}

/// A triple of x86: `x86_64-…`, `i686-…` and the like.
pub open spec fn is_x86_triple(t: Seq<char>) -> bool {
    ||| part_at(t, "x86"@, 0)
    ||| part_at(t, "i386"@, 0)
    ||| part_at(t, "i486"@, 0)
    ||| part_at(t, "i586"@, 0)
    ||| part_at(t, "i686"@, 0)
}

pub fn triple_is_x86(triple: &str) -> (b: bool)
    ensures
        b == is_x86_triple(triple@),
{
    starts_with(triple, "x86") || starts_with(triple, "i386") || starts_with(triple, "i486")
        || starts_with(triple, "i586") || starts_with(triple, "i686")
}

/// The text to hand to LLVM-MC: Intel syntax for x86, and for other machines the text as it is.
pub fn assembly_for(triple: &str, source: &str) -> (s: String)
    ensures
        s@ == if is_x86_triple(triple@) {
            intel_text(source@)
        } else {
            ended(source@)
        },
{
    if triple_is_x86(triple) {
        ensure_intel(source)
    } else {
        ensure_trailing_newline(source)
    }
}

/// The processor features to enable: AVX-512 on x86, the Apple Silicon baseline on AArch64.
pub fn cpu_features(triple: &str) -> (s: &'static str)
    ensures
        s@ == if is_x86_triple(triple@) {
            "+avx512f,+avx512vl,+avx512dq,+avx512bw"@
        } else if part_at(triple@, "aarch64"@, 0) || part_at(triple@, "arm64"@, 0) {
            "+lse,+crc,+fullfp16,+rcpc,+rdm,+dotprod"@
        } else {
            ""@
        },
{
    if triple_is_x86(triple) {
        "+avx512f,+avx512vl,+avx512dq,+avx512bw"
    } else if starts_with(triple, "aarch64") || starts_with(triple, "arm64") {
        "+lse,+crc,+fullfp16,+rcpc,+rdm,+dotprod"
    } else {
        ""
    }
}

/// What becomes of an emission: an error where LLVM-MC reported any, then where it failed (with
/// `message`) or gave no bytes, and else the bytes.
pub fn emitted(diagnostics: &Vec<String>, rc: i32, buffer: Option<Vec<u8>>, message: String) -> (r:
    Result<Vec<u8>, OracleError>)
    ensures
        if diagnostics@.len() > 0 {
            r matches Err(e) && e@ == (Fault::Rejected { diagnostics: joined(diagnostics@, "; "@) })
        } else {
            match buffer {
                Some(b) if rc == 0 => r == Ok::<Vec<u8>, OracleError>(b),
                _ => r == Err::<Vec<u8>, OracleError>(OracleError::EmitFailed { message }),
            }
        },
{
    if diagnostics.len() > 0 {
        return Err(OracleError::Rejected { diagnostics: join(diagnostics, "; ") });
    }
    match buffer {
        Some(b) => if rc != 0 {
            Err(OracleError::EmitFailed { message })
        } else {
            Ok(b)
        },
        None => Err(OracleError::EmitFailed { message }),
    }
}

/// LLVM-MC as an encoder, for one target triple.
#[derive(Debug, Clone)]
pub struct LlvmMcEncoder {
    /// Target triple; none for the host default.
    pub triple: Option<String>,
}

impl LlvmMcEncoder {
    /// For the host target.
    pub fn new() -> (e: LlvmMcEncoder)
        ensures
            e.triple is None,
    {
        LlvmMcEncoder { triple: None }
    }

    /// For an explicit triple, such as `"aarch64-unknown-linux-gnu"`.
    pub fn with_triple(triple: String) -> (e: LlvmMcEncoder)
        ensures
            e.triple == Some(triple),
    {
        LlvmMcEncoder { triple: Some(triple) }
    }

    /// For x86-64, whatever the host.
    pub fn x86_64() -> (e: LlvmMcEncoder)
        ensures
            e.triple matches Some(t) && t@ == "x86_64-pc-windows-msvc"@,
    {
        LlvmMcEncoder { triple: Some("x86_64-pc-windows-msvc".to_owned()) }
    }

    /// For Apple Silicon, whatever the host.
    pub fn aarch64_macos() -> (e: LlvmMcEncoder)
        ensures
            e.triple matches Some(t) && t@ == "aarch64-apple-darwin"@,
    {
        LlvmMcEncoder { triple: Some("aarch64-apple-darwin".to_owned()) }
    }

    /// The triple to use: the explicit one, or else the host's default, where LLVM gives one.
    pub fn resolve_triple(&self, host: Option<String>) -> (r: Result<String, OracleError>)
        ensures
            match self.triple {
                Some(t) => if holds_nul(t@) {
                    r == Err::<String, OracleError>(OracleError::TripleNul)
                } else {
                    r == Ok::<String, OracleError>(t)
                },
                None => match host {
                    Some(h) => r == Ok::<String, OracleError>(h),
                    None => r == Err::<String, OracleError>(OracleError::NoHostTriple),
                },
            },
    {
        match &self.triple {
            Some(t) => if has_nul(t.as_str()) {
                Err(OracleError::TripleNul)
            } else {
                Ok(t.clone())
            },
            None => match host {
                Some(h) => Ok(h),
                None => Err(OracleError::NoHostTriple),
            },
        }
    }
}

impl Default for LlvmMcEncoder {
    fn default() -> (e: LlvmMcEncoder)
        ensures
            e.triple is None,
    {
        LlvmMcEncoder::new()
    }
}

/// The symbol `s` is exported under `name`: it is a global definition in the section `text`, and
/// not the section itself.
pub open spec fn exported_as(s: SymbolView, text: usize, name: Seq<char>) -> bool {
    &&& s.global && s.definition && !s.section_symbol
    &&& s.section == Some(text)
    &&& s.name == Some(name)
    &&& name.len() > 0
}

/// The `i`th symbol is the last of the first `n` that is exported under `name`.
pub open spec fn last_export(
    syms: Seq<SymbolView>,
    text: usize,
    name: Seq<char>,
    n: int,
    i: int,
) -> bool {
    &&& 0 <= i < n
    &&& exported_as(syms[i], text, name)
    &&& forall|j: int| i < j < n ==> !exported_as(#[trigger] syms[j], text, name)
}

proof fn lemma_exports(
    syms: Seq<SymbolView>,
    text: usize,
    base: u64,
    n: int,
    map: Map<Seq<char>, usize>,
    name: Seq<char>,
)
    requires
        0 <= n <= syms.len(),
        exports(syms, text, base, n) == Ok::<Map<Seq<char>, usize>, Fault>(map),
    ensures
        map.dom().contains(name) ==> exists|i: int| #[trigger]
            last_export(syms, text, name, n, i) && map[name] == symbol_offset(syms[i], base),
        !map.dom().contains(name) ==> forall|i: int|
            0 <= i < n ==> !exported_as(#[trigger] syms[i], text, name),
    decreases n,
{
    if n > 0 {
        let before = exports(syms, text, base, n - 1)->Ok_0;
        lemma_exports(syms, text, base, n - 1, before, name);
        if exported_as(syms[n - 1], text, name) {
            assert(last_export(syms, text, name, n, n - 1));
        } else if map.dom().contains(name) {
            let m = n - 1;
            let i = choose|i: int| #[trigger]
                last_export(syms, text, name, m, i) && before[name] == symbol_offset(syms[i], base);
            assert(last_export(syms, text, name, n, i));
        }
    }
}

/// The names that a module defines are those of the global definitions in its text section, and
/// each stands for the distance of its symbol from the start of the section. Of symbols with one
/// name the last counts.
pub proof fn exports_are_the_global_definitions(
    syms: Seq<SymbolView>,
    text: usize,
    base: u64,
    name: Seq<char>,
)
    ensures
        match exports(syms, text, base, syms.len() as int) {
            Ok(map) => {
                &&& map.dom().contains(name) <==> exists|i: int|
                    0 <= i < syms.len() && exported_as(#[trigger] syms[i], text, name)
                &&& map.dom().contains(name) ==> exists|i: int| #[trigger]
                    last_export(syms, text, name, syms.len() as int, i) && map[name] == (
                    if syms[i].address >= base {
                        (syms[i].address - base) as usize
                    } else {
                        0
                    })
            },
            Err(e) => e == Fault::SymbolName && exists|i: int|
                0 <= i < syms.len() && (#[trigger] syms[i]).name is None && syms[i].global
                    && syms[i].definition && syms[i].section == Some(text),
        },
{
    let n = syms.len() as int;
    match exports(syms, text, base, n) {
        Ok(map) => {
            lemma_exports(syms, text, base, n, map, name);
            if map.dom().contains(name) {
                let i = choose|i: int| #[trigger]
                    last_export(syms, text, name, n, i) && map[name] == symbol_offset(
                        syms[i],
                        base,
                    );
                assert(exported_as(syms[i], text, name));
            }
        },
        Err(_) => lemma_exports_fail(syms, text, base, n),
    }
}

proof fn lemma_exports_fail(syms: Seq<SymbolView>, text: usize, base: u64, n: int)
    requires
        0 <= n <= syms.len(),
        exports(syms, text, base, n) is Err,
    ensures
        exports(syms, text, base, n) == Err::<Map<Seq<char>, usize>, Fault>(Fault::SymbolName),
        exists|i: int|
            0 <= i < n && (#[trigger] syms[i]).name is None && syms[i].global && syms[i].definition
                && syms[i].section == Some(text),
    decreases n,
{
    if exports(syms, text, base, n - 1) is Err {
        lemma_exports_fail(syms, text, base, n - 1);
        let i = choose|i: int|
            0 <= i < n - 1 && (#[trigger] syms[i]).name is None && syms[i].global
                && syms[i].definition && syms[i].section == Some(text);
        assert(0 <= i < n && syms[i].name is None);
    } else {
        assert(syms[n - 1].name is None);
    }
}

/// `v` is the relocation that the entry `r` asks for, to the symbol `target`.
pub open spec fn stands_for(arm: bool, r: RelocEntry, target: SymbolView, v: RelocView) -> bool {
    &&& v.at == r.offset as usize
    &&& target.name == Some(v.target)
    &&& v.addend == r.addend
    &&& v.size == (if r.size < 8 {
        1
    } else {
        r.size as int / 8
    })
    &&& reloc_kind(arm, r) == Ok::<RelocKind, Unmapped>(v.kind)
}

/// The `k`th relocation of `list` is the one that the `k`th entry asks for.
pub open spec fn is_kept(
    arm: bool,
    relocs: Seq<RelocEntry>,
    targets: Seq<Option<SymbolView>>,
    list: Seq<RelocView>,
    k: int,
) -> bool {
    relocs[k].target is Some && (targets[k] matches Some(t) && stands_for(
        arm,
        relocs[k],
        t,
        list[k],
    ))
}

/// `name` is that of an undefined symbol among the first `n` targets.
pub open spec fn left_open(targets: Seq<Option<SymbolView>>, n: int, name: Seq<char>) -> bool {
    exists|k: int| 0 <= k < n && leaves_open(#[trigger] targets[k], name)
}

/// The symbol is undefined, and has this name.
pub open spec fn leaves_open(target: Option<SymbolView>, name: Seq<char>) -> bool {
    target matches Some(s) && s.undefined && s.name == Some(name)
}

proof fn lemma_kept(
    arm: bool,
    relocs: Seq<RelocEntry>,
    targets: Seq<Option<SymbolView>>,
    n: int,
    list: Seq<RelocView>,
    open: Set<Seq<char>>,
)
    requires
        0 <= n <= relocs.len(),
        targets.len() == relocs.len(),
        lower_relocs(arm, relocs, targets, n) == Ok::<(Seq<RelocView>, Set<Seq<char>>), Fault>(
            (list, open),
        ),
    ensures
        list.len() == n,
        forall|k: int| 0 <= k < n ==> #[trigger] is_kept(arm, relocs, targets, list, k),
    decreases n,
{
    if n > 0 {
        let (init, before) = lower_relocs(arm, relocs, targets, n - 1)->Ok_0;
        lemma_kept(arm, relocs, targets, n - 1, init, before);
        assert forall|k: int| 0 <= k < n implies #[trigger] is_kept(
            arm,
            relocs,
            targets,
            list,
            k,
        ) by {
            if k < n - 1 {
                assert(is_kept(arm, relocs, targets, init, k));
                assert(list[k] == init[k]);
            }
        }
    }
}

proof fn lemma_open(
    arm: bool,
    relocs: Seq<RelocEntry>,
    targets: Seq<Option<SymbolView>>,
    n: int,
    list: Seq<RelocView>,
    open: Set<Seq<char>>,
    name: Seq<char>,
)
    requires
        0 <= n <= relocs.len(),
        targets.len() == relocs.len(),
        lower_relocs(arm, relocs, targets, n) == Ok::<(Seq<RelocView>, Set<Seq<char>>), Fault>(
            (list, open),
        ),
    ensures
        open.contains(name) == left_open(targets, n, name),
    decreases n,
{
    if n > 0 {
        let (init, before) = lower_relocs(arm, relocs, targets, n - 1)->Ok_0;
        lemma_open(arm, relocs, targets, n - 1, init, before, name);
        if left_open(targets, n - 1, name) {
            let k = choose|k: int| 0 <= k < n - 1 && leaves_open(#[trigger] targets[k], name);
            assert(0 <= k < n && leaves_open(targets[k], name));
        } else if left_open(targets, n, name) {
            let k = choose|k: int| 0 <= k < n && leaves_open(#[trigger] targets[k], name);
            assert(k == n - 1);
        }
        if open.contains(name) && !before.contains(name) {
            assert(leaves_open(targets[n - 1], name));
        }
    }
}

/// A module has the code of its text section, one relocation for each of the section's, in their
/// order and with their targets and addends, and as externs the names of the undefined symbols
/// among the targets.
pub proof fn modules_keep_every_relocation(
    text: SectionView,
    syms: Seq<SymbolView>,
    relocs: Seq<RelocEntry>,
    targets: Seq<Option<SymbolView>>,
    arm: bool,
    name: Seq<char>,
)
    requires
        targets.len() == relocs.len(),
        lowered(text, syms, relocs, targets, arm) is Ok,
    ensures
        ({
            let l = lowered(text, syms, relocs, targets, arm)->Ok_0;
            &&& text.data == Some(l.code)
            &&& exports(syms, text.index, text.address, syms.len() as int) == Ok::<
                Map<Seq<char>, usize>,
                Fault,
            >(l.symbols)
            &&& l.relocs.len() == relocs.len()
            &&& forall|k: int|
                0 <= k < relocs.len() ==> #[trigger] is_kept(arm, relocs, targets, l.relocs, k)
            &&& l.externs.contains(name) == left_open(targets, targets.len() as int, name)
        }),
{
    let l = lowered(text, syms, relocs, targets, arm)->Ok_0;
    lemma_kept(arm, relocs, targets, relocs.len() as int, l.relocs, l.externs);
    lemma_open(arm, relocs, targets, relocs.len() as int, l.relocs, l.externs, name);
}

/// The relocation types that are known, by their numbers in the file formats. Mach-O types count
/// in files for AArch64: 2 is a branch, 3 a page, 4 a place in a page, and 0 a pointer if its length
/// is 3. Elsewhere an absolute field of 64 bits is a pointer and a relative one of 32 bits a branch,
/// and so are the COFF types 1, and 4 to 9.
pub proof fn relocation_types(arm: bool, r: RelocEntry)
    ensures
        match r.flags {
            RawFlags::MachO { r_type, r_length } if arm => {
                &&& reloc_kind(arm, r) == Ok::<RelocKind, Unmapped>(RelocKind::Branch26) <==> r_type
                    == 2
                &&& reloc_kind(arm, r) == Ok::<RelocKind, Unmapped>(RelocKind::AdrpPage21) <==> r_type
                    == 3
                &&& reloc_kind(arm, r) == Ok::<RelocKind, Unmapped>(RelocKind::AddPageOff12)
                    <==> r_type == 4
                &&& reloc_kind(arm, r) == Ok::<RelocKind, Unmapped>(RelocKind::Abs64) <==> r_type
                    == 0 && r_length == 3
                &&& reloc_kind(arm, r) matches Err(e) ==> e == (Unmapped::MachO { r_type })
            },
            _ => {
                let pointer = r.kind == RawKind::Absolute && r.size == 64;
                let branch = (r.kind == RawKind::Relative || r.kind == RawKind::PltRelative)
                    && r.size == 32;
                let coff = match r.flags {
                    RawFlags::Coff { typ } => typ as int,
                    _ => -1,
                };
                &&& reloc_kind(arm, r) == Ok::<RelocKind, Unmapped>(RelocKind::Abs64) <==> pointer
                    || (!branch && coff == 1)
                &&& reloc_kind(arm, r) == Ok::<RelocKind, Unmapped>(RelocKind::BranchRel32)
                    <==> branch || (!pointer && 4 <= coff <= 9)
                &&& reloc_kind(arm, r) matches Ok(k) ==> k == RelocKind::Abs64 || k
                    == RelocKind::BranchRel32
            },
        },
{
}

/// The text section that is taken where none has the usual name is the first that holds code.
pub proof fn first_text_is_the_first(list: Seq<SectionView>)
    ensures
        match first_text(list) {
            Some(s) => exists|i: int|
                0 <= i < list.len() && (#[trigger] list[i]) == s && s.text && forall|j: int|
                    0 <= j < i ==> !(#[trigger] list[j]).text,
            None => forall|i: int| 0 <= i < list.len() ==> !(#[trigger] list[i]).text,
        },
    decreases list.len(),
{
    if list.len() > 0 {
        if list[0].text {
            assert(list[0] == first_text(list)->Some_0);
        } else {
            let rest = list.skip(1);
            first_text_is_the_first(rest);
            if let Some(s) = first_text(list) {
                let i = choose|i: int|
                    0 <= i < rest.len() && (#[trigger] rest[i]) == s && s.text && forall|j: int|
                        0 <= j < i ==> !(#[trigger] rest[j]).text;
                assert(list[i + 1] == s);
                assert forall|j: int| 0 <= j < i + 1 implies !(#[trigger] list[j]).text by {
                    if j > 0 {
                        assert(rest[j - 1] == list[j]);
                    }
                }
            } else {
                assert forall|i: int| 0 <= i < list.len() implies !(#[trigger] list[i]).text by {
                    if i > 0 {
                        assert(rest[i - 1] == list[i]);
                    }
                }
            }
        }
    }
}

/// A section named `.text` is the text section, and else one named `__text`; only where there is
/// neither does another count.
pub proof fn named_text_comes_first(bytes: Seq<u8>, s: SectionView)
    ensures
        named_section(bytes, ".text"@) == Ok::<Option<SectionView>, ()>(Some(s)) ==> text_section(
            bytes,
        ) == Ok::<SectionView, Fault>(s),
        named_section(bytes, ".text"@) == Ok::<Option<SectionView>, ()>(None) && named_section(
            bytes,
            "__text"@,
        ) == Ok::<Option<SectionView>, ()>(Some(s)) ==> text_section(bytes) == Ok::<
            SectionView,
            Fault,
        >(s),
        named_section(bytes, ".text"@) == Ok::<Option<SectionView>, ()>(None) && named_section(
            bytes,
            "__text"@,
        ) == Ok::<Option<SectionView>, ()>(None) ==> match text_section(bytes) {
            Ok(t) => listed_sections(bytes) matches Ok(list) && first_text(list) == Some(t),
            Err(e) => e == Fault::Parse || (e == Fault::NoText && (listed_sections(
                bytes,
            ) matches Ok(list) && first_text(list) is None)),
        },
{
}

/// Prepared text holds the source unchanged, selects Intel syntax, and ends its last line; nothing
/// but the directive and a newline is put in.
pub proof fn intel_text_keeps_the_source(source: Seq<char>)
    ensures
        intel_text(source).len() > 0 && intel_text(source).last() == '\n',
        has_part(intel_text(source), ".intel_syntax"@),
        has_part(source, ".intel_syntax"@) ==> part_at(intel_text(source), source, 0)
            && intel_text(source).len() <= source.len() + 1,
        !has_part(source, ".intel_syntax"@) ==> part_at(
            intel_text(source),
            ".intel_syntax noprefix\n"@,
            0,
        ) && part_at(intel_text(source), source, ".intel_syntax noprefix\n"@.len() as int)
            && intel_text(source).len() <= ".intel_syntax noprefix\n"@.len() + source.len() + 1,
        part_at(ended(source), source, 0),
        ended(source).len() > 0 && ended(source).last() == '\n',
        ended(source).len() <= source.len() + 1,
{
    reveal_strlit("\n");
    reveal_strlit(".intel_syntax");
    reveal_strlit(".intel_syntax noprefix\n");
    let directive = ".intel_syntax"@;
    let line = ".intel_syntax noprefix\n"@;
    let t = intel_text(source);
    assert(ended(source).subrange(0, source.len() as int) =~= source);
    if has_part(source, directive) {
        let i = choose|i: int| part_at(source, directive, i);
        assert(t.subrange(0, source.len() as int) =~= source);
        assert(t.subrange(i, i + directive.len()) =~= directive);
        assert(part_at(t, directive, i));
    } else {
        assert(t.subrange(0, line.len() as int) =~= line);
        assert(t.subrange(line.len() as int, line.len() as int + source.len()) =~= source);
        assert(t.subrange(0, directive.len() as int) =~= directive);
        assert(part_at(t, directive, 0));
    }
}

/// The entry asks for a relocation that a module can hold: to a symbol that is there and has a
/// name, and of a known type.
pub open spec fn can_be_kept(arm: bool, r: RelocEntry, target: Option<SymbolView>) -> bool {
    r.target is Some && (target matches Some(s) && s.name is Some) && reloc_kind(arm, r) is Ok
}

proof fn lemma_all_kept(
    arm: bool,
    relocs: Seq<RelocEntry>,
    targets: Seq<Option<SymbolView>>,
    n: int,
)
    requires
        0 <= n <= relocs.len(),
        targets.len() == relocs.len(),
    ensures
        lower_relocs(arm, relocs, targets, n) is Ok <==> forall|k: int|
            0 <= k < n ==> can_be_kept(arm, #[trigger] relocs[k], targets[k]),
    decreases n,
{
    if n > 0 {
        lemma_all_kept(arm, relocs, targets, n - 1);
        assert(can_be_kept(arm, relocs[n - 1], targets[n - 1]) == (lower_reloc(
            arm,
            relocs[n - 1],
            targets[n - 1],
        ) is Ok));
    }
}

/// An object is refused only where its text cannot be read, an export has no name, or one of its
/// relocations cannot be held.
pub proof fn objects_are_refused_for_a_reason(
    text: SectionView,
    syms: Seq<SymbolView>,
    relocs: Seq<RelocEntry>,
    targets: Seq<Option<SymbolView>>,
    arm: bool,
)
    requires
        targets.len() == relocs.len(),
    ensures
        lowered(text, syms, relocs, targets, arm) is Ok <==> text.data is Some && exports(
            syms,
            text.index,
            text.address,
            syms.len() as int,
        ) is Ok && forall|k: int|
            0 <= k < relocs.len() ==> can_be_kept(arm, #[trigger] relocs[k], targets[k]),
{
    lemma_all_kept(arm, relocs, targets, relocs.len() as int);
}

/// The triples of x86 start with `x86`, or with `i`, a digit from 3 to 6, and `86`.
pub proof fn x86_triples(t: Seq<char>)
    ensures
        is_x86_triple(t) <==> (t.len() >= 3 && t[0] == 'x' && t[1] == '8' && t[2] == '6') || (t.len()
            >= 4 && t[0] == 'i' && '3' <= t[1] <= '6' && t[2] == '8' && t[3] == '6'),
{
    reveal_strlit("x86");
    reveal_strlit("i386");
    reveal_strlit("i486");
    reveal_strlit("i586");
    reveal_strlit("i686");
    if t.len() >= 3 {
        let s = t.subrange(0, 3);
        assert(s[0] == t[0] && s[1] == t[1] && s[2] == t[2]);
        if t[0] == 'x' && t[1] == '8' && t[2] == '6' {
            assert(s =~= "x86"@);
        }
    }
    if t.len() >= 4 {
        let s = t.subrange(0, 4);
        assert(s[0] == t[0] && s[1] == t[1] && s[2] == t[2] && s[3] == t[3]);
        if t[0] == 'i' && '3' <= t[1] <= '6' && t[2] == '8' && t[3] == '6' {
            assert(s =~= "i386"@ || s =~= "i486"@ || s =~= "i586"@ || s =~= "i686"@);
        }
    }
}

/// The module of an object file is made from its text section, its symbols and the relocations of
/// that very section, each with the symbol that it refers to. A file that starts with the letters
/// `MZ` is refused, as an image, and no other is for that reason.
pub proof fn objects_are_read_from_their_text_section(
    bytes: Seq<u8>,
    text: SectionView,
    syms: Seq<SymbolView>,
    relocs: Seq<RelocEntry>,
    targets: Seq<Option<SymbolView>>,
    arm: bool,
)
    requires
        text_section(bytes) == Ok::<SectionView, Fault>(text),
        says_aarch64(bytes) == Ok::<bool, ()>(arm),
        listed_symbols(bytes) == Ok::<Seq<SymbolView>, ()>(syms),
        listed_relocs(bytes, text.index) == Ok::<Seq<RelocEntry>, ()>(relocs),
        targets.len() == relocs.len(),
        forall|k: int|
            0 <= k < relocs.len() ==> #[trigger] targets[k] == match relocs[k].target {
                Some(i) => match indexed_symbol(bytes, i) {
                    Ok(s) => Some(s),
                    Err(_) => None,
                },
                None => None,
            },
    ensures
        bytes.len() >= 2 && bytes[0] == 0x4D && bytes[1] == 0x5A ==> object_module(bytes) == Err::<
            Lowered,
            Fault,
        >(Fault::Image),
        !(bytes.len() >= 2 && bytes[0] == 0x4D && bytes[1] == 0x5A) ==> object_module(bytes)
            == lowered(text, syms, relocs, targets, arm),
{
    assert(relocs.map_values(|r: RelocEntry| target_of(bytes, r)) =~= targets);
}

} // verus!
