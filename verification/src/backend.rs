//! The seam between encoding and loading.
//!
//! * [`Encoder`]: assembled text to machine code, symbols and relocations.
//! * [`Loader`]: declare symbols, bind host externs, place code in executable memory, resolve
//!   addresses.

use vstd::prelude::*;

use crate::names::NameMap;

verus! {

/// A relocation that the loader must resolve once final addresses are known.
#[derive(Debug, PartialEq, Eq)]
pub struct Reloc {
    /// Byte offset of the field to patch within the encoded code blob.
    pub at: usize,
    /// Field width in bytes (4 for rel32 and RIP-relative disp32, 8 for abs64).
    pub size: u8,
    pub kind: RelocKind,
    /// Target symbol name (internal label or host extern).
    pub target: String,
    /// Constant added to the resolved target before encoding.
    pub addend: i64,
}

#[derive(Debug, Clone, Copy, PartialEq, Eq, Structural)]
pub enum RelocKind {
    /// `call`/`jmp`/`jcc rel32`: field = target - (field_addr + 4).
    BranchRel32,
    /// `lea reg,[rip+disp32]` and friends: field = target - (field_addr + 4).
    RipRel32,
    /// 64-bit absolute address embedded in a data cell.
    Abs64,
    /// AArch64 `b`/`bl`: a word displacement in 26 bits.
    Branch26,
    /// AArch64 `adrp`: the distance in 4 KiB pages, in 21 bits.
    AdrpPage21,
    /// AArch64 `add`: the low 12 bits of the target.
    AddPageOff12,
}

/// What an [`Encoder`] produces: a position-independent code blob, with the symbol table and the
/// relocations that the [`Loader`] needs to place it.
#[derive(Debug, Clone)]
pub struct EncodedModule {
    /// The encoded bytes, with the relocated fields left as placeholders.
    pub code: Vec<u8>,
    /// Byte offset of every symbol defined here.
    pub symbols: NameMap<usize>,
    /// Relocations to apply at load time.
    pub relocs: Vec<Reloc>,
    /// Names referenced but not defined here: host externs to bind.
    pub externs: Vec<String>,
}

impl Clone for Reloc {
    fn clone(&self) -> (r: Reloc)
        ensures
            r == *self,
    {
        Reloc {
            at: self.at,
            size: self.size,
            kind: self.kind,
            target: self.target.clone(),
            addend: self.addend,
        }
    }
}

/// A relocation, with its target as characters.
pub struct RelocView {
    pub at: usize,
    pub size: u8,
    pub kind: RelocKind,
    pub target: Seq<char>,
    pub addend: i64,
}

impl Reloc {
    pub open spec fn view(&self) -> RelocView {
        RelocView {
            at: self.at,
            size: self.size,
            kind: self.kind,
            target: self.target@,
            addend: self.addend,
        }
    }
}

/// How many bytes a relocation of this kind patches.
pub open spec fn field_width(kind: RelocKind) -> int {
    match kind {
        RelocKind::Abs64 => 8,
        _ => 4,
    }
}

/// A pointer takes eight bytes, and every other field four.
pub proof fn fields_have_four_or_eight_bytes(kind: RelocKind)
    ensures
        kind == RelocKind::Abs64 ==> field_width(kind) == 8,
        kind != RelocKind::Abs64 ==> field_width(kind) == 4,
{
}

impl EncodedModule {
    /// The symbol table is in order, and every field to patch lies within the code.
    pub open spec fn wf(&self) -> bool {
        &&& self.symbols.wf()
        &&& forall|i: int|
            0 <= i < self.relocs@.len() ==> (#[trigger] self.relocs@[i]).at + field_width(
                self.relocs@[i].kind,
            ) <= self.code@.len()
    }
}

impl EncodedModule {
    /// Whether every field to patch lies within the code.
    pub fn fields_fit(&self) -> (b: bool)
        ensures
            self.symbols.wf() ==> b == self.wf(),
    {
        let n: usize = self.code.len();
        let mut i: usize = 0;
        while i < self.relocs.len()
            invariant
                i <= self.relocs@.len(),
                n == self.code@.len(),
                forall|k: int|
                    0 <= k < i ==> (#[trigger] self.relocs@[k]).at + field_width(
                        self.relocs@[k].kind,
                    ) <= n,
            decreases self.relocs@.len() - i,
        {
            let width: usize = match self.relocs[i].kind {
                RelocKind::Abs64 => 8,
                _ => 4,
            };
            if n < width || self.relocs[i].at > n - width {
                return false;
            }
            i += 1;
        }
        true
    }
}

impl Default for EncodedModule {
    fn default() -> (m: EncodedModule)
        ensures
            m.wf(),
            m.code@ == Seq::<u8>::empty(),
            m.symbols@ == Map::<Seq<char>, usize>::empty(),
            m.relocs@ == Seq::<Reloc>::empty(),
            m.externs@ == Seq::<String>::empty(),
    {
        EncodedModule {
            code: Vec::new(),
            symbols: NameMap::new(),
            relocs: Vec::new(),
            externs: Vec::new(),
        }
    }
}

/// Encodes assembled (macro-expanded) text into machine code.
pub trait Encoder {
    /// Why a text cannot be encoded.
    type Error;

    fn encode(&self, asm_text: &str) -> Result<EncodedModule, Self::Error>;
}

/// Places encoded code in executable memory, binds host externs, resolves symbol addresses.
pub trait Loader {
    /// Why a request is refused.
    type Error;

    /// Appends a chunk of assembly. Build time only.
    fn add_asm(&mut self, asm_text: &str) -> Result<(), Self::Error>;

    /// Advertises `name` (with `arg_count` i64 parameters) so that it can be looked up.
    fn declare_fn(&mut self, name: &str, arg_count: usize) -> Result<(), Self::Error>;

    /// Declares `name` and binds it to an address of the host process.
    fn define_extern_fn(&mut self, name: &str, arg_count: usize, addr: u64) -> Result<
        (),
        Self::Error,
    >;

    /// Finalizes if needed, and returns the address of `name`.
    fn lookup_addr(&mut self, name: &str) -> Result<u64, Self::Error>;
}

} // verus!
