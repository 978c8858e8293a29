//! Code space: what the native loaders share.
//!
//! A loader owns one region of memory at a fixed address. The bytes that belong there are built
//! up in an image; the host copies the image into the region before it makes the region
//! executable.

use vstd::prelude::*;
use vstd::string::*;

use crate::align::{rounded_up, lemma_rounded_up};
use crate::backend::{field_width, EncodedModule, Reloc, RelocKind};
use crate::bytes::overwrite;
use crate::names::NameMap;
use crate::text::{
    decimal, hex, lower_hex16, push_decimal, push_hex, push_lower_hex16, push_signed,
    signed_decimal,
};

verus! {

/// Why a loader refuses.
#[derive(Debug, Clone, PartialEq, Eq)]
pub enum LoadError {
    /// The loader of this name has been finalized.
    Finalized { loader: &'static str },
    /// The region is too small.
    Exhausted { need: usize, cap: usize },
    /// A relocation refers to a name that is neither defined nor bound.
    Unresolved { target: String },
    /// A rel32 field cannot hold the distance.
    Rel32Range { name: String, rel: i64, target: u64, site: u64 },
    /// No memory near the anchor.
    NoRegion { anchor: u64, last_error: u32 },
    /// The region could not be made executable.
    NotProtected { last_error: u32 },
    /// No memory for JITed code.
    NoJitMemory,
    /// No room for another veneer.
    VeneersExhausted,
    /// An `adrp` field cannot hold the distance.
    AdrpRange,
    /// A relocation kind of another machine.
    ForeignKind { kind: RelocKind },
    /// A name that is not defined.
    NoSymbol { name: String },
}

pub open spec fn kind_name(kind: RelocKind) -> Seq<char> {
    match kind {
        RelocKind::BranchRel32 => "BranchRel32"@,
        RelocKind::RipRel32 => "RipRel32"@,
        RelocKind::Abs64 => "Abs64"@,
        RelocKind::Branch26 => "Branch26"@,
        RelocKind::AdrpPage21 => "AdrpPage21"@,
        RelocKind::AddPageOff12 => "AddPageOff12"@,
    }
}

fn kind_str(kind: RelocKind) -> (s: &'static str)
    ensures
        s@ == kind_name(kind),
{
    match kind {
        RelocKind::BranchRel32 => "BranchRel32",
        RelocKind::RipRel32 => "RipRel32",
        RelocKind::Abs64 => "Abs64",
        RelocKind::Branch26 => "Branch26",
        RelocKind::AdrpPage21 => "AdrpPage21",
        RelocKind::AddPageOff12 => "AddPageOff12",
    }
}

/// True of the relocation kinds of x86-64.
pub open spec fn is_x86(kind: RelocKind) -> bool {
    kind == RelocKind::BranchRel32 || kind == RelocKind::RipRel32
}

impl LoadError {
    /// What the error says.
    pub open spec fn text(self) -> Seq<char> {
        match self {
            LoadError::Finalized { loader } => loader@ + " already finalized"@,
            LoadError::Exhausted { need, cap } => "code region exhausted: need "@ + decimal(
                need as nat,
            ) + " bytes, cap "@ + decimal(cap as nat),
            LoadError::Unresolved { target } => "unresolved reloc target `"@ + target@ + "`"@,
            LoadError::Rel32Range { name, rel, target, site } => "rel32 out of range for `"@ + name@
                + "`: "@ + signed_decimal(rel as int) + " (target 0x"@ + hex(target as nat)
                + ", site 0x"@ + hex(site as nat) + ")"@,
            LoadError::NoRegion { anchor, last_error } => "VirtualAlloc2 near 0x"@ + lower_hex16(
                anchor,
            ) + " returned null (GetLastError = "@ + decimal(last_error as nat) + ")"@,
            LoadError::NotProtected { last_error } => "VirtualProtect RX failed (GetLastError = "@
                + decimal(last_error as nat) + ")"@,
            LoadError::NoJitMemory => "mmap(MAP_JIT) failed — JIT memory unavailable"@,
            LoadError::VeneersExhausted => "veneer region exhausted"@,
            LoadError::AdrpRange => "adrp page offset out of ±4 GB range"@,
            LoadError::ForeignKind { kind } => if is_x86(kind) {
                "x86 relocation kind "@ + kind_name(kind) + " in an AArch64 module"@
            } else {
                "AArch64 relocation kind "@ + kind_name(kind) + " in an x86 module"@
            },
            LoadError::NoSymbol { name } => "macos loader: symbol `"@ + name@ + "` not found"@,
        }
    }

    pub fn message(&self) -> (s: String)
        ensures
            s@ == self.text(),
    {
        let mut out = String::new();
        match self {
            LoadError::Finalized { loader } => {
                out.append(loader);
                out.append(" already finalized");
            },
            LoadError::Exhausted { need, cap } => {
                out.append("code region exhausted: need ");
                push_decimal(&mut out, *need as u64);
                out.append(" bytes, cap ");
                push_decimal(&mut out, *cap as u64);
            },
            LoadError::Unresolved { target } => {
                out.append("unresolved reloc target `");
                out.append(target.as_str());
                out.append("`");
            },
            LoadError::Rel32Range { name, rel, target, site } => {
                out.append("rel32 out of range for `");
                out.append(name.as_str());
                out.append("`: ");
                push_signed(&mut out, *rel);
                out.append(" (target 0x");
                push_hex(&mut out, *target);
                out.append(", site 0x");
                push_hex(&mut out, *site);
                out.append(")");
            },
            LoadError::NoRegion { anchor, last_error } => {
                out.append("VirtualAlloc2 near 0x");
                push_lower_hex16(&mut out, *anchor);
                out.append(" returned null (GetLastError = ");
                push_decimal(&mut out, *last_error as u64);
                out.append(")");
            },
            LoadError::NotProtected { last_error } => {
                out.append("VirtualProtect RX failed (GetLastError = ");
                push_decimal(&mut out, *last_error as u64);
                out.append(")");
            },
            LoadError::NoJitMemory => {
                out.append("mmap(MAP_JIT) failed — JIT memory unavailable");
            },
            LoadError::VeneersExhausted => {
                out.append("veneer region exhausted");
            },
            LoadError::AdrpRange => {
                out.append("adrp page offset out of ±4 GB range");
            },
            LoadError::ForeignKind { kind } => {
                match kind {
                    RelocKind::BranchRel32 | RelocKind::RipRel32 => {
                        out.append("x86 relocation kind ");
                        out.append(kind_str(*kind));
                        out.append(" in an AArch64 module");
                    },
                    _ => {
                        out.append("AArch64 relocation kind ");
                        out.append(kind_str(*kind));
                        out.append(" in an x86 module");
                    },
                }
            },
            LoadError::NoSymbol { name } => {
                out.append("macos loader: symbol `");
                out.append(name.as_str());
                out.append("` not found");
            },
        }
        assert(out@ =~= self.text());
        out
    }
}

/// A module that has been placed: where, and the relocations still to apply.
#[derive(Debug)]
pub struct Placed {
    pub base: u64,
    pub relocs: Vec<Reloc>,
}

/// A region of memory with what was placed in it.
pub struct CodeSpace {
    /// Address of the region.
    pub base: u64,
    /// What the region is to hold.
    pub image: Vec<u8>,
    /// Bytes of the region that are taken.
    pub used: usize,
    /// Defined symbol to address.
    pub symbols: NameMap<u64>,
    /// Host extern to address.
    pub externs: NameMap<u64>,
    pub placed: Vec<Placed>,
}

/// The alignment of a placed module.
pub const MODULE_ALIGN: usize = 16;

/// The address that a name stands for: a defined symbol, or else a bound extern.
pub open spec fn resolution(
    symbols: Map<Seq<char>, u64>,
    externs: Map<Seq<char>, u64>,
    name: Seq<char>,
) -> Option<u64> {
    if symbols.dom().contains(name) {
        Some(symbols[name])
    } else if externs.dom().contains(name) {
        Some(externs[name])
    } else {
        None
    }
}

/// The symbols of a module that is placed at `base`.
pub open spec fn moved(symbols: Map<Seq<char>, usize>, base: int) -> Map<Seq<char>, u64> {
    Map::new(
        |name: Seq<char>| symbols.dom().contains(name),
        |name: Seq<char>| (base + symbols[name]) as u64,
    )
}

impl CodeSpace {
    /// The region has an end, what was placed lies in it, and so does every field to patch.
    pub open spec fn wf(&self) -> bool {
        &&& self.symbols.wf()
        &&& self.externs.wf()
        &&& self.base + self.image@.len() <= u64::MAX
        &&& self.used <= self.image@.len()
        &&& self.fields_inside()
    }

    pub open spec fn fields_inside(&self) -> bool {
        forall|p: int, i: int|
            0 <= p < self.placed@.len() && 0 <= i < self.placed@[p].relocs@.len() ==> {
                let r = #[trigger] self.placed@[p].relocs@[i];
                &&& self.base <= self.placed@[p].base
                &&& self.placed@[p].base + r.at + field_width(r.kind) <= self.base + self.used
            }
    }

    pub open spec fn resolved(&self, name: Seq<char>) -> Option<u64> {
        resolution(self.symbols@, self.externs@, name)
    }

    /// `m` can be placed in terms of machine numbers.
    pub open spec fn measurable(&self, m: EncodedModule) -> bool {
        &&& self.image@.len() + m.code@.len() + MODULE_ALIGN <= usize::MAX
        &&& forall|name: Seq<char>| #[trigger]
            m.symbols@.dom().contains(name) ==> self.base + self.image@.len() + m.symbols@[name]
                <= u64::MAX
    }

    /// A region of `cap` zero bytes at `base`.
    pub fn new(base: u64, cap: usize) -> (c: CodeSpace)
        requires
            base + cap <= u64::MAX,
        ensures
            c.wf(),
            c.base == base,
            c.image@ == Seq::new(cap as nat, |i: int| 0u8),
            c.used == 0,
            c.symbols@ == Map::<Seq<char>, u64>::empty(),
            c.externs@ == Map::<Seq<char>, u64>::empty(),
            c.placed@ == Seq::<Placed>::empty(),
    {
        let image: Vec<u8> = vec![0u8; cap];
        assert(image@ =~= Seq::new(cap as nat, |i: int| 0u8));
        CodeSpace {
            base,
            image,
            used: 0,
            symbols: NameMap::new(),
            externs: NameMap::new(),
            placed: Vec::new(),
        }
    }

    /// Whether `m` can be placed in terms of machine numbers.
    pub fn can_measure(&self, m: &EncodedModule) -> (b: bool)
        requires
            self.wf(),
            m.symbols.wf(),
        ensures
            b == self.measurable(*m),
    {
        let cap: usize = self.image.len();
        let room: usize = usize::MAX - cap;
        if m.code.len() > room || MODULE_ALIGN > room - m.code.len() {
            return false;
        }
        let limit: u64 = u64::MAX - (self.base + cap as u64);
        let mut i: usize = 0;
        while i < m.symbols.len()
            invariant
                self.wf(),
                m.symbols.wf(),
                i <= m.symbols.entries().len(),
                limit == u64::MAX - (self.base + self.image@.len()),
                forall|k: int|
                    0 <= k < i ==> (#[trigger] m.symbols.entries()[k]).1 <= limit,
            decreases m.symbols.entries().len() - i,
        {
            if *m.symbols.value(i) as u64 > limit {
                proof {
                    m.symbols.lemma_entry(i as int);
                }
                return false;
            }
            i += 1;
        }
        proof {
            assert forall|name: Seq<char>| #[trigger] m.symbols@.dom().contains(name) implies
                self.base + self.image@.len() + m.symbols@[name] <= u64::MAX by {
                let k = choose|k: int| crate::names::entry_is(m.symbols.entries(), name, k);
                m.symbols.lemma_entry(k);
            }
        }
        true
    }

    /// The address of `name`: a defined symbol or a bound extern.
    pub fn resolve(&self, name: &str) -> (r: Option<u64>)
        requires
            self.wf(),
        ensures
            r == self.resolved(name@),
    {
        match self.symbols.get(name) {
            Some(a) => Some(*a),
            None => match self.externs.get(name) {
                Some(a) => Some(*a),
                None => None,
            },
        }
    }
}

/// What placing a module does.
pub open spec fn placing(
    before: CodeSpace,
    after: CodeSpace,
    m: EncodedModule,
    r: Result<u64, LoadError>,
) -> bool {
    let start = rounded_up(before.used as int, MODULE_ALIGN as int);
    let end = start + m.code@.len();
    if end > before.image@.len() {
        r == Err::<u64, LoadError>(
            LoadError::Exhausted { need: end as usize, cap: before.image@.len() as usize },
        ) && after == before
    } else {
        let base = before.base + start;
        &&& r == Ok::<u64, LoadError>(base as u64)
        &&& after.base == before.base
        &&& after.image@ == overwrite(before.image@, start, m.code@)
        &&& after.used == end
        &&& after.symbols@ == before.symbols@.union_prefer_right(moved(m.symbols@, base))
        &&& after.externs == before.externs
        &&& after.placed@.len() == before.placed@.len() + 1
        &&& after.placed@.drop_last() == before.placed@
        &&& after.placed@.last().base == base
        &&& after.placed@.last().relocs@ == m.relocs@
    }
}

/// `map` with the first `n` entries put in, moved by `base`.
spec fn with_entries(
    map: Map<Seq<char>, u64>,
    entries: Seq<(String, usize)>,
    base: int,
    n: int,
) -> Map<Seq<char>, u64>
    decreases n,
{
    if n <= 0 {
        map
    } else {
        with_entries(map, entries, base, n - 1).insert(
            entries[n - 1].0@,
            (base + entries[n - 1].1) as u64,
        )
    }
}

proof fn lemma_with_entries(
    map: Map<Seq<char>, u64>,
    m: NameMap<usize>,
    base: int,
    n: int,
    name: Seq<char>,
)
    requires
        m.wf(),
        0 <= n <= m.entries().len(),
    ensures
        ({
            let w = with_entries(map, m.entries(), base, n);
            let found = exists|k: int| 0 <= k < n && (#[trigger] m.entries()[k]).0@ == name;
            &&& w.dom().contains(name) == (map.dom().contains(name) || found)
            &&& found ==> m@.dom().contains(name) && w[name] == (base + m@[name]) as u64
            &&& !found ==> w[name] == map[name]
        }),
    decreases n,
{
    if n > 0 {
        lemma_with_entries(map, m, base, n - 1, name);
        m.lemma_entry(n - 1);
        if m.entries()[n - 1].0@ != name {
            if exists|k: int| 0 <= k < n && (#[trigger] m.entries()[k]).0@ == name {
                let k = choose|k: int| 0 <= k < n && (#[trigger] m.entries()[k]).0@ == name;
                assert(0 <= k < n - 1 && m.entries()[k].0@ == name);
            }
        }
    }
}

proof fn lemma_all_entries(map: Map<Seq<char>, u64>, m: NameMap<usize>, base: int)
    requires
        m.wf(),
    ensures
        with_entries(map, m.entries(), base, m.entries().len() as int) == map.union_prefer_right(
            moved(m@, base),
        ),
{
    let n = m.entries().len() as int;
    let w = with_entries(map, m.entries(), base, n);
    let u = map.union_prefer_right(moved(m@, base));
    assert forall|name: Seq<char>|
        #![trigger w.dom().contains(name)]
        #![trigger u.dom().contains(name)]
        w.dom().contains(name) == u.dom().contains(name) && (w.dom().contains(name) ==> w[name]
            == u[name]) by {
        lemma_with_entries(map, m, base, n, name);
        if m@.dom().contains(name) {
            let k = choose|k: int| crate::names::entry_is(m.entries(), name, k);
            assert(crate::names::entry_is(m.entries(), name, k));
            assert(m.entries()[k].0@ == name);
        }
    }
    assert(w =~= u);
}

impl CodeSpace {
    fn copy_in(&mut self, start: usize, code: &Vec<u8>)
        requires
            start + code@.len() <= old(self).image.len(),
        ensures
            final(self).image@ == overwrite(old(self).image@, start as int, code@),
            *final(self) == (CodeSpace { image: final(self).image, ..*old(self) }),
    {
        let mut i: usize = 0;
        let ghost was = self.image@;
        assert(self.image@ =~= overwrite(was, start as int, code@.take(0)));
        while i < code.len()
            invariant
                i <= code@.len(),
                start + code@.len() <= self.image.len(),
                was.len() == self.image@.len(),
                self.image@ == overwrite(was, start as int, code@.take(i as int)),
                *self == (CodeSpace { image: self.image, ..*old(self) }),
            decreases code@.len() - i,
        {
            self.image.set(start + i, code[i]);
            i += 1;
            assert(self.image@ =~= overwrite(was, start as int, code@.take(i as int)));
        }
        assert(code@.take(i as int) =~= code@);
    }

    fn define_symbols(&mut self, m: &NameMap<usize>, base: u64)
        requires
            old(self).symbols.wf(),
            m.wf(),
            forall|name: Seq<char>| #[trigger]
                m@.dom().contains(name) ==> base + m@[name] <= u64::MAX,
        ensures
            final(self).symbols.wf(),
            final(self).symbols@ == old(self).symbols@.union_prefer_right(moved(m@, base as int)),
            *final(self) == (CodeSpace { symbols: final(self).symbols, ..*old(self) }),
    {
        let mut i: usize = 0;
        while i < m.len()
            invariant
                m.wf(),
                i <= m.entries().len(),
                forall|name: Seq<char>| #[trigger]
                    m@.dom().contains(name) ==> base + m@[name] <= u64::MAX,
                self.symbols.wf(),
                self.symbols@ == with_entries(
                    old(self).symbols@,
                    m.entries(),
                    base as int,
                    i as int,
                ),
                *self == (CodeSpace { symbols: self.symbols, ..*old(self) }),
            decreases m.entries().len() - i,
        {
            proof {
                m.lemma_entry(i as int);
            }
            self.symbols.insert(m.name(i).clone(), base + *m.value(i) as u64);
            i += 1;
        }
        proof {
            lemma_all_entries(old(self).symbols@, *m, base as int);
        }
    }

    /// Copies the code of `m` into the image, records its symbols at their final addresses, and
    /// queues its relocations. Gives the module's base address.
    pub fn place(&mut self, m: &EncodedModule) -> (r: Result<u64, LoadError>)
        requires
            old(self).wf(),
            m.wf(),
            old(self).measurable(*m),
        ensures
            final(self).wf(),
            placing(*old(self), *final(self), *m, r),
    {
        proof {
            vstd::arithmetic::power2::lemma2_to64();
            assert(16 == vstd::arithmetic::power2::pow2(4));
            lemma_rounded_up(self.used as int, 16);
        }
        let cap: usize = self.image.len();
        let len: usize = m.code.len();
        let start: usize = crate::align::round_up(self.used, MODULE_ALIGN);
        let end: usize = start + len;
        if end > cap {
            return Err(LoadError::Exhausted { need: end, cap });
        }
        let base: u64 = self.base + start as u64;
        self.copy_in(start, &m.code);
        self.define_symbols(&m.symbols, base);
        let ghost before = self.placed@;
        let relocs: Vec<Reloc> = m.relocs.clone();
        assert(relocs@ =~= m.relocs@);
        self.placed.push(Placed { base, relocs });
        self.used = end;
        assert(self.placed@.drop_last() =~= before);
        proof {
            assert forall|p: int, i: int|
                0 <= p < self.placed@.len() && 0 <= i < self.placed@[p].relocs@.len() implies {
                let r = #[trigger] self.placed@[p].relocs@[i];
                &&& self.base <= self.placed@[p].base
                &&& self.placed@[p].base + r.at + field_width(r.kind) <= self.base + self.used
            } by {
                if p < before.len() {
                    assert(self.placed@[p] == old(self).placed@[p]);
                    let r = old(self).placed@[p].relocs@[i];
                } else {
                    assert(m.relocs@[i] == self.placed@[p].relocs@[i]);
                }
            }
        }
        Ok(base)
    }
}

/// A module goes behind everything placed before, at a multiple of [`MODULE_ALIGN`], and changes
/// none of it. Its symbols are found at its base plus their offsets; a symbol that it does not
/// define keeps its address.
pub proof fn placing_keeps_what_was_there(
    before: CodeSpace,
    after: CodeSpace,
    m: EncodedModule,
    base: u64,
)
    requires
        before.wf(),
        before.measurable(m),
        placing(before, after, m, Ok(base)),
    ensures
        before.base + before.used <= base < before.base + before.used + 16,
        (base - before.base) % (MODULE_ALIGN as int) == 0,
        (base - before.base) % 16 == 0,
        after.externs == before.externs,
        after.placed@.len() == before.placed@.len() + 1,
        after.placed@.last().base == base,
        after.placed@.last().relocs@ == m.relocs@,
        forall|p: int|
            0 <= p < before.placed@.len() ==> #[trigger] after.placed@[p] == before.placed@[p],
        base + m.code@.len() == after.base + after.used,
        forall|i: int| 0 <= i < before.used ==> #[trigger] after.image@[i] == before.image@[i],
        forall|i: int|
            0 <= i < m.code@.len() ==> #[trigger] after.image@[base - before.base + i]
                == m.code@[i],
        forall|name: Seq<char>| #[trigger]
            m.symbols@.dom().contains(name) ==> after.resolved(name) == Some(
                (base + m.symbols@[name]) as u64,
            ),
        forall|name: Seq<char>|
            !m.symbols@.dom().contains(name) ==> #[trigger] after.resolved(name)
                == before.resolved(name),
{
    lemma_rounded_up(before.used as int, MODULE_ALIGN as int);
    assert forall|p: int| 0 <= p < before.placed@.len() implies #[trigger] after.placed@[p]
        == before.placed@[p] by {
        assert(after.placed@.drop_last()[p] == before.placed@[p]);
    }
}

/// A module is refused only where it does not fit: wherever it could go, aligned and behind what
/// was placed before, it would end behind the region. What was there is left alone.
pub proof fn module_that_fits_is_placed(
    before: CodeSpace,
    after: CodeSpace,
    m: EncodedModule,
    r: Result<u64, LoadError>,
)
    requires
        before.wf(),
        before.measurable(m),
        placing(before, after, m, r),
    ensures
        r is Ok <==> exists|start: int|
            #![trigger before.base + start]
            before.used <= start && start % 16 == 0 && start + m.code@.len()
                <= before.image@.len() && 0 <= before.base + start,
        r matches Err(e) ==> after == before && (e matches LoadError::Exhausted { need, cap } && cap
            == before.image@.len() && before.used + m.code@.len() <= need < before.used
            + m.code@.len() + 16 && cap < need),
{
    lemma_rounded_up(before.used as int, 16);
    let start = rounded_up(before.used as int, 16);
    if r is Ok {
        assert(0 <= before.base + start);
    }
}

/// The relocations to apply, in the order of the modules, each with its module's base.
pub open spec fn jobs(placed: Seq<Placed>) -> Seq<(u64, Reloc)>
    decreases placed.len(),
{
    if placed.len() == 0 {
        Seq::empty()
    } else {
        jobs(placed.drop_last()) + placed.last().relocs@.map_values(
            |r: Reloc| (placed.last().base, r),
        )
    }
}

/// Where in the list of work the relocations of the `p`th module start.
pub open spec fn first_job(placed: Seq<Placed>, p: int) -> int {
    jobs(placed.take(p)).len() as int
}

proof fn lemma_jobs_prefix(placed: Seq<Placed>, n: int)
    requires
        0 <= n <= placed.len(),
    ensures
        jobs(placed.take(n)).len() <= jobs(placed).len(),
        jobs(placed).take(jobs(placed.take(n)).len() as int) == jobs(placed.take(n)),
    decreases placed.len(),
{
    if n == placed.len() {
        assert(placed.take(n) =~= placed);
        assert(jobs(placed).take(jobs(placed).len() as int) =~= jobs(placed));
    } else {
        lemma_jobs_prefix(placed.drop_last(), n);
        assert(placed.drop_last().take(n) =~= placed.take(n));
        let m = jobs(placed.take(n)).len() as int;
        assert(jobs(placed).take(m) =~= jobs(placed.drop_last()).take(m));
    }
}

/// No relocation is forgotten: each relocation of each placed module stands in the list of work
/// with its module's base, at a place of its own.
pub proof fn every_relocation_is_queued(placed: Seq<Placed>, p: int, i: int)
    requires
        0 <= p < placed.len(),
        0 <= i < placed[p].relocs@.len(),
    ensures
        0 <= first_job(placed, p) + i < jobs(placed).len(),
        jobs(placed)[first_job(placed, p) + i] == (placed[p].base, placed[p].relocs@[i]),
        first_job(placed, p) + placed[p].relocs@.len() == first_job(placed, p + 1),
{
    let upto = placed.take(p + 1);
    assert(upto.drop_last() =~= placed.take(p));
    assert(upto.last() == placed[p]);
    let m = first_job(placed, p);
    assert(jobs(upto)[m + i] == (placed[p].base, placed[p].relocs@[i]));
    lemma_jobs_prefix(placed, p + 1);
    assert(jobs(placed).take(jobs(upto).len() as int)[m + i] == jobs(placed)[m + i]);
}

/// Nothing else is in the list of work: what stands there is a relocation of a placed module.
pub proof fn every_job_is_a_relocation(placed: Seq<Placed>, k: int) -> (pi: (int, int))
    requires
        0 <= k < jobs(placed).len(),
    ensures
        0 <= pi.0 < placed.len(),
        0 <= pi.1 < placed[pi.0].relocs@.len(),
        k == first_job(placed, pi.0) + pi.1,
        jobs(placed)[k] == (placed[pi.0].base, placed[pi.0].relocs@[pi.1]),
    decreases placed.len(),
{
    let n = placed.len() - 1;
    let init = placed.drop_last();
    assert(placed.take(n) =~= init);
    if k >= jobs(init).len() {
        every_relocation_is_queued(placed, n, k - jobs(init).len());
        (n, k - jobs(init).len())
    } else {
        let pi = every_job_is_a_relocation(init, k);
        assert(init.take(pi.0) =~= placed.take(pi.0));
        assert(jobs(placed)[k] == jobs(init)[k]);
        pi
    }
}

/// The address of the field of the `i`th relocation of the `p`th module.
pub open spec fn field_at(placed: Seq<Placed>, p: int, i: int) -> int {
    placed[p].base + placed[p].relocs@[i].at
}

/// The address behind that field.
pub open spec fn field_end(placed: Seq<Placed>, p: int, i: int) -> int {
    field_at(placed, p, i) + field_width(placed[p].relocs@[i].kind)
}

/// There is an `i`th relocation of the `p`th module.
pub open spec fn is_reloc(placed: Seq<Placed>, p: int, i: int) -> bool {
    0 <= p < placed.len() && 0 <= i < placed[p].relocs@.len()
}

/// No two relocations patch the same byte.
pub open spec fn fields_lie_apart(placed: Seq<Placed>) -> bool {
    forall|p: int, i: int, q: int, j: int|
        #![trigger is_reloc(placed, p, i), is_reloc(placed, q, j)]
        is_reloc(placed, p, i) && is_reloc(placed, q, j) && (p != q || i != j) ==> field_end(
            placed,
            p,
            i,
        ) <= field_at(placed, q, j) || field_end(placed, q, j) <= field_at(placed, p, i)
}

/// The byte at `addr` belongs to the field of a relocation.
pub open spec fn is_patched(placed: Seq<Placed>, addr: int) -> bool {
    exists|p: int, i: int| #[trigger]
        is_reloc(placed, p, i) && field_at(placed, p, i) <= addr < field_end(placed, p, i)
}

/// `goal` is where the relocation `r` wants to go: the address of its target, which is a defined
/// symbol or else a bound extern, plus the addend, as a 64-bit address.
pub open spec fn wants(c: CodeSpace, r: Reloc, goal: int) -> bool {
    let name = r.target@;
    if c.symbols@.dom().contains(name) {
        goal == (c.symbols@[name] + r.addend) % 0x1_0000_0000_0000_0000
    } else {
        c.externs@.dom().contains(name) && goal == (c.externs@[name] + r.addend)
            % 0x1_0000_0000_0000_0000
    }
}

/// The number that the eight bytes of `img` from `at` on spell, least significant first.
pub open spec fn spelled64(img: Seq<u8>, at: int) -> int {
    img[at] + 0x100 * img[at + 1] + 0x1_0000 * img[at + 2] + 0x100_0000 * img[at + 3]
        + 0x1_0000_0000 * img[at + 4] + 0x100_0000_0000 * img[at + 5] + 0x1_0000_0000_0000 * img[at
        + 6] + 0x100_0000_0000_0000 * img[at + 7]
}

/// The number that the four bytes of `img` from `at` on spell, least significant first.
pub open spec fn spelled32(img: Seq<u8>, at: int) -> int {
    img[at] + 0x100 * img[at + 1] + 0x1_0000 * img[at + 2] + 0x100_0000 * img[at + 3]
}

/// The field of `job` lies in the region that starts at `base` and of which `used` bytes are
/// taken.
pub open spec fn field_inside(job: (u64, Reloc), base: u64, used: usize) -> bool {
    base <= job.0 && job.0 + job.1.at + field_width(job.1.kind) <= base + used
}

proof fn lemma_jobs_inside(c: CodeSpace, n: int)
    requires
        c.fields_inside(),
        0 <= n <= c.placed@.len(),
    ensures
        forall|k: int|
            0 <= k < jobs(c.placed@.take(n)).len() ==> field_inside(
                #[trigger] jobs(c.placed@.take(n))[k],
                c.base,
                c.used,
            ),
    decreases n,
{
    let placed = c.placed@.take(n);
    if n > 0 {
        lemma_jobs_inside(c, n - 1);
        assert(placed.drop_last() =~= c.placed@.take(n - 1));
        let before = jobs(placed.drop_last());
        assert forall|k: int| 0 <= k < jobs(placed).len() implies field_inside(
            #[trigger] jobs(placed)[k],
            c.base,
            c.used,
        ) by {
            if k >= before.len() {
                let r = c.placed@[n - 1].relocs@[k - before.len()];
                assert(jobs(placed)[k] == (c.placed@[n - 1].base, r));
            } else {
                assert(jobs(placed)[k] == before[k]);
            }
        }
    }
}

impl CodeSpace {
    /// The relocations to apply.
    pub(crate) fn queued(&self) -> (v: Vec<(u64, Reloc)>)
        requires
            self.wf(),
        ensures
            v@ == jobs(self.placed@),
            forall|k: int|
                0 <= k < v@.len() ==> field_inside(#[trigger] v@[k], self.base, self.used),
    {
        let mut v: Vec<(u64, Reloc)> = Vec::new();
        let mut p: usize = 0;
        assert(self.placed@.take(0) =~= Seq::empty());
        while p < self.placed.len()
            invariant
                p <= self.placed@.len(),
                v@ == jobs(self.placed@.take(p as int)),
            decreases self.placed@.len() - p,
        {
            let ghost before = v@;
            let base: u64 = self.placed[p].base;
            let relocs: &Vec<Reloc> = &self.placed[p].relocs;
            let ghost mine = relocs@.map_values(|r: Reloc| (base, r));
            let mut i: usize = 0;
            assert(v@ =~= before + mine.take(0));
            while i < relocs.len()
                invariant
                    i <= relocs@.len(),
                    mine == relocs@.map_values(|r: Reloc| (base, r)),
                    v@ == before + mine.take(i as int),
                decreases relocs@.len() - i,
            {
                v.push((base, relocs[i].clone()));
                i += 1;
                assert(v@ =~= before + mine.take(i as int));
            }
            proof {
                let next = self.placed@.take(p + 1);
                assert(next.drop_last() =~= self.placed@.take(p as int));
                assert(next.last() == self.placed@[p as int]);
                assert(mine.take(i as int) =~= mine);
                assert(mine =~= next.last().relocs@.map_values(
                    |r: Reloc| (next.last().base, r),
                ));
            }
            p += 1;
        }
        proof {
            assert(self.placed@.take(p as int) =~= self.placed@);
            lemma_jobs_inside(*self, p as int);
        }
        v
    }
}

/// A name stands for the symbol that is defined under it, and only where there is none for the
/// extern that is bound to it.
pub proof fn symbols_come_before_externs(
    symbols: Map<Seq<char>, u64>,
    externs: Map<Seq<char>, u64>,
    name: Seq<char>,
    addr: u64,
)
    ensures
        resolution(symbols.insert(name, addr), externs, name) == Some(addr),
        !symbols.dom().contains(name) ==> resolution(symbols, externs.insert(name, addr), name)
            == Some(addr),
        resolution(symbols, externs, name) is None <==> !symbols.dom().contains(name)
            && !externs.dom().contains(name),
{
}

} // verus!
